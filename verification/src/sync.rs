//! A sync from start to end, and the reports on its state.
use vstd::prelude::*;

use crate::cli::SyncOpts;
use crate::config::{bare_extensions, normalize_extensions, Config};
use crate::crawler::crawl::{copy_texts, effective};
use crate::db::models::{record_views, status_text, tally_views, FileRecord, RecordView};
use crate::db::tables::{folder_views, FolderView, SelectedFolder};
use crate::downloader::plan::{as_unsigned, to_unsigned};
use crate::outside::byte_size;
use crate::outside::byte_size_text;
use crate::text::{
    decimal, law_padding_adds_spaces_behind, padded, push_decimal, push_padded, signed_decimal,
    signed_decimal_text, texts,
};
use crate::tui::folder_selector::{enabled_paths, enabled_paths_of, law_enabled_folders_are_found};

verus! {

// ---------------------------------------------------------------------------
// Options
// ---------------------------------------------------------------------------

/// Applies the options of a sync to the configuration: what is given overrides what is
/// configured, everything else stays.
pub fn apply_options(config: Config, opts: &SyncOpts) -> (r: Config)
    ensures
        r.output.dir@ == (match opts.output {
            Some(dir) => dir@,
            None => config.output.dir@,
        }),
        opts.output is None ==> r.output == config.output,
        r.server == config.server,
        r.rate_limit == config.rate_limit,
        r.concurrency.max_parallel_downloads == (match opts.concurrency {
            Some(n) => n,
            None => config.concurrency.max_parallel_downloads,
        }),
        r.concurrency.delay_between_requests_ms == (match opts.delay {
            Some(ms) => ms,
            None => config.concurrency.delay_between_requests_ms,
        }),
        r.concurrency.max_parallel_crawls == config.concurrency.max_parallel_crawls,
        r.concurrency.crawl_delay_ms == config.concurrency.crawl_delay_ms,
        r.concurrency.max_crawl_retries == config.concurrency.max_crawl_retries,
        texts(r.sync.allowed_extensions@) == effective(
            bare_extensions(texts(opts.extensions@)),
            texts(config.sync.allowed_extensions@),
        ),
        r.sync.include_folders == config.sync.include_folders,
        r.sync.exclude_patterns == config.sync.exclude_patterns,
        r.sync.redownload_on_size_mismatch == config.sync.redownload_on_size_mismatch,
{
    let mut config = config;
    match &opts.output {
        Some(dir) => {
            config.output.dir = dir.clone();
        },
        None => {},
    }
    match opts.concurrency {
        Some(n) => {
            config.concurrency.max_parallel_downloads = n;
        },
        None => {},
    }
    match opts.delay {
        Some(ms) => {
            config.concurrency.delay_between_requests_ms = ms;
        },
        None => {},
    }
    if opts.extensions.len() > 0 {
        config.sync.allowed_extensions = normalize_extensions(&opts.extensions);
    }
    config
}

/// Whether the folder selector is opened first: nothing was ever selected, and no folders are
/// given.
pub fn needs_selector(has_selections: bool, opts: &SyncOpts) -> (r: bool)
    ensures
        r == (!has_selections && opts.include_folders@.len() == 0),
{
    !has_selections && opts.include_folders.len() == 0
}

/// The folders of a sync: those that are given, or the enabled ones of the saved selection.
pub open spec fn sync_folders(given: Seq<Seq<char>>, saved: Seq<FolderView>) -> Seq<Seq<char>> {
    if given.len() > 0 {
        given
    } else {
        enabled_paths_of(saved)
    }
}

/// The folders of a sync.
pub fn folders_to_sync(given: &Vec<String>, saved: &Vec<SelectedFolder>) -> (r: Vec<String>)
    ensures
        texts(r@) == sync_folders(texts(given@), folder_views(saved@)),
{
    if given.len() > 0 {
        copy_texts(given)
    } else {
        enabled_paths(saved)
    }
}

/// Whether there is nothing to sync: no folders are selected, given or configured.
pub fn nothing_to_sync(folders: &Vec<String>, config: &Config) -> (r: bool)
    ensures
        r == (folders@.len() == 0 && config.sync.include_folders@.len() == 0),
{
    folders.len() == 0 && config.sync.include_folders.len() == 0
}

// ---------------------------------------------------------------------------
// Phases
// ---------------------------------------------------------------------------

/// What of a sync is done.
#[derive(Debug, Clone, Copy, PartialEq, Eq, Structural)]
pub enum Stage {
    /// The folders are known and interrupted files are pending again.
    Prepared,
    /// The server was crawled, or the session was verified in place of that.
    Discovered,
    /// The download phase is over.
    Downloaded,
}

/// What comes next in a sync.
#[derive(Debug, Clone, Copy, PartialEq, Eq, Structural)]
pub enum SyncAction {
    /// Crawl the server.
    Crawl,
    /// Verify that the session is cleared.
    VerifySession,
    /// Download pending files.
    Download,
    /// Show the status.
    ShowStatus,
    /// Stop: the user cancelled before the crawl.
    StopBeforeCrawl,
    /// Stop: the user cancelled before the download.
    StopBeforeDownload,
    /// Stop: the user cancelled the download.
    StopAfterDownload,
}

/// What comes next, given whether the sync resumes without a crawl and whether the user
/// cancelled.
pub open spec fn action_after(stage: Stage, resume: bool, cancelled: bool) -> SyncAction {
    match stage {
        Stage::Prepared => if resume {
            SyncAction::VerifySession
        } else if cancelled {
            SyncAction::StopBeforeCrawl
        } else {
            SyncAction::Crawl
        },
        Stage::Discovered => if cancelled {
            SyncAction::StopBeforeDownload
        } else {
            SyncAction::Download
        },
        Stage::Downloaded => if cancelled {
            SyncAction::StopAfterDownload
        } else {
            SyncAction::ShowStatus
        },
    }
}

/// What comes next in a sync.
pub fn next_action(stage: Stage, resume: bool, cancelled: bool) -> (r: SyncAction)
    ensures
        r == action_after(stage, resume, cancelled),
{
    match stage {
        Stage::Prepared => if resume {
            SyncAction::VerifySession
        } else if cancelled {
            SyncAction::StopBeforeCrawl
        } else {
            SyncAction::Crawl
        },
        Stage::Discovered => if cancelled {
            SyncAction::StopBeforeDownload
        } else {
            SyncAction::Download
        },
        Stage::Downloaded => if cancelled {
            SyncAction::StopAfterDownload
        } else {
            SyncAction::ShowStatus
        },
    }
}

/// A resumed sync never crawls, and nothing is downloaded after the user cancelled.
pub proof fn law_resume_skips_the_crawl(stage: Stage, resume: bool, cancelled: bool)
    ensures
        resume ==> action_after(stage, resume, cancelled) != SyncAction::Crawl,
        cancelled ==> action_after(stage, resume, cancelled) != SyncAction::Crawl && action_after(
            stage,
            resume,
            cancelled,
        ) != SyncAction::Download,
        !cancelled && !resume ==> action_after(Stage::Prepared, resume, cancelled)
            == SyncAction::Crawl,
        !cancelled ==> action_after(Stage::Discovered, resume, cancelled) == SyncAction::Download,
{
}

// ---------------------------------------------------------------------------
// Reports
// ---------------------------------------------------------------------------

/// The lines of the status report for the tallies.
pub open spec fn tally_lines(tallies: Seq<(Seq<char>, i64)>) -> Seq<char>
    decreases tallies.len(),
{
    if tallies.len() == 0 {
        Seq::empty()
    } else {
        tally_lines(tallies.drop_last()) + tally_line(tallies.last())
    }
}

/// The line of the status report for a tally.
pub open spec fn tally_line(tally: (Seq<char>, i64)) -> Seq<char> {
    "  "@ + padded(tally.0, 12) + " "@ + signed_decimal(tally.1 as int) + "\n"@
}

/// The status report: a line for each status, and one for the bytes that are awaited.
pub open spec fn status_report_of(tallies: Seq<(Seq<char>, i64)>, pending_bytes: i64) -> Seq<char> {
    "\n─── elscione-sync status ───────────────────\n"@ + tally_lines(tallies) + (
    if pending_bytes > 0 {
        "  "@ + padded("pending size"@, 12) + " "@ + byte_size(pending_bytes as u64) + "\n"@
    } else {
        Seq::empty()
    }) + "────────────────────────────────────────────\n\n"@
}

/// The status report.
pub fn status_report(tallies: &Vec<(String, i64)>, pending_bytes: i64) -> (r: String)
    ensures
        r@ == status_report_of(tally_views(tallies@), pending_bytes),
{
    let ghost all: Seq<(Seq<char>, i64)> = tally_views(tallies@);
    let ghost head: Seq<char> = "\n─── elscione-sync status ───────────────────\n"@;
    let mut text: String = "\n─── elscione-sync status ───────────────────\n".to_owned();
    let mut i: usize = 0;
    assert(text@ =~= head + tally_lines(all.take(0)));
    while i < tallies.len()
        invariant
            i <= tallies@.len(),
            all == tally_views(tallies@),
            text@ == head + tally_lines(all.take(i as int)),
        decreases tallies.len() - i,
    {
        let ghost before: Seq<char> = text@;
        proof {
            assert(all[i as int] == (tallies@[i as int].0@, tallies@[i as int].1));
            assert(all.take(i + 1).drop_last() =~= all.take(i as int));
            assert(all.take(i + 1).last() == all[i as int]);
        }
        text.append("  ");
        push_padded(&mut text, tallies[i].0.as_str(), 12);
        text.append(" ");
        text.append(signed_decimal_text(tallies[i].1).as_str());
        text.append("\n");
        proof {
            assert(text@ =~= before + tally_line(all[i as int]));
            assert(text@ =~= head + tally_lines(all.take(i + 1)));
        }
        i += 1;
    }
    assert(all.take(i as int) =~= all);
    if pending_bytes > 0 {
        text.append("  ");
        push_padded(&mut text, "pending size", 12);
        text.append(" ");
        text.append(byte_size_text(pending_bytes as u64).as_str());
        text.append("\n");
        assert(text@ =~= head + tally_lines(all) + ("  "@ + padded("pending size"@, 12) + " "@
            + byte_size(pending_bytes as u64) + "\n"@));
    } else {
        assert(text@ =~= head + tally_lines(all) + Seq::<char>::empty());
    }
    text.append("────────────────────────────────────────────\n\n");
    text
}

/// The message after a reset.
pub fn reset_report(count: usize) -> (r: String)
    ensures
        r@ == "Reset "@ + decimal(count as nat) + " file(s) to 'pending'.\n"@,
{
    let mut text: String = "Reset ".to_owned();
    push_decimal(&mut text, count as u64);
    text.append(" file(s) to 'pending'.\n");
    text
}

/// The line of a listing for a file.
pub open spec fn file_line(file: RecordView) -> Seq<char> {
    padded(signed_decimal(file.id as int), 10) + " "@ + padded(status_text(file.status), 12) + " "@
        + padded(
        match file.size_bytes {
            Some(size) => byte_size(as_unsigned(size)),
            None => "—"@,
        },
        10,
    ) + " "@ + file.remote_path + "\n"@
}

/// The lines of a listing.
pub open spec fn file_lines(files: Seq<RecordView>) -> Seq<char>
    decreases files.len(),
{
    if files.len() == 0 {
        Seq::empty()
    } else {
        file_lines(files.drop_last()) + file_line(files.last())
    }
}

/// A listing with its head and the number of files.
pub open spec fn list_report_of(files: Seq<RecordView>) -> Seq<char> {
    padded("ID"@, 10) + " "@ + padded("STATUS"@, 12) + " "@ + padded("SIZE"@, 10) + " PATH\n"@
        + file_lines(files) + "("@ + decimal(files.len()) + " result(s))\n"@
}

/// A listing of files.
pub fn list_report(files: &Vec<FileRecord>) -> (r: String)
    ensures
        r@ == list_report_of(record_views(files@)),
{
    let ghost all: Seq<RecordView> = record_views(files@);
    let ghost head: Seq<char> = padded("ID"@, 10) + " "@ + padded("STATUS"@, 12) + " "@ + padded(
        "SIZE"@,
        10,
    ) + " PATH\n"@;
    let mut text: String = String::new();
    push_padded(&mut text, "ID", 10);
    text.append(" ");
    push_padded(&mut text, "STATUS", 12);
    text.append(" ");
    push_padded(&mut text, "SIZE", 10);
    text.append(" PATH\n");
    let mut i: usize = 0;
    assert(text@ =~= head + file_lines(all.take(0)));
    while i < files.len()
        invariant
            i <= files@.len(),
            all == record_views(files@),
            text@ == head + file_lines(all.take(i as int)),
        decreases files.len() - i,
    {
        let ghost before: Seq<char> = text@;
        proof {
            assert(all[i as int] == files@[i as int]@);
            assert(all.take(i + 1).drop_last() =~= all.take(i as int));
            assert(all.take(i + 1).last() == all[i as int]);
        }
        let file: &FileRecord = &files[i];
        let size: String = match file.size_bytes {
            Some(size) => byte_size_text(to_unsigned(size)),
            None => "—".to_owned(),
        };
        push_padded(&mut text, signed_decimal_text(file.id).as_str(), 10);
        text.append(" ");
        push_padded(&mut text, file.status.as_str(), 12);
        text.append(" ");
        push_padded(&mut text, size.as_str(), 10);
        text.append(" ");
        text.append(file.remote_path.as_str());
        text.append("\n");
        proof {
            assert(text@ =~= before + file_line(all[i as int]));
            assert(text@ =~= head + file_lines(all.take(i + 1)));
        }
        i += 1;
    }
    assert(all.take(i as int) =~= all);
    text.append("(");
    push_decimal(&mut text, files.len() as u64);
    text.append(" result(s))\n");
    text
}

/// After the user cancelled a sync stops where it stands, and says so; else it goes on to the end
/// and shows the status.
pub proof fn law_cancelled_syncs_stop(resume: bool)
    ensures
        action_after(Stage::Prepared, false, true) == SyncAction::StopBeforeCrawl,
        action_after(Stage::Discovered, resume, true) == SyncAction::StopBeforeDownload,
        action_after(Stage::Downloaded, resume, true) == SyncAction::StopAfterDownload,
        action_after(Stage::Downloaded, resume, false) == SyncAction::ShowStatus,
        action_after(Stage::Prepared, true, false) == SyncAction::VerifySession,
{
}

/// Folders that are given are synced, and they alone; without any every folder is that is enabled
/// in the saved selection, and no other.
pub proof fn law_given_folders_replace_the_selection(
    given: Seq<Seq<char>>,
    saved: Seq<FolderView>,
    path: Seq<char>,
)
    ensures
        given.len() > 0 ==> sync_folders(given, saved) == given,
        given.len() == 0 ==> (sync_folders(given, saved).contains(path) <==> exists|i: int|
            0 <= i < saved.len() && (#[trigger] saved[i]).path == path && saved[i].enabled),
{
    law_enabled_folders_are_found(saved, path);
}

/// A report has a line for each thing reported, in their order.
pub proof fn law_reports_have_a_line_each(
    tallies: Seq<(Seq<char>, i64)>,
    more: Seq<(Seq<char>, i64)>,
    files: Seq<RecordView>,
    others: Seq<RecordView>,
)
    ensures
        tally_lines(tallies + more) == tally_lines(tallies) + tally_lines(more),
        file_lines(files + others) == file_lines(files) + file_lines(others),
    decreases more.len() + others.len(),
{
    if more.len() > 0 {
        assert((tallies + more).drop_last() =~= tallies + more.drop_last());
        law_reports_have_a_line_each(tallies, more.drop_last(), files, others);
        assert(tally_lines(tallies + more) =~= tally_lines(tallies) + tally_lines(more));
    } else {
        assert(tallies + more =~= tallies);
        assert(tally_lines(tallies) + tally_lines(more) =~= tally_lines(tallies));
    }
    if others.len() > 0 {
        assert((files + others).drop_last() =~= files + others.drop_last());
        law_reports_have_a_line_each(tallies, more, files, others.drop_last());
        assert(file_lines(files + others) =~= file_lines(files) + file_lines(others));
    } else {
        assert(files + others =~= files);
        assert(file_lines(files) + file_lines(others) =~= file_lines(files));
    }
}

/// The bytes that are awaited have a line of their own, between the tallies and the end of the
/// report, if there are any.
pub proof fn law_awaited_bytes_are_shown(tallies: Seq<(Seq<char>, i64)>, bytes: i64, none: i64)
    requires
        bytes > 0,
        none <= 0,
    ensures
        exists|head: Seq<char>, foot: Seq<char>|
            {
                &&& status_report_of(tallies, none) == #[trigger] (head + foot)
                &&& status_report_of(tallies, bytes) == head + ("  "@ + padded("pending size"@, 12)
                    + " "@ + byte_size(bytes as u64) + "\n"@) + foot
            },
{
    let head = "\n─── elscione-sync status ───────────────────\n"@ + tally_lines(tallies);
    let foot = "────────────────────────────────────────────\n\n"@;
    assert(status_report_of(tallies, none) =~= head + foot);
}

/// The line of a file ends with its path as it is, whatever stands before; the line of a status
/// begins with the status and ends with its number.
pub proof fn law_lines_show_what_they_report(
    file: RecordView,
    path: Seq<char>,
    status: Seq<char>,
    n: i64,
    m: i64,
)
    ensures
        exists|head: Seq<char>|
            {
                &&& file_line(file) == #[trigger] (head + (file.remote_path + "\n"@))
                &&& file_line(RecordView { remote_path: path, ..file }) == head + (path + "\n"@)
                &&& head.len() >= 10 + 1 + 12 + 1 + 10 + 1
            },
        exists|head: Seq<char>|
            {
                &&& tally_line((status, n)) == #[trigger] (head + (signed_decimal(n as int) + "\n"@))
                &&& tally_line((status, m)) == head + (signed_decimal(m as int) + "\n"@)
                &&& head.len() >= 2 + 12 + 1
                &&& head.subrange(2, (2 + status.len()) as int) == status
            },
{
    reveal_strlit(" ");
    reveal_strlit("  ");
    let size = match file.size_bytes {
        Some(size) => byte_size(as_unsigned(size)),
        None => "—"@,
    };
    let id = padded(signed_decimal(file.id as int), 10);
    let shown = padded(status_text(file.status), 12);
    let head = id + " "@ + shown + " "@ + padded(size, 10) + " "@;
    assert(file_line(file) =~= head + (file.remote_path + "\n"@));
    assert(file_line(RecordView { remote_path: path, ..file }) =~= head + (path + "\n"@));
    let start = "  "@ + padded(status, 12) + " "@;
    law_padding_adds_spaces_behind(status, 12);
    assert(start.subrange(2, (2 + status.len()) as int) =~= padded(status, 12).take(
        status.len() as int,
    ));
    assert(tally_line((status, n)) =~= start + (signed_decimal(n as int) + "\n"@));
    assert(tally_line((status, m)) =~= start + (signed_decimal(m as int) + "\n"@));
}

} // verus!
