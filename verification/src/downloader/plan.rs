//! Which files are downloaded, and what is there of them already.
use vstd::prelude::*;

use crate::crawler::filter::{extension_wanted, wants_extension};
use crate::db::models::{
    count_with, lemma_status_texts, pending_count, record_of, record_views, records_of,
    set_file_status, status_of, with_new_status, with_status, DbError, FileRecord, FileStatus,
    RecordView,
};
use crate::db::tables::{file_views, files_ok, tables_ok, Database, DbView, FileRow, FileView};
use crate::order::first_of;
use crate::paths::{join, joined, law_joining_paths};
use crate::text::{
    begins_with, law_trimming_takes_one_character, same_text, texts, trim_start_matches,
    trim_start_of,
};

verus! {

/// The number of files that are taken from the tables at once.
pub const DOWNLOAD_BATCH_SIZE: usize = 128;

// ---------------------------------------------------------------------------
// The queue
// ---------------------------------------------------------------------------

/// A file that was left out.
pub open spec fn skipped(file: FileView) -> FileView {
    FileView { status: "skipped"@, error_message: None, checksum_sha256: None, ..file }
}

/// Whether a pending file is not wanted, by its extension.
pub open spec fn is_unwanted(file: FileView, allowed: Seq<Seq<char>>) -> bool {
    file.status == "pending"@ && !extension_wanted(file.remote_url, allowed)
}

/// A file after unwanted ones were left out.
pub open spec fn screened(file: FileView, allowed: Seq<Seq<char>>) -> FileView {
    if is_unwanted(file, allowed) {
        skipped(file)
    } else {
        file
    }
}

/// Marks a row as skipped.
fn skip_row(files: &mut Vec<FileRow>, i: usize)
    requires
        i < old(files)@.len(),
    ensures
        file_views(final(files)@) == file_views(old(files)@).update(
            i as int,
            skipped(file_views(old(files)@)[i as int]),
        ),
        final(files)@.len() == old(files)@.len(),
{
    let ghost before: Seq<FileView> = file_views(files@);
    files[i].status = "skipped".to_owned();
    files[i].error_message = None;
    files[i].checksum_sha256 = None;
    assert(file_views(files@) =~= before.update(i as int, skipped(before[i as int])));
}

/// Leaves out pending files whose extension is not wanted, as when extensions were configured
/// after the files were discovered.
pub fn skip_unwanted(db: &mut Database, allowed_extensions: &Vec<String>)
    requires
        tables_ok(old(db)@),
    ensures
        tables_ok(final(db)@),
        final(db)@ == (DbView {
            files: old(db)@.files.map_values(
                |f: FileView| screened(f, texts(allowed_extensions@)),
            ),
            ..old(db)@
        }),
{
    let ghost before: DbView = db@;
    let ghost allowed: Seq<Seq<char>> = texts(allowed_extensions@);
    let ghost f = |f: FileView| screened(f, allowed);
    let mut i: usize = 0;
    while i < db.files.len()
        invariant
            i <= db.files@.len(),
            db.files@.len() == before.files.len(),
            tables_ok(before),
            before == old(db)@,
            allowed == texts(allowed_extensions@),
            db@ == (DbView { files: db@.files, ..before }),
            f == (|f: FileView| screened(f, allowed)),
            forall|k: int| 0 <= k < i ==> (#[trigger] db@.files[k]) == f(before.files[k]),
            forall|k: int|
                i <= k < db.files@.len() ==> (#[trigger] db@.files[k]) == before.files[k],
        decreases db.files.len() - i,
    {
        let ghost current: Seq<FileView> = db@.files;
        assert(current[i as int] == db.files@[i as int]@);
        if same_text(db.files[i].status.as_str(), "pending") && !wants_extension(
            db.files[i].remote_url.as_str(),
            allowed_extensions,
        ) {
            skip_row(&mut db.files, i);
        }
        i += 1;
    }
    assert(db@.files =~= before.files.map_values(f));
}

/// Whether the file at position `i` belongs to the next batch: it is pending, and fewer than a
/// batch of files before it are.
pub open spec fn in_batch(files: Seq<FileView>, i: int) -> bool {
    files[i].status == "pending"@ && count_with(files.take(i), "pending"@) < DOWNLOAD_BATCH_SIZE
}

/// The files after a batch was taken: those of the batch that are not wanted were left out.
pub open spec fn batch_taken(files: Seq<FileView>, allowed: Seq<Seq<char>>) -> Seq<FileView> {
    Seq::new(
        files.len(),
        |i: int|
            if in_batch(files, i) && !extension_wanted(files[i].remote_url, allowed) {
                skipped(files[i])
            } else {
                files[i]
            },
    )
}

/// The wanted files of the next batch.
pub open spec fn batch_of(files: Seq<FileView>, allowed: Seq<Seq<char>>) -> Seq<FileView> {
    first_of(with_status(files, "pending"@), DOWNLOAD_BATCH_SIZE as nat).filter(
        |f: FileView| extension_wanted(f.remote_url, allowed),
    )
}

/// What comes next.
#[derive(Debug)]
pub enum Batch {
    /// These files are downloaded.
    Files { files: Vec<FileRecord> },
    /// The whole batch was left out, and more files are pending.
    Again,
    /// No file is pending.
    Finished,
}

/// Takes the next batch of pending files; unwanted ones among them are left out.
pub fn next_batch(db: &mut Database, allowed_extensions: &Vec<String>) -> (r: Batch)
    requires
        tables_ok(old(db)@),
    ensures
        tables_ok(final(db)@),
        final(db)@ == (DbView {
            files: batch_taken(old(db)@.files, texts(allowed_extensions@)),
            ..old(db)@
        }),
        match r {
            Batch::Files { files } => batch_of(old(db)@.files, texts(allowed_extensions@)).len() > 0
                && records_of(batch_of(old(db)@.files, texts(allowed_extensions@))) == Some(
                record_views(files@),
            ),
            Batch::Again => batch_of(old(db)@.files, texts(allowed_extensions@)).len() == 0
                && count_with(final(db)@.files, "pending"@) > 0,
            Batch::Finished => batch_of(old(db)@.files, texts(allowed_extensions@)).len() == 0
                && count_with(final(db)@.files, "pending"@) == 0,
        },
{
    let ghost before: DbView = db@;
    let ghost files: Seq<FileView> = before.files;
    let ghost allowed: Seq<Seq<char>> = texts(allowed_extensions@);
    let ghost wanted = |f: FileView| extension_wanted(f.remote_url, allowed);
    let ghost pending = |f: FileView| f.status == "pending"@;
    let ghost limit: nat = DOWNLOAD_BATCH_SIZE as nat;
    let mut picked: Vec<FileRecord> = Vec::new();
    let ghost mut kept: Seq<FileView> = Seq::empty();
    let mut seen: usize = 0;
    let mut i: usize = 0;
    proof {
        lemma_status_texts();
        reveal(Seq::filter);
        assert(files.take(0).filter(pending) =~= Seq::<FileView>::empty());
        assert(Seq::<FileView>::empty().filter(wanted) =~= Seq::<FileView>::empty());
    }
    while i < db.files.len()
        invariant
            i <= db.files@.len(),
            db.files@.len() == files.len(),
            tables_ok(before),
            before == old(db)@,
            files == before.files,
            allowed == texts(allowed_extensions@),
            limit == DOWNLOAD_BATCH_SIZE,
            wanted == (|f: FileView| extension_wanted(f.remote_url, allowed)),
            pending == (|f: FileView| f.status == "pending"@),
            db@ == (DbView { files: db@.files, ..before }),
            seen == first_of(with_status(files.take(i as int), "pending"@), limit).len(),
            seen <= DOWNLOAD_BATCH_SIZE,
            kept == first_of(with_status(files.take(i as int), "pending"@), limit).filter(wanted),
            picked@.len() == kept.len(),
            forall|k: int|
                0 <= k < kept.len() ==> Some((#[trigger] picked@[k])@) == record_of(kept[k]),
            forall|k: int|
                0 <= k < i ==> (#[trigger] db@.files[k]) == batch_taken(files, allowed)[k],
            forall|k: int| i <= k < db.files@.len() ==> (#[trigger] db@.files[k]) == files[k],
        decreases db.files.len() - i,
    {
        let ghost current: Seq<FileView> = db@.files;
        let ghost row: FileView = files[i as int];
        let ghost shorter: Seq<FileView> = with_status(files.take(i as int), "pending"@);
        let ghost longer: Seq<FileView> = with_status(files.take(i + 1), "pending"@);
        proof {
            assert(current[i as int] == db.files@[i as int]@);
            assert(files.take(i + 1) =~= files.take(i as int).push(row));
            files.take(i as int).lemma_filter_push(row, pending);
        }
        if same_text(db.files[i].status.as_str(), "pending") && seen < DOWNLOAD_BATCH_SIZE {
            proof {
                assert(longer == shorter.push(row));
                assert(first_of(shorter, limit) == shorter);
                assert(first_of(longer, limit) =~= shorter.push(row));
                shorter.lemma_filter_push(row, wanted);
                assert(in_batch(files, i as int));
            }
            seen += 1;
            if wants_extension(db.files[i].remote_url.as_str(), allowed_extensions) {
                match FileRecord::from_row(&db.files[i]) {
                    Ok(record) => {
                        picked.push(record);
                        proof {
                            kept = kept.push(row);
                        }
                    },
                    Err(_) => {
                        assert(status_of("pending"@) == Some(FileStatus::Pending));
                        assert(false);
                    },
                }
            } else {
                skip_row(&mut db.files, i);
            }
        } else {
            assert(first_of(longer, limit) =~= first_of(shorter, limit));
            assert(!in_batch(files, i as int));
        }
        i += 1;
    }
    proof {
        assert(files.take(i as int) =~= files);
        assert(db@.files =~= batch_taken(files, allowed));
        assert forall|k: int| 0 <= k < kept.len() implies status_of((#[trigger] kept[k]).status)
            is Some by {
            assert(record_of(kept[k]) == Some(picked@[k]@));
        }
        assert(record_views(picked@) =~= kept.map_values(|f: FileView| record_of(f)->0));
        lemma_batch_keeps_tables(before, allowed);
    }
    if picked.len() > 0 {
        Batch::Files { files: picked }
    } else if pending_count(db) == 0 {
        Batch::Finished
    } else {
        Batch::Again
    }
}

/// Taking a batch changes neither ids nor URLs.
proof fn lemma_batch_keeps_tables(db: DbView, allowed: Seq<Seq<char>>)
    requires
        tables_ok(db),
    ensures
        tables_ok(DbView { files: batch_taken(db.files, allowed), ..db }),
{
}

// ---------------------------------------------------------------------------
// Local copies
// ---------------------------------------------------------------------------

/// The path of a file's local copy: its server path below the output directory.
pub open spec fn local_path(output_dir: Seq<char>, remote_path: Seq<char>) -> Seq<char> {
    joined(output_dir, trim_start_of(remote_path, '/'))
}

/// The path of a file's local copy.
pub fn dest_path(output_dir: &str, remote_path: &str) -> (r: String)
    ensures
        r@ == local_path(output_dir@, remote_path@),
{
    join(output_dir, trim_start_matches(remote_path, '/').as_str())
}

/// A signed number as an unsigned one with the same bits.
pub open spec fn as_unsigned(n: i64) -> u64 {
    if n >= 0 {
        n as u64
    } else {
        (0x1_0000_0000_0000_0000 + n) as u64
    }
}

/// An unsigned number as a signed one with the same bits.
pub open spec fn as_signed(n: u64) -> i64 {
    if n <= i64::MAX {
        n as i64
    } else {
        (n - 0x1_0000_0000_0000_0000) as i64
    }
}

/// A signed number as an unsigned one with the same bits.
pub fn to_unsigned(n: i64) -> (r: u64)
    ensures
        r == as_unsigned(n),
{
    if n >= 0 {
        n as u64
    } else {
        u64::MAX - ((-(n + 1)) as u64)
    }
}

/// An unsigned number as a signed one with the same bits.
pub fn to_signed(n: u64) -> (r: i64)
    ensures
        r == as_signed(n),
{
    if n <= i64::MAX as u64 {
        n as i64
    } else {
        -1 - ((u64::MAX - n) as i64)
    }
}

/// The bytes that are still missing of a file, of which a part file holds `part` bytes; none of
/// a file of unknown size.
pub open spec fn missing_bytes(size_bytes: Option<i64>, part: u64) -> nat {
    let expected = match size_bytes {
        Some(size) => as_unsigned(size),
        None => 0,
    };
    if part >= expected {
        0
    } else {
        (expected - part) as nat
    }
}

/// The bytes that are still missing of some files.
pub open spec fn missing_total(files: Seq<RecordView>, parts: Seq<u64>) -> nat
    decreases files.len(),
{
    if files.len() == 0 {
        0
    } else {
        missing_total(files.drop_last(), parts) + missing_bytes(
            files.last().size_bytes,
            parts[files.len() - 1],
        )
    }
}

/// The bytes that are still missing of the files of a batch, of which part files hold `parts`
/// bytes; `None` if that is too large a number.
pub fn remaining_bytes(files: &Vec<FileRecord>, parts: &Vec<u64>) -> (r: Option<u64>)
    requires
        parts@.len() == files@.len(),
    ensures
        match r {
            Some(total) => total == missing_total(record_views(files@), parts@),
            None => missing_total(record_views(files@), parts@) > u64::MAX,
        },
{
    let ghost all: Seq<RecordView> = record_views(files@);
    let mut total: u64 = 0;
    let mut i: usize = 0;
    while i < files.len()
        invariant
            i <= files@.len(),
            parts@.len() == files@.len(),
            all == record_views(files@),
            total == missing_total(all.take(i as int), parts@),
        decreases files.len() - i,
    {
        proof {
            assert(all[i as int] == files@[i as int]@);
            assert(all.take(i + 1).drop_last() =~= all.take(i as int));
            assert(all.take(i + 1).last() == all[i as int]);
        }
        let expected: u64 = match files[i].size_bytes {
            Some(size) => to_unsigned(size),
            None => 0,
        };
        let missing: u64 = if parts[i] >= expected {
            0
        } else {
            expected - parts[i]
        };
        if missing > u64::MAX - total {
            proof {
                lemma_missing_grows(all, parts@, i + 1);
            }
            return None;
        }
        total = total + missing;
        i += 1;
    }
    assert(all.take(i as int) =~= all);
    Some(total)
}

/// More files do not miss fewer bytes.
proof fn lemma_missing_grows(files: Seq<RecordView>, parts: Seq<u64>, n: int)
    requires
        0 <= n <= files.len(),
    ensures
        missing_total(files.take(n), parts) <= missing_total(files, parts),
    decreases files.len() - n,
{
    if n == files.len() {
        assert(files.take(n) =~= files);
    } else {
        assert(files.take(n + 1).drop_last() =~= files.take(n));
        lemma_missing_grows(files, parts, n + 1);
    }
}

/// What an existing local copy means for a download.
#[derive(Debug, Clone, Copy, PartialEq, Eq, Structural)]
pub enum LocalCopy {
    /// The file is downloaded.
    Download,
    /// The copy has the expected size and counts as complete.
    Complete,
    /// The copy has another size and is left as it is.
    Mismatch,
}

/// Whether a file is downloaded, given the length of its local copy.  Without a copy, or
/// without an expected size, it is.
pub open spec fn copy_verdict(
    size_bytes: Option<i64>,
    local_len: Option<u64>,
    redownload_on_size_mismatch: bool,
) -> LocalCopy {
    match (size_bytes, local_len) {
        (Some(expected), Some(len)) => if as_signed(len) == expected {
            LocalCopy::Complete
        } else if !redownload_on_size_mismatch {
            LocalCopy::Mismatch
        } else {
            LocalCopy::Download
        },
        _ => LocalCopy::Download,
    }
}

/// Decides on an existing local copy.
pub fn judge_local_copy(
    size_bytes: Option<i64>,
    local_len: Option<u64>,
    redownload_on_size_mismatch: bool,
) -> (r: LocalCopy)
    ensures
        r == copy_verdict(size_bytes, local_len, redownload_on_size_mismatch),
{
    match (size_bytes, local_len) {
        (Some(expected), Some(len)) => if to_signed(len) == expected {
            LocalCopy::Complete
        } else if !redownload_on_size_mismatch {
            LocalCopy::Mismatch
        } else {
            LocalCopy::Download
        },
        _ => LocalCopy::Download,
    }
}

/// A file after a start was made on the one with the id `id`; a finished file stays as it is.
pub open spec fn start_of(file: FileView, id: i64, dry_run: bool, now: Seq<char>) -> FileView {
    with_new_status(
        file,
        id,
        if dry_run {
            "skipped"@
        } else {
            "downloading"@
        },
        None,
        None,
        now,
    )
}

/// Starts on a file of the batch: it counts as being downloaded, or in a dry run as skipped.
/// The result is whether it is downloaded.
pub fn start_file(db: &mut Database, id: i64, dry_run: bool, now: &str) -> (r: bool)
    requires
        tables_ok(old(db)@),
    ensures
        tables_ok(final(db)@),
        r == !dry_run,
        final(db)@ == (DbView {
            files: old(db)@.files.map_values(|f: FileView| start_of(f, id, dry_run, now@)),
            ..old(db)@
        }),
{
    proof {
        lemma_status_texts();
    }
    let status: &str = if dry_run {
        "skipped"
    } else {
        "downloading"
    };
    let outcome: Result<(), DbError> = set_file_status(db, id, status, None, None, now);
    assert(outcome is Ok);
    !dry_run
}

// ---------------------------------------------------------------------------
// Laws
// ---------------------------------------------------------------------------

/// The path of a local copy begins with the output directory: a server path never replaces it.
pub proof fn law_server_paths_keep_the_output(output_dir: Seq<char>, remote_path: Seq<char>)
    ensures
        begins_with(local_path(output_dir, remote_path), output_dir),
{
    let rel = trim_start_of(remote_path, '/');
    crate::text::lemma_run_end(remote_path, 0, crate::text::is_char('/'));
    assert(rel.len() > 0 ==> rel[0] != '/');
    let path = local_path(output_dir, remote_path);
    assert(path.take(output_dir.len() as int) =~= output_dir);
}

/// Files that are not wanted are never downloaded: after unwanted ones were left out no pending
/// file is unwanted, and leaving them out again changes nothing.
pub proof fn law_screening_settles(file: FileView, allowed: Seq<Seq<char>>)
    ensures
        !is_unwanted(screened(file, allowed), allowed),
        screened(screened(file, allowed), allowed) == screened(file, allowed),
        file.status != "pending"@ ==> screened(file, allowed) == file,
{
    lemma_status_texts();
}

/// A batch holds only pending files that are wanted, no more than fit.
pub proof fn law_batches_are_wanted(files: Seq<FileView>, allowed: Seq<Seq<char>>, i: int)
    requires
        0 <= i < batch_of(files, allowed).len(),
    ensures
        batch_of(files, allowed)[i].status == "pending"@,
        extension_wanted(batch_of(files, allowed)[i].remote_url, allowed),
        files.contains(batch_of(files, allowed)[i]),
        batch_of(files, allowed).len() <= DOWNLOAD_BATCH_SIZE,
{
    let pending = |f: FileView| f.status == "pending"@;
    let wanted = |f: FileView| extension_wanted(f.remote_url, allowed);
    let all = with_status(files, "pending"@);
    let first = first_of(all, DOWNLOAD_BATCH_SIZE as nat);
    first.lemma_filter_len(wanted);
    first.lemma_filter_pred(wanted, i);
    let f = batch_of(files, allowed)[i];
    assert(first.filter(wanted).contains(f));
    first.lemma_filter_contains_rev(wanted, f);
    let k = choose|k: int| 0 <= k < first.len() && first[k] == f;
    assert(all[k] == f);
    files.lemma_filter_pred(pending, k);
    assert(all.contains(f));
    files.lemma_filter_contains_rev(pending, f);
}

/// The files after a start was made on those with the ids `ids`, one after the other.
pub open spec fn started(files: Seq<FileView>, ids: Seq<i64>, dry_run: bool, now: Seq<char>) -> Seq<
    FileView,
>
    decreases ids.len(),
{
    if ids.len() == 0 {
        files
    } else {
        started(files, ids.drop_last(), dry_run, now).map_values(
            |f: FileView| start_of(f, ids.last(), dry_run, now),
        )
    }
}

/// The ids of files.
pub open spec fn ids_of(files: Seq<FileView>) -> Seq<i64> {
    files.map_values(|f: FileView| f.id)
}

/// The files after one round of a dry run: a batch is taken, and a start is made on each of its
/// files.
pub open spec fn dry_round(files: Seq<FileView>, allowed: Seq<Seq<char>>, now: Seq<char>) -> Seq<
    FileView,
> {
    started(batch_taken(files, allowed), ids_of(batch_of(files, allowed)), true, now)
}

/// The files after some rounds of a dry run.
pub open spec fn dry_rounds(
    files: Seq<FileView>,
    allowed: Seq<Seq<char>>,
    now: Seq<char>,
    rounds: nat,
) -> Seq<FileView>
    decreases rounds,
{
    if rounds == 0 {
        files
    } else {
        dry_rounds(dry_round(files, allowed, now), allowed, now, (rounds - 1) as nat)
    }
}

/// A dry run skips every pending file and starts no download: after as many rounds as there are
/// pending files, or more, those are skipped and all others are as before.
pub proof fn law_dry_run_skips_everything(
    files: Seq<FileView>,
    allowed: Seq<Seq<char>>,
    now: Seq<char>,
    rounds: nat,
)
    requires
        files_ok(files),
        rounds >= count_with(files, "pending"@),
    ensures
        dry_rounds(files, allowed, now, rounds) == files.map_values(
            |f: FileView|
                if f.status == "pending"@ {
                    skipped(f)
                } else {
                    f
                },
        ),
        count_with(dry_rounds(files, allowed, now, rounds), "pending"@) == 0,
    decreases rounds,
{
    lemma_status_texts();
    let after = files.map_values(
        |f: FileView|
            if f.status == "pending"@ {
                skipped(f)
            } else {
                f
            },
    );
    if rounds == 0 {
        lemma_none_pending(files);
        assert(after =~= files);
    } else {
        let next = dry_round(files, allowed, now);
        lemma_dry_round(files, allowed, now);
        assert(files_ok(next));
        lemma_fewer_pending(files, next);
        if count_with(files, "pending"@) > 0 {
            let i = lemma_batch_is_not_empty(files);
            assert(files[i].status == "pending"@ && next[i].status != "pending"@);
        }
        law_dry_run_skips_everything(next, allowed, now, (rounds - 1) as nat);
        assert(next.map_values(
            |f: FileView|
                if f.status == "pending"@ {
                    skipped(f)
                } else {
                    f
                },
        ) =~= after);
    }
}

/// Without pending files no file is pending.
proof fn lemma_none_pending(files: Seq<FileView>)
    ensures
        count_with(files, "pending"@) == 0 <==> forall|i: int|
            0 <= i < files.len() ==> (#[trigger] files[i]).status != "pending"@,
{
    let p = |f: FileView| f.status == "pending"@;
    if count_with(files, "pending"@) == 0 {
        assert forall|i: int| 0 <= i < files.len() implies (#[trigger] files[i]).status
            != "pending"@ by {
            if files[i].status == "pending"@ {
                files.lemma_filter_contains(p, i);
            }
        }
    } else {
        let f = files.filter(p)[0];
        files.lemma_filter_pred(p, 0);
        files.lemma_filter_contains_rev(p, f);
        let i = choose|i: int| 0 <= i < files.len() && files[i] == f;
        assert(files[i].status == "pending"@);
    }
}

/// What one round of a dry run does: every file of the batch is skipped.
proof fn lemma_dry_round(
    files: Seq<FileView>,
    allowed: Seq<Seq<char>>,
    now: Seq<char>,
)
    requires
        files_ok(files),
    ensures
        dry_round(files, allowed, now).len() == files.len(),
        forall|i: int|
            0 <= i < files.len() ==> (#[trigger] dry_round(files, allowed, now)[i]) == (if in_batch(
                files,
                i,
            ) {
                skipped(files[i])
            } else {
                files[i]
            }),
{
    lemma_status_texts();
    let taken = batch_taken(files, allowed);
    let batch = batch_of(files, allowed);
    let ids = ids_of(batch);
    lemma_started(taken, ids, now);
    assert forall|i: int| 0 <= i < files.len() implies (#[trigger] dry_round(files, allowed, now)[i])
        == (if in_batch(files, i) {
        skipped(files[i])
    } else {
        files[i]
    }) by {
        lemma_batch_members(files, allowed, i);
        assert(taken[i].id == files[i].id);
    }
}

/// The batch of some files, from that of all but the last.
proof fn lemma_batch_step(files: Seq<FileView>, allowed: Seq<Seq<char>>)
    requires
        files.len() > 0,
    ensures
        batch_of(files, allowed) == (if in_batch(files, files.len() - 1) && extension_wanted(
            files.last().remote_url,
            allowed,
        ) {
            batch_of(files.drop_last(), allowed).push(files.last())
        } else {
            batch_of(files.drop_last(), allowed)
        }),
{
    let wanted = |f: FileView| extension_wanted(f.remote_url, allowed);
    let pending = |f: FileView| f.status == "pending"@;
    let limit = DOWNLOAD_BATCH_SIZE as nat;
    let rest = files.drop_last();
    let row = files.last();
    let shorter = with_status(rest, "pending"@);
    let longer = with_status(files, "pending"@);
    assert(files =~= rest.push(row));
    assert(files.take(files.len() - 1) =~= rest);
    rest.lemma_filter_push(row, pending);
    if in_batch(files, files.len() - 1) {
        assert(first_of(shorter, limit) == shorter);
        assert(first_of(longer, limit) =~= shorter.push(row));
        shorter.lemma_filter_push(row, wanted);
    } else {
        assert(first_of(longer, limit) =~= first_of(shorter, limit));
    }
}

/// Where a file of the batch stands among all files.
proof fn lemma_batch_from(files: Seq<FileView>, allowed: Seq<Seq<char>>, k: int) -> (j: int)
    requires
        0 <= k < batch_of(files, allowed).len(),
    ensures
        0 <= j < files.len(),
        batch_of(files, allowed)[k] == files[j],
        in_batch(files, j),
        extension_wanted(files[j].remote_url, allowed),
    decreases files.len(),
{
    if files.len() == 0 {
        reveal(Seq::filter);
        0
    } else {
        lemma_batch_step(files, allowed);
        let rest = files.drop_last();
        if k < batch_of(rest, allowed).len() {
            let j = lemma_batch_from(rest, allowed, k);
            assert(rest.take(j) =~= files.take(j));
            j
        } else {
            files.len() - 1
        }
    }
}

/// Where a wanted file of the batch stands in it.
proof fn lemma_batch_to(files: Seq<FileView>, allowed: Seq<Seq<char>>, j: int) -> (k: int)
    requires
        0 <= j < files.len(),
        in_batch(files, j),
        extension_wanted(files[j].remote_url, allowed),
    ensures
        0 <= k < batch_of(files, allowed).len(),
        batch_of(files, allowed)[k] == files[j],
    decreases files.len(),
{
    lemma_batch_step(files, allowed);
    let rest = files.drop_last();
    if j < rest.len() {
        assert(rest.take(j) =~= files.take(j));
        lemma_batch_to(rest, allowed, j)
    } else {
        batch_of(rest, allowed).len() as int
    }
}

/// Which ids are in the batch.
proof fn lemma_batch_members(
    files: Seq<FileView>,
    allowed: Seq<Seq<char>>,
    i: int,
)
    requires
        files_ok(files),
        0 <= i < files.len(),
    ensures
        ids_of(batch_of(files, allowed)).contains(files[i].id) <==> in_batch(files, i)
            && extension_wanted(files[i].remote_url, allowed),
{
    let batch = batch_of(files, allowed);
    if ids_of(batch).contains(files[i].id) {
        let k = choose|k: int| 0 <= k < ids_of(batch).len() && ids_of(batch)[k] == files[i].id;
        let j = lemma_batch_from(files, allowed, k);
        assert(files[j].id == files[i].id);
        assert(j == i);
    }
    if in_batch(files, i) && extension_wanted(files[i].remote_url, allowed) {
        let k = lemma_batch_to(files, allowed, i);
        assert(ids_of(batch)[k] == files[i].id);
    }
}

/// One of the pending files is in the batch.
proof fn lemma_batch_is_not_empty(files: Seq<FileView>) -> (i: int)
    requires
        count_with(files, "pending"@) > 0,
    ensures
        0 <= i < files.len(),
        in_batch(files, i),
    decreases files.len(),
{
    let pending = |f: FileView| f.status == "pending"@;
    if files.len() == 0 {
        reveal(Seq::filter);
        0
    } else {
        let rest = files.drop_last();
        assert(files =~= rest.push(files.last()));
        assert(files.take(files.len() - 1) =~= rest);
        rest.lemma_filter_push(files.last(), pending);
        if count_with(rest, "pending"@) > 0 {
            let i = lemma_batch_is_not_empty(rest);
            assert(rest.take(i) =~= files.take(i));
            i
        } else {
            files.len() - 1
        }
    }
}

/// Files that cease to be pending are fewer.
proof fn lemma_fewer_pending(files: Seq<FileView>, after: Seq<FileView>)
    requires
        files.len() == after.len(),
        forall|i: int|
            0 <= i < files.len() ==> ((#[trigger] after[i]).status == "pending"@ ==> files[i].status
                == "pending"@),
    ensures
        count_with(after, "pending"@) <= count_with(files, "pending"@),
        (exists|i: int|
            0 <= i < files.len() && (#[trigger] files[i]).status == "pending"@ && after[i].status
                != "pending"@) ==> count_with(after, "pending"@) < count_with(files, "pending"@),
    decreases files.len(),
{
    let pending = |f: FileView| f.status == "pending"@;
    if files.len() == 0 {
        reveal(Seq::filter);
    } else {
        let rest = files.drop_last();
        let rest_after = after.drop_last();
        assert(files =~= rest.push(files.last()));
        assert(after =~= rest_after.push(after.last()));
        rest.lemma_filter_push(files.last(), pending);
        rest_after.lemma_filter_push(after.last(), pending);
        assert forall|i: int| 0 <= i < rest.len() implies ((#[trigger] rest_after[i]).status
            == "pending"@ ==> rest[i].status == "pending"@) by {
            assert(rest_after[i] == after[i]);
        }
        lemma_fewer_pending(rest, rest_after);
        if exists|i: int|
            0 <= i < files.len() && (#[trigger] files[i]).status == "pending"@ && after[i].status
                != "pending"@ {
            let i = choose|i: int|
                0 <= i < files.len() && (#[trigger] files[i]).status == "pending"@ && after[i].status
                    != "pending"@;
            if i < rest.len() {
                assert(rest[i].status == "pending"@ && rest_after[i].status != "pending"@);
            }
        }
    }
}

/// A dry start on some files skips those of them that are not finished.
proof fn lemma_started(files: Seq<FileView>, ids: Seq<i64>, now: Seq<char>)
    ensures
        started(files, ids, true, now).len() == files.len(),
        forall|i: int|
            0 <= i < files.len() ==> (#[trigger] started(files, ids, true, now)[i]) == (
            if ids.contains(files[i].id) && files[i].status != "done"@ {
                skipped(files[i])
            } else {
                files[i]
            }),
    decreases ids.len(),
{
    lemma_status_texts();
    if ids.len() > 0 {
        let fewer = ids.drop_last();
        lemma_started(files, fewer, now);
        assert forall|i: int| 0 <= i < files.len() implies (#[trigger] started(
            files,
            ids,
            true,
            now,
        )[i]) == (if ids.contains(files[i].id) && files[i].status != "done"@ {
            skipped(files[i])
        } else {
            files[i]
        }) by {
            let before = started(files, fewer, true, now)[i];
            assert(started(files, ids, true, now)[i] == start_of(before, ids.last(), true, now));
            if ids.contains(files[i].id) {
                let k = choose|k: int| 0 <= k < ids.len() && ids[k] == files[i].id;
                if k < fewer.len() {
                    assert(fewer[k] == files[i].id);
                }
            }
            if fewer.contains(files[i].id) {
                let k = choose|k: int| 0 <= k < fewer.len() && fewer[k] == files[i].id;
                assert(ids[k] == files[i].id);
            }
            if files[i].id == ids.last() {
                assert(ids[ids.len() - 1] == files[i].id);
            }
        }
    }
}

/// A copy of the right size is never downloaded again; one of another size exactly if that is
/// configured.
pub proof fn law_complete_copies_are_kept(expected: i64, len: u64, redownload: bool)
    requires
        len <= i64::MAX,
    ensures
        copy_verdict(Some(expected), Some(len), redownload) == LocalCopy::Complete <==> len
            == expected,
        len != expected ==> (copy_verdict(Some(expected), Some(len), redownload)
            == LocalCopy::Download <==> redownload),
{
}

/// Leaving out unwanted files makes exactly the pending ones among them skipped; every other file
/// stays as it is.
pub proof fn law_unwanted_files_are_skipped(file: FileView, allowed: Seq<Seq<char>>)
    ensures
        file.status == "pending"@ && !extension_wanted(file.remote_url, allowed) ==> screened(
            file,
            allowed,
        ) == (FileView {
            status: "skipped"@,
            error_message: None,
            checksum_sha256: None,
            ..file
        }),
        file.status != "pending"@ || extension_wanted(file.remote_url, allowed) ==> screened(
            file,
            allowed,
        ) == file,
{
}

/// A batch takes the first 128 pending files: of them it holds those that are wanted, and the
/// others are skipped.  No other file is taken or changed.
pub proof fn law_batches_take_the_first_pending_files(
    files: Seq<FileView>,
    allowed: Seq<Seq<char>>,
    i: int,
)
    requires
        files_ok(files),
        0 <= i < files.len(),
    ensures
        ({
            let taken = files[i].status == "pending"@ && with_status(
                files.take(i),
                "pending"@,
            ).len() < 128;
            let wanted = extension_wanted(files[i].remote_url, allowed);
            &&& batch_of(files, allowed).contains(files[i]) <==> taken && wanted
            &&& batch_taken(files, allowed).len() == files.len()
            &&& taken && !wanted ==> batch_taken(files, allowed)[i] == (FileView {
                status: "skipped"@,
                error_message: None,
                checksum_sha256: None,
                ..files[i]
            })
            &&& !taken || wanted ==> batch_taken(files, allowed)[i] == files[i]
        }),
{
    let batch = batch_of(files, allowed);
    if batch.contains(files[i]) {
        let k = choose|k: int| 0 <= k < batch.len() && batch[k] == files[i];
        let j = lemma_batch_from(files, allowed, k);
        assert(files[j].id == files[i].id);
        assert(j == i);
    }
    if in_batch(files, i) && extension_wanted(files[i].remote_url, allowed) {
        let k = lemma_batch_to(files, allowed, i);
        assert(batch[k] == files[i]);
    }
}

/// The files of a batch come in the order of the table, that of their discovery.
pub proof fn law_batches_keep_the_order(
    files: Seq<FileView>,
    allowed: Seq<Seq<char>>,
    a: int,
    b: int,
)
    requires
        files_ok(files),
        0 <= a < b < batch_of(files, allowed).len(),
    ensures
        batch_of(files, allowed)[a].id < batch_of(files, allowed)[b].id,
    decreases files.len(),
{
    if files.len() > 0 {
        let rest = files.drop_last();
        lemma_batch_step(files, allowed);
        if b < batch_of(rest, allowed).len() {
            law_batches_keep_the_order(rest, allowed, a, b);
        } else {
            let j = lemma_batch_from(rest, allowed, a);
            assert(rest[j] == files[j]);
            assert(files[j].id < files[files.len() - 1].id);
        }
    } else {
        reveal(Seq::filter);
    }
}

/// A local copy lies in the output directory under the path on the server, whatever slashes that
/// begins with.
pub proof fn law_copies_lie_where_the_server_has_them(
    output_dir: Seq<char>,
    slashes: Seq<char>,
    rel: Seq<char>,
)
    requires
        output_dir.len() > 0,
        output_dir.last() != '/',
        forall|i: int| 0 <= i < slashes.len() ==> #[trigger] slashes[i] == '/',
        rel.len() == 0 || rel[0] != '/',
    ensures
        local_path(output_dir, slashes + rel) == output_dir + seq!['/'] + rel,
        local_path(output_dir + seq!['/'], slashes + rel) == output_dir + seq!['/'] + rel,
{
    law_trimming_takes_one_character(slashes, rel, '/');
    law_joining_paths(output_dir, rel);
}

/// A size is the same number with and without a sign, if it is not negative; the bits of every
/// number lead back to it.
pub proof fn law_signs_do_not_change_sizes(n: i64, u: u64)
    ensures
        n >= 0 ==> as_unsigned(n) == n,
        u <= i64::MAX ==> as_signed(u) == u,
        as_signed(as_unsigned(n)) == n,
        as_unsigned(as_signed(u)) == u,
{
}

/// What is missing of a file and what its part file holds add up to its size.  Nothing is missing
/// of a file whose part file holds all, or whose size is not known.
pub proof fn law_missing_bytes_complete_the_file(size: i64, part: u64)
    requires
        size >= 0,
    ensures
        part <= size ==> missing_bytes(Some(size), part) + part == size,
        part >= size ==> missing_bytes(Some(size), part) == 0,
        missing_bytes(None, part) == 0,
{
}

/// Only the part files of the files themselves count.
proof fn lemma_missing_total_prefix(files: Seq<RecordView>, parts: Seq<u64>, more: Seq<u64>)
    requires
        files.len() <= parts.len(),
    ensures
        missing_total(files, parts + more) == missing_total(files, parts),
    decreases files.len(),
{
    if files.len() > 0 {
        lemma_missing_total_prefix(files.drop_last(), parts, more);
        assert((parts + more)[files.len() - 1] == parts[files.len() - 1]);
    }
}

/// The bytes that are missing in all are those that are missing of each file.
pub proof fn law_missing_bytes_add_up(
    files: Seq<RecordView>,
    parts: Seq<u64>,
    file: RecordView,
    part: u64,
)
    requires
        files.len() == parts.len(),
    ensures
        missing_total(files.push(file), parts.push(part)) == missing_total(files, parts)
            + missing_bytes(file.size_bytes, part),
        missing_total(Seq::empty(), parts) == 0,
{
    assert(files.push(file).drop_last() =~= files);
    assert(parts.push(part) =~= parts + seq![part]);
    lemma_missing_total_prefix(files, parts, seq![part]);
}

/// Without a copy, or without a size to hold it against, a file is downloaded.
pub proof fn law_unknown_copies_are_downloaded(
    size_bytes: Option<i64>,
    local_len: Option<u64>,
    redownload: bool,
)
    requires
        size_bytes is None || local_len is None,
    ensures
        copy_verdict(size_bytes, local_len, redownload) == LocalCopy::Download,
{
}

/// A copy of another size is reported where it is not to be downloaded again.
pub proof fn law_mismatches_are_reported(expected: i64, len: u64)
    requires
        len <= i64::MAX,
        len != expected,
    ensures
        copy_verdict(Some(expected), Some(len), false) == LocalCopy::Mismatch,
        copy_verdict(Some(expected), Some(len), true) == LocalCopy::Download,
{
}

/// Starting a file marks it as in transfer, or as skipped in a dry run; finished files and those
/// with other ids stay as they are.
pub proof fn law_started_files_are_in_transfer(
    file: FileView,
    id: i64,
    dry_run: bool,
    now: Seq<char>,
)
    ensures
        file.id == id && file.status != "done"@ ==> start_of(file, id, dry_run, now) == (FileView {
            status: if dry_run {
                "skipped"@
            } else {
                "downloading"@
            },
            error_message: None,
            checksum_sha256: None,
            ..file
        }),
        file.id != id || file.status == "done"@ ==> start_of(file, id, dry_run, now) == file,
{
    lemma_status_texts();
}

} // verus!
