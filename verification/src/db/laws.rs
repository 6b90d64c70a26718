//! What holds of the operations on the state tables together.
use vstd::prelude::*;

use crate::db::models::{
    after_reset, awaited_bytes, changed, count_with, crawl_is_pending, depth_before, discovered,
    enqueued, failed, folders_saved, holds_entry, holds_file, is_listed, is_listing, is_next_batch,
    is_reset, is_tallied, law_status_round_trip, lemma_status_texts, listed, path_before,
    path_matches, pending_entries, pending_entry, records_of, rediscovered, retried, status_of,
    status_set, status_text, tallies_statuses, upserted, with_crawl_status, with_new_status,
    with_status, CrawlEntryView, DbError, LIST_LIMIT,
};
use crate::db::tables::{next_id, tables_ok, CrawlView, DbView, FileView, FolderView};
use crate::order::{
    arranges, first_of, lemma_arrangement_unique, lemma_picked, lemma_text_order, text_before,
};
use crate::text::{occurs_at, occurs_in};

verus! {

// ---------------------------------------------------------------------------
// Files
// ---------------------------------------------------------------------------

/// A finished file stays as it is under every operation; only a discovery with another time of
/// modification changes it.
pub proof fn law_finished_files_stay(
    file: FileView,
    id: i64,
    status: Seq<char>,
    message: Seq<char>,
    checksum: Option<Seq<char>>,
    now: Seq<char>,
    errors_only: bool,
    last_modified: Option<Seq<char>>,
    size_bytes: Option<i64>,
)
    requires
        file.status == "done"@,
    ensures
        with_new_status(file, id, status, Some(message), checksum, now) == file,
        failed(file, id, message) == file,
        after_reset(file, errors_only) == file,
        !changed(file.last_modified, last_modified) ==> rediscovered(
            file,
            last_modified,
            size_bytes,
        ) == file,
        changed(file.last_modified, last_modified) ==> rediscovered(
            file,
            last_modified,
            size_bytes,
        ).status == "pending"@,
{
    lemma_status_texts();
}

/// A skipped or failed file is pending again when it is discovered, whatever has changed, and
/// has the time of modification and the size that were listed last.
pub proof fn law_rediscovery_resets(
    file: FileView,
    last_modified: Option<Seq<char>>,
    size_bytes: Option<i64>,
)
    requires
        file.status == "skipped"@ || file.status == "error"@,
    ensures
        rediscovered(file, last_modified, size_bytes).status == "pending"@,
        rediscovered(file, last_modified, size_bytes).last_modified == last_modified,
        rediscovered(file, last_modified, size_bytes).size_bytes == size_bytes,
{
    lemma_status_texts();
}

/// Discovering a file twice is discovering it once: the second time changes no row.
pub proof fn law_rediscovery_settles(
    db: DbView,
    url: Seq<char>,
    path: Seq<char>,
    last_modified: Option<Seq<char>>,
    size_bytes: Option<i64>,
    now: Seq<char>,
    later: Seq<char>,
    first: DbView,
    second: DbView,
)
    requires
        upserted(db, url, path, last_modified, size_bytes, now) == Ok::<DbView, DbError>(first),
        upserted(first, url, path, last_modified, size_bytes, later) == Ok::<DbView, DbError>(
            second,
        ),
    ensures
        second.files == first.files,
        second.queue == first.queue,
        second.folders == first.folders,
{
    lemma_status_texts();
    let f = |f: FileView|
        if f.remote_url == url {
            rediscovered(f, last_modified, size_bytes)
        } else {
            f
        };
    if holds_file(db.files, url) {
        let i = choose|i: int| 0 <= i < db.files.len() && db.files[i].remote_url == url;
        assert(first.files[i].remote_url == url);
    } else {
        assert(first.files[db.files.len() as int].remote_url == url);
    }
    assert(holds_file(first.files, url));
    assert(second.files =~= first.files.map_values(f));
    assert forall|k: int| 0 <= k < first.files.len() implies f(#[trigger] first.files[k])
        == first.files[k] by {
        if holds_file(db.files, url) {
            assert(first.files[k] == f(db.files[k]));
        } else if k < db.files.len() {
            assert(first.files[k] == db.files[k]);
        } else {
            assert(first.files[k] == discovered(
                first.last_file_id,
                url,
                path,
                last_modified,
                size_bytes,
                now,
            ));
        }
    }
    assert(second.files =~= first.files);
}

/// An id is never given twice: a new file gets one that is greater than all before, and the
/// rows that were there keep theirs.
pub proof fn law_ids_are_fresh(
    db: DbView,
    url: Seq<char>,
    path: Seq<char>,
    last_modified: Option<Seq<char>>,
    size_bytes: Option<i64>,
    now: Seq<char>,
    after: DbView,
)
    requires
        tables_ok(db),
        upserted(db, url, path, last_modified, size_bytes, now) == Ok::<DbView, DbError>(after),
    ensures
        after.last_file_id > db.last_file_id,
        forall|i: int| 0 <= i < db.files.len() ==> after.files[i].id == (#[trigger] db.files[i]).id,
        forall|i: int|
            db.files.len() <= i < after.files.len() ==> (#[trigger] after.files[i]).id
                > db.last_file_id,
        forall|i: int, j: int|
            0 <= i < db.files.len() <= j < after.files.len() ==> (#[trigger] db.files[i]).id < (
            #[trigger] after.files[j]).id,
{
}

/// Whether all files have statuses that are known.
pub open spec fn statuses_known(files: Seq<FileView>) -> bool {
    forall|i: int| 0 <= i < files.len() ==> status_of((#[trigger] files[i]).status) is Some
}

/// No operation gives a file a status that is not known.
pub proof fn law_statuses_stay_known(
    db: DbView,
    url: Seq<char>,
    path: Seq<char>,
    last_modified: Option<Seq<char>>,
    size_bytes: Option<i64>,
    id: i64,
    status: Seq<char>,
    message: Option<Seq<char>>,
    checksum: Option<Seq<char>>,
    text: Seq<char>,
    now: Seq<char>,
    errors_only: bool,
)
    requires
        statuses_known(db.files),
    ensures
        upserted(db, url, path, last_modified, size_bytes, now) matches Ok(after)
            ==> statuses_known(after.files),
        status_set(db, id, status, message, checksum, now) matches Ok(after) ==> statuses_known(
            after.files,
        ),
        statuses_known(db.files.map_values(|f: FileView| failed(f, id, text))),
        statuses_known(db.files.map_values(|f: FileView| after_reset(f, errors_only))),
{
    lemma_status_texts();
    match upserted(db, url, path, last_modified, size_bytes, now) {
        Ok(after) => {
            assert forall|i: int| 0 <= i < after.files.len() implies status_of(
                (#[trigger] after.files[i]).status,
            ) is Some by {
                if i < db.files.len() {
                    assert(status_of(db.files[i].status) is Some);
                }
            }
        },
        Err(_) => {},
    }
    match status_set(db, id, status, message, checksum, now) {
        Ok(after) => {
            assert forall|i: int| 0 <= i < after.files.len() implies status_of(
                (#[trigger] after.files[i]).status,
            ) is Some by {
                assert(status_of(db.files[i].status) is Some);
            }
        },
        Err(_) => {},
    }
}

/// After a full reset every file is pending or finished, a second reset changes nothing, and
/// finished and pending files are left alone.
pub proof fn law_reset_settles(file: FileView)
    requires
        status_of(file.status) is Some,
    ensures
        after_reset(file, false).status == "pending"@ || after_reset(file, false).status
            == "done"@,
        after_reset(after_reset(file, false), false) == after_reset(file, false),
        !is_reset(after_reset(file, false), false),
        file.status == "pending"@ || file.status == "done"@ ==> after_reset(file, false) == file,
{
    lemma_status_texts();
}

/// A reset of failures touches failed files only, and after it no file is failed.
pub proof fn law_error_reset_is_narrow(file: FileView)
    ensures
        file.status != "error"@ ==> after_reset(file, true) == file,
        after_reset(file, true).status != "error"@,
        after_reset(file, true).status == after_reset(file, false).status || file.status
            == "downloading"@ || file.status == "skipped"@,
{
    lemma_status_texts();
}

/// The number of pending files is the number of records that are read for that status.
pub proof fn law_pending_count_matches(files: Seq<FileView>)
    ensures
        records_of(with_status(files, "pending"@)) matches Some(records) && records.len()
            == count_with(files, "pending"@),
{
    let p = |f: FileView| f.status == "pending"@;
    let pending = with_status(files, "pending"@);
    assert forall|i: int| 0 <= i < pending.len() implies status_of((#[trigger] pending[i]).status)
        is Some by {
        files.lemma_filter_pred(p, i);
    }
}

/// A limited read is the beginning of the full one.
pub proof fn law_limited_is_prefix(files: Seq<FileView>, status: Seq<char>, limit: nat)
    requires
        records_of(with_status(files, status)) is Some,
    ensures
        records_of(first_of(with_status(files, status), limit)) == Some(
            first_of(records_of(with_status(files, status))->0, limit),
        ),
{
    let all = with_status(files, status);
    let part = first_of(all, limit);
    assert forall|i: int| 0 <= i < part.len() implies status_of((#[trigger] part[i]).status)
        is Some by {
        assert(part[i] == all[i]);
    }
    assert(records_of(part)->0 =~= first_of(records_of(all)->0, limit));
}

/// The sum of tallies.
pub open spec fn tally_sum(tallies: Seq<(Seq<char>, i64)>) -> int
    decreases tallies.len(),
{
    if tallies.len() == 0 {
        0
    } else {
        tally_sum(tallies.drop_last()) + tallies.last().1
    }
}

/// The sum of the numbers of files with each of the given statuses.
spec fn count_sum(tallies: Seq<(Seq<char>, i64)>, files: Seq<FileView>) -> int
    decreases tallies.len(),
{
    if tallies.len() == 0 {
        0
    } else {
        count_sum(tallies.drop_last(), files) + count_with(files, tallies.last().0)
    }
}

/// How often a status is among the tallied ones.
spec fn times_tallied(tallies: Seq<(Seq<char>, i64)>, status: Seq<char>) -> int
    decreases tallies.len(),
{
    if tallies.len() == 0 {
        0
    } else {
        times_tallied(tallies.drop_last(), status) + (if tallies.last().0 == status {
            1int
        } else {
            0int
        })
    }
}

proof fn lemma_count_step(tallies: Seq<(Seq<char>, i64)>, files: Seq<FileView>, file: FileView)
    ensures
        count_sum(tallies, files.push(file)) == count_sum(tallies, files) + times_tallied(
            tallies,
            file.status,
        ),
    decreases tallies.len(),
{
    if tallies.len() > 0 {
        let status = tallies.last().0;
        files.lemma_filter_push(file, |f: FileView| f.status == status);
        lemma_count_step(tallies.drop_last(), files, file);
    }
}

proof fn lemma_times_tallied(tallies: Seq<(Seq<char>, i64)>, status: Seq<char>)
    requires
        forall|i: int, j: int|
            0 <= i < j < tallies.len() ==> (#[trigger] tallies[i]).0 != (#[trigger] tallies[j]).0,
    ensures
        times_tallied(tallies, status) == (if is_tallied(tallies, status) {
            1int
        } else {
            0int
        }),
    decreases tallies.len(),
{
    if tallies.len() > 0 {
        let shorter = tallies.drop_last();
        lemma_times_tallied(shorter, status);
        if tallies.last().0 == status {
            assert(tallies[tallies.len() - 1].0 == status);
            if is_tallied(shorter, status) {
                let i = choose|i: int| 0 <= i < shorter.len() && shorter[i].0 == status;
                assert(tallies[i].0 == tallies[tallies.len() - 1].0);
            }
        } else if is_tallied(tallies, status) {
            let i = choose|i: int| 0 <= i < tallies.len() && tallies[i].0 == status;
            assert(shorter[i].0 == status);
        } else if is_tallied(shorter, status) {
            let i = choose|i: int| 0 <= i < shorter.len() && shorter[i].0 == status;
            assert(tallies[i].0 == status);
        }
    }
}

proof fn lemma_count_sum(tallies: Seq<(Seq<char>, i64)>, files: Seq<FileView>)
    requires
        forall|i: int, j: int|
            0 <= i < j < tallies.len() ==> (#[trigger] tallies[i]).0 != (#[trigger] tallies[j]).0,
        forall|k: int| 0 <= k < files.len() ==> is_tallied(tallies, (#[trigger] files[k]).status),
    ensures
        count_sum(tallies, files) == files.len(),
    decreases files.len(),
{
    if files.len() == 0 {
        lemma_count_none(tallies, files);
    } else {
        let shorter = files.drop_last();
        assert(shorter.push(files.last()) =~= files);
        assert forall|k: int| 0 <= k < shorter.len() implies is_tallied(
            tallies,
            (#[trigger] shorter[k]).status,
        ) by {
            assert(shorter[k] == files[k]);
        }
        lemma_count_sum(tallies, shorter);
        lemma_count_step(tallies, shorter, files.last());
        assert(is_tallied(tallies, files[files.len() - 1].status));
        lemma_times_tallied(tallies, files.last().status);
    }
}

proof fn lemma_count_none(tallies: Seq<(Seq<char>, i64)>, files: Seq<FileView>)
    requires
        files.len() == 0,
    ensures
        count_sum(tallies, files) == 0,
    decreases tallies.len(),
{
    reveal(Seq::filter);
    if tallies.len() > 0 {
        lemma_count_none(tallies.drop_last(), files);
    }
}

proof fn lemma_tally_sum(tallies: Seq<(Seq<char>, i64)>, files: Seq<FileView>, n: int)
    requires
        0 <= n <= tallies.len(),
        forall|i: int|
            0 <= i < tallies.len() ==> (#[trigger] tallies[i]).1 == count_with(files, tallies[i].0),
    ensures
        tally_sum(tallies.take(n)) == count_sum(tallies.take(n), files),
    decreases n,
{
    if n > 0 {
        assert(tallies.take(n).drop_last() =~= tallies.take(n - 1));
        assert(tallies.take(n).last() == tallies[n - 1]);
        lemma_tally_sum(tallies, files, n - 1);
    }
}

/// The tallies of the statuses add up to the number of files.
pub proof fn law_tallies_add_up(tallies: Seq<(Seq<char>, i64)>, files: Seq<FileView>)
    requires
        tallies_statuses(tallies, files),
    ensures
        tally_sum(tallies) == files.len(),
{
    assert forall|i: int, j: int| 0 <= i < j < tallies.len() implies (#[trigger] tallies[i]).0 != (
    #[trigger] tallies[j]).0 by {
        lemma_text_order(tallies[i].0, tallies[i].0, tallies[i].0);
    }
    lemma_count_sum(tallies, files);
    lemma_tally_sum(tallies, files, tallies.len() as int);
    assert(tallies.take(tallies.len() as int) =~= tallies);
}

// ---------------------------------------------------------------------------
// Listings
// ---------------------------------------------------------------------------

/// Filters and tables determine a listing.
pub proof fn law_listing_is_determined(
    files: Seq<FileView>,
    path_filter: Option<Seq<char>>,
    status_filter: Option<Seq<char>>,
    a: Seq<FileView>,
    b: Seq<FileView>,
)
    requires
        is_listing(a, files, path_filter, status_filter),
        is_listing(b, files, path_filter, status_filter),
    ensures
        a == b,
{
    let before = |x: FileView, y: FileView| path_before(x, y);
    let rows = listed(files, path_filter, status_filter);
    assert forall|x: FileView, y: FileView| #[trigger] before(x, y) implies !before(y, x) by {
        lemma_text_order(x.remote_path, y.remote_path, x.remote_path);
        lemma_text_order(y.remote_path, x.remote_path, y.remote_path);
    }
    let all_a = choose|all: Seq<FileView>| #[trigger]
        arranges(all, rows, before) && a == first_of(all, LIST_LIMIT as nat);
    let all_b = choose|all: Seq<FileView>| #[trigger]
        arranges(all, rows, before) && b == first_of(all, LIST_LIMIT as nat);
    lemma_arrangement_unique(all_a, all_b, rows, before);
}

/// A listing shows only files that are in the tables and pass the filters, and shows all of
/// them if they are few enough.
pub proof fn law_listing_is_faithful(
    files: Seq<FileView>,
    path_filter: Option<Seq<char>>,
    status_filter: Option<Seq<char>>,
    rows: Seq<FileView>,
    file: FileView,
)
    requires
        is_listing(rows, files, path_filter, status_filter),
    ensures
        rows.len() <= LIST_LIMIT,
        rows.contains(file) ==> files.contains(file) && is_listed(file, path_filter, status_filter),
        rows.len() < LIST_LIMIT && files.contains(file) && is_listed(
            file,
            path_filter,
            status_filter,
        ) ==> rows.contains(file),
{
    let before = |x: FileView, y: FileView| path_before(x, y);
    let p = |f: FileView| is_listed(f, path_filter, status_filter);
    let selected = listed(files, path_filter, status_filter);
    let all = choose|all: Seq<FileView>| #[trigger]
        arranges(all, selected, before) && rows == first_of(all, LIST_LIMIT as nat);
    if rows.contains(file) {
        let i = choose|i: int| 0 <= i < rows.len() && rows[i] == file;
        assert(all[i] == file);
        assert(selected.contains(all[i]));
        files.lemma_filter_contains_rev(p, file);
        let k = choose|k: int| 0 <= k < selected.len() && selected[k] == file;
        files.lemma_filter_pred(p, k);
    }
    if rows.len() < LIST_LIMIT && files.contains(file) && is_listed(
        file,
        path_filter,
        status_filter,
    ) {
        let i = choose|i: int| 0 <= i < files.len() && files[i] == file;
        files.lemma_filter_contains(p, i);
        let k = choose|k: int| 0 <= k < selected.len() && selected[k] == file;
        assert(all.contains(selected[k]));
    }
}

/// A path that is listed under a filter is listed under every part of the filter.
pub proof fn law_shorter_filters_list_more(path: Seq<char>, filter: Seq<char>, part: Seq<char>)
    requires
        path_matches(path, filter),
        occurs_in(filter, part),
    ensures
        path_matches(path, part),
{
    let k = choose|k: int| occurs_at(path, filter, k);
    let l = choose|l: int| occurs_at(filter, part, l);
    assert(path.subrange(k + l, k + l + part.len()) =~= filter.subrange(l, l + part.len())) by {
        assert forall|i: int| 0 <= i < part.len() implies path[k + l + i] == #[trigger] filter[l
            + i] by {
            assert(path.subrange(k, k + filter.len())[l + i] == filter[l + i]);
        }
    }
    assert(occurs_at(path, part, k + l));
}

// ---------------------------------------------------------------------------
// The crawl queue
// ---------------------------------------------------------------------------

/// Queueing a directory twice is queueing it once.
pub proof fn law_queueing_settles(
    db: DbView,
    url: Seq<char>,
    depth: i64,
    other_depth: i64,
    now: Seq<char>,
    first: DbView,
    second: DbView,
)
    requires
        enqueued(db, url, depth, now) == Ok::<DbView, DbError>(first),
        enqueued(first, url, other_depth, now) == Ok::<DbView, DbError>(second),
    ensures
        second.queue == first.queue,
        second.files == first.files,
        second.folders == first.folders,
{
    if !holds_entry(db.queue, url) {
        assert(first.queue[db.queue.len() as int].url == url);
    }
    assert(holds_entry(first.queue, url));
}

/// Crawling is breadth first: no directory that waits lies before one of the next batch, and
/// the batch is in that order.  Something is crawled as long as something waits.
pub proof fn law_crawl_is_breadth_first(
    entries: Seq<CrawlEntryView>,
    queue: Seq<CrawlView>,
    limit: nat,
    i: int,
    waiting: CrawlEntryView,
)
    requires
        is_next_batch(entries, queue, limit),
        pending_entries(queue).contains(waiting),
        limit > 0,
    ensures
        entries.len() > 0,
        entries.len() <= limit,
        0 <= i < entries.len() && !entries.contains(waiting) ==> depth_before(entries[i], waiting)
            && entries[i].depth <= waiting.depth,
        forall|a: int, b: int|
            0 <= a < b < entries.len() ==> depth_before(#[trigger] entries[a], #[trigger] entries[b]),
{
    let before = |a: CrawlEntryView, b: CrawlEntryView| depth_before(a, b);
    let rows = pending_entries(queue);
    let all = choose|all: Seq<CrawlEntryView>| #[trigger]
        arranges(all, rows, before) && entries == first_of(all, limit);
    let k = choose|k: int| 0 <= k < rows.len() && rows[k] == waiting;
    assert(all.contains(rows[k]));
    let m = choose|m: int| 0 <= m < all.len() && all[m] == waiting;
    if 0 <= i < entries.len() && !entries.contains(waiting) {
        if m < entries.len() {
            assert(entries[m] == waiting);
        }
        assert(before(all[i], all[m]));
    }
    assert forall|a: int, b: int| 0 <= a < b < entries.len() implies depth_before(
        #[trigger] entries[a],
        #[trigger] entries[b],
    ) by {
        assert(before(all[a], all[b]));
    }
}

/// A directory that was marked as crawled, or as failed, no longer waits.
pub proof fn law_marked_entries_leave(queue: Seq<CrawlView>, id: i64, status: Seq<char>, row: CrawlView)
    requires
        status == "done"@ || status == "error"@,
    ensures
        row.id == id ==> pending_entry(with_crawl_status(row, id, status)) is None,
        row.id != id ==> pending_entry(with_crawl_status(row, id, status)) == pending_entry(row),
{
    lemma_status_texts();
}

/// Failed directories wait again after they were reset, and none is failed any more.
pub proof fn law_failed_directories_return(row: CrawlView)
    ensures
        row.status == "error"@ ==> pending_entry(retried(row)) is Some,
        row.status != "error"@ ==> retried(row) == row,
        retried(row).status != "error"@,
{
    lemma_status_texts();
}

// ---------------------------------------------------------------------------
// Selected folders
// ---------------------------------------------------------------------------

/// What is loaded is what was saved: the same folders, in the order of their paths.
pub proof fn law_saved_folders_are_loaded(
    db: DbView,
    saved: Seq<FolderView>,
    loaded: Seq<FolderView>,
    folder: FolderView,
)
    requires
        arranges(
            loaded,
            folders_saved(db, saved).folders,
            |a: FolderView, b: FolderView| text_before(a.path, b.path),
        ),
    ensures
        loaded.contains(folder) <==> saved.contains(folder),
        forall|i: int, j: int|
            0 <= i < j < loaded.len() ==> text_before(
                (#[trigger] loaded[i]).path,
                (#[trigger] loaded[j]).path,
            ),
{
    let before = |a: FolderView, b: FolderView| text_before(a.path, b.path);
    if loaded.contains(folder) {
        let i = choose|i: int| 0 <= i < loaded.len() && loaded[i] == folder;
        assert(saved.contains(loaded[i]));
    }
    if saved.contains(folder) {
        let i = choose|i: int| 0 <= i < saved.len() && saved[i] == folder;
        assert(loaded.contains(saved[i]));
    }
    assert forall|i: int, j: int| 0 <= i < j < loaded.len() implies text_before(
        (#[trigger] loaded[i]).path,
        (#[trigger] loaded[j]).path,
    ) by {
        assert(before(loaded[i], loaded[j]));
    }
}

// ---------------------------------------------------------------------------
// What each operation does to the rows
// ---------------------------------------------------------------------------

/// A finished file with a known time of modification is pending again after it was listed with
/// any other known time, and has that time and the size that was listed with it; all else of it
/// stays.  Listed with the same time, or where one of the times is not known, it stays as it is.
pub proof fn law_changed_files_are_pending_again(
    file: FileView,
    listed_before: Seq<char>,
    listed_now: Seq<char>,
    size_bytes: Option<i64>,
)
    requires
        file.status == "done"@,
        file.last_modified == Some(listed_before),
    ensures
        listed_before != listed_now ==> rediscovered(file, Some(listed_now), size_bytes) == (
        FileView { status: "pending"@, last_modified: Some(listed_now), size_bytes, ..file }),
        listed_before == listed_now ==> rediscovered(file, Some(listed_now), size_bytes) == file,
        rediscovered(file, None, size_bytes) == file,
        rediscovered(FileView { last_modified: None, ..file }, Some(listed_now), size_bytes) == (
        FileView { last_modified: None, ..file }),
{
}

/// A file that is not finished takes over the time and the size that were listed last.  It stays
/// pending or in transfer; one that was skipped or had failed is pending.
pub proof fn law_unfinished_files_follow_the_listing(
    file: FileView,
    last_modified: Option<Seq<char>>,
    size_bytes: Option<i64>,
)
    requires
        file.status != "done"@,
    ensures
        file.status == "pending"@ || file.status == "downloading"@ ==> rediscovered(
            file,
            last_modified,
            size_bytes,
        ) == (FileView { last_modified, size_bytes, ..file }),
        file.status == "skipped"@ || file.status == "error"@ ==> rediscovered(
            file,
            last_modified,
            size_bytes,
        ) == (FileView { last_modified, size_bytes, status: "pending"@, ..file }),
{
    lemma_status_texts();
}

/// Discovering a file changes its row alone, and nothing but files.
pub proof fn law_discovery_touches_one_row(
    db: DbView,
    url: Seq<char>,
    path: Seq<char>,
    last_modified: Option<Seq<char>>,
    size_bytes: Option<i64>,
    now: Seq<char>,
    after: DbView,
    i: int,
)
    requires
        upserted(db, url, path, last_modified, size_bytes, now) == Ok::<DbView, DbError>(after),
        0 <= i < db.files.len(),
    ensures
        db.files[i].remote_url != url ==> after.files[i] == db.files[i],
        db.files[i].remote_url == url ==> after.files.len() == db.files.len() && after.files[i]
            == rediscovered(db.files[i], last_modified, size_bytes),
        after.queue == db.queue,
        after.folders == db.folders,
        after.last_crawl_id == db.last_crawl_id,
{
    if db.files[i].remote_url == url {
        assert(holds_file(db.files, url));
    }
}

/// A file that was not known is added behind the others: pending, with what was listed, and
/// without a trace of a download.
pub proof fn law_new_files_are_pending(
    db: DbView,
    url: Seq<char>,
    path: Seq<char>,
    last_modified: Option<Seq<char>>,
    size_bytes: Option<i64>,
    now: Seq<char>,
    after: DbView,
)
    requires
        upserted(db, url, path, last_modified, size_bytes, now) == Ok::<DbView, DbError>(after),
        forall|i: int| 0 <= i < db.files.len() ==> (#[trigger] db.files[i]).remote_url != url,
    ensures
        after.files.len() == db.files.len() + 1,
        after.files.last() == (FileView {
            id: after.files.last().id,
            remote_url: url,
            remote_path: path,
            last_modified,
            size_bytes,
            local_path: None,
            status: "pending"@,
            error_message: None,
            retry_count: 0,
            discovered_at: now,
            completed_at: None,
            checksum_sha256: None,
        }),
        after.last_insert_rowid == after.files.last().id,
        after.last_file_id == after.files.last().id,
{
}

/// A discovery fails only where an id, or the room for a row, has run out or a status is not
/// known.
pub proof fn law_discoveries_succeed(
    db: DbView,
    url: Seq<char>,
    path: Seq<char>,
    last_modified: Option<Seq<char>>,
    size_bytes: Option<i64>,
    now: Seq<char>,
)
    requires
        db.last_file_id < i64::MAX,
        db.files.len() < i64::MAX,
        forall|i: int| 0 <= i < db.files.len() ==> (#[trigger] db.files[i]).id < i64::MAX,
        forall|i: int|
            0 <= i < db.files.len() ==> status_of((#[trigger] db.files[i]).status) is Some,
    ensures
        upserted(db, url, path, last_modified, size_bytes, now) is Ok,
{
    if db.files.len() > 0 {
        assert(db.files[db.files.len() - 1].id < i64::MAX);
    }
}

/// Setting a status changes the file with that id alone, unless it is finished: it then has the
/// status, the message and the checksum that were given, and the time only if it is finished now.
pub proof fn law_statuses_are_set(
    db: DbView,
    id: i64,
    status: Seq<char>,
    message: Option<Seq<char>>,
    checksum: Option<Seq<char>>,
    now: Seq<char>,
    after: DbView,
    i: int,
)
    requires
        status_set(db, id, status, message, checksum, now) == Ok::<DbView, DbError>(after),
        0 <= i < db.files.len(),
    ensures
        after.files.len() == db.files.len(),
        db.files[i].id != id || db.files[i].status == "done"@ ==> after.files[i] == db.files[i],
        db.files[i].id == id && db.files[i].status != "done"@ ==> after.files[i] == (FileView {
            status,
            error_message: message,
            checksum_sha256: checksum,
            completed_at: if status == "done"@ {
                Some(now)
            } else {
                db.files[i].completed_at
            },
            ..db.files[i]
        }),
        after == (DbView { files: after.files, ..db }),
{
}

/// A known status is always set; another one only where no unfinished file has the id.
pub proof fn law_known_statuses_are_accepted(
    db: DbView,
    id: i64,
    status: Seq<char>,
    message: Option<Seq<char>>,
    checksum: Option<Seq<char>>,
    now: Seq<char>,
)
    ensures
        (status == "pending"@ || status == "downloading"@ || status == "done"@ || status == "error"@
            || status == "skipped"@) ==> status_set(db, id, status, message, checksum, now) is Ok,
        status_set(db, id, status, message, checksum, now) is Err ==> exists|i: int|
            0 <= i < db.files.len() && (#[trigger] db.files[i]).id == id && db.files[i].status
                != "done"@,
{
}

/// A failure is recorded for the file with that id alone, unless it is finished: its message is
/// kept, and one more failed download is counted.
pub proof fn law_failures_are_recorded(file: FileView, id: i64, message: Seq<char>)
    ensures
        file.id != id || file.status == "done"@ ==> failed(file, id, message) == file,
        file.id == id && file.status != "done"@ && file.retry_count < i64::MAX ==> failed(
            file,
            id,
            message,
        ) == (FileView {
            status: "error"@,
            error_message: Some(message),
            retry_count: (file.retry_count + 1) as i64,
            ..file
        }),
{
}

/// A reset makes failed files pending and forgets their messages; a full one does so with skipped
/// files and those in transfer, too.  All else of a file stays.
pub proof fn law_resets_make_files_pending(file: FileView, errors_only: bool)
    ensures
        file.status == "error"@ ==> after_reset(file, errors_only) == (FileView {
            status: "pending"@,
            error_message: None,
            ..file
        }),
        file.status == "downloading"@ || file.status == "skipped"@ ==> after_reset(
            file,
            errors_only,
        ) == (if errors_only {
            file
        } else {
            FileView { status: "pending"@, error_message: None, ..file }
        }),
        file.status == "done"@ || file.status == "pending"@ ==> after_reset(file, errors_only)
            == file,
        is_reset(file, errors_only) <==> file.status == "error"@ || (!errors_only && file.status
            == "downloading"@) || (!errors_only && file.status == "skipped"@),
{
    lemma_status_texts();
}

/// The files with a status are all files with it and no others, in the order of the table.
pub proof fn law_files_are_found_by_status(files: Seq<FileView>, status: Seq<char>, file: FileView)
    ensures
        with_status(files.push(file), status) == (if file.status == status {
            with_status(files, status).push(file)
        } else {
            with_status(files, status)
        }),
        count_with(files.push(file), status) == count_with(files, status) + (if file.status
            == status {
            1int
        } else {
            0int
        }),
        with_status(Seq::<FileView>::empty(), status) == Seq::<FileView>::empty(),
        count_with(Seq::<FileView>::empty(), status) == 0,
        with_status(files, status).contains(file) <==> files.contains(file) && file.status
            == status,
{
    reveal(Seq::filter);
    let p = |f: FileView| f.status == status;
    files.lemma_filter_push(file, p);
    let found = with_status(files, status);
    if found.contains(file) {
        files.lemma_filter_contains_rev(p, file);
        let k = choose|k: int| 0 <= k < found.len() && found[k] == file;
        files.lemma_filter_pred(p, k);
    }
    if files.contains(file) && file.status == status {
        let i = choose|i: int| 0 <= i < files.len() && files[i] == file;
        files.lemma_filter_contains(p, i);
    }
}

/// A status is tallied with the number of its files, and only if there is one.
pub proof fn law_tallies_count_files(
    tallies: Seq<(Seq<char>, i64)>,
    files: Seq<FileView>,
    status: Seq<char>,
    n: i64,
)
    requires
        tallies_statuses(tallies, files),
    ensures
        tallies.contains((status, n)) <==> n > 0 && n == with_status(files, status).len(),
{
    if tallies.contains((status, n)) {
        let i = choose|i: int| 0 <= i < tallies.len() && tallies[i] == (status, n);
        assert(0 < tallies[i].1);
    }
    if n > 0 && n == with_status(files, status).len() {
        let p = |f: FileView| f.status == status;
        let found = with_status(files, status);
        files.lemma_filter_pred(p, 0);
        files.lemma_filter_contains_rev(p, found[0]);
        let k = choose|k: int| 0 <= k < files.len() && files[k] == found[0];
        assert(is_tallied(tallies, files[k].status));
        let i = choose|i: int| 0 <= i < tallies.len() && (#[trigger] tallies[i]).0 == status;
        assert(tallies[i].1 == count_with(files, tallies[i].0));
        assert(tallies[i] == (status, n));
    }
}

/// The bytes that are awaited are those of the pending files and of those in transfer; a size
/// that is not known counts as nothing, and so does every other file.
pub proof fn law_awaited_bytes_add_up(files: Seq<FileView>, file: FileView, more: Seq<FileView>)
    ensures
        awaited_bytes(seq![file]) == (if file.status == "pending"@ || file.status
            == "downloading"@ {
            match file.size_bytes {
                Some(size) => size as int,
                None => 0,
            }
        } else {
            0
        }),
        awaited_bytes(files + more) == awaited_bytes(files) + awaited_bytes(more),
    decreases more.len(),
{
    assert(seq![file].drop_last() =~= Seq::<FileView>::empty());
    assert(awaited_bytes(seq![file].drop_last()) == 0);
    if more.len() == 0 {
        assert(files + more =~= files);
    } else {
        assert((files + more).drop_last() =~= files + more.drop_last());
        law_awaited_bytes_add_up(files, file, more.drop_last());
    }
}

/// What is read of a file is what is in its row.
pub proof fn law_records_show_their_rows(files: Seq<FileView>, i: int)
    requires
        records_of(files) is Some,
        0 <= i < files.len(),
    ensures
        ({
            let records = records_of(files)->0;
            &&& records.len() == files.len()
            &&& records[i].id == files[i].id
            &&& records[i].remote_url == files[i].remote_url
            &&& records[i].remote_path == files[i].remote_path
            &&& records[i].last_modified == files[i].last_modified
            &&& records[i].size_bytes == files[i].size_bytes
            &&& status_text(records[i].status) == files[i].status
        }),
{
    assert(status_of(files[i].status) is Some);
    law_status_round_trip(status_of(files[i].status)->0, files[i].status);
}

/// A filter lists exactly the paths in which it occurs, wherever and in the same case; without a
/// filter every file is listed.
pub proof fn law_filters_are_sought_anywhere(
    file: FileView,
    before: Seq<char>,
    filter: Seq<char>,
    behind: Seq<char>,
    status: Seq<char>,
)
    ensures
        file.remote_path == before + filter + behind ==> is_listed(file, Some(filter), None),
        is_listed(file, Some(filter), None) ==> exists|a: Seq<char>, b: Seq<char>|
            file.remote_path == #[trigger] (a + filter + b),
        is_listed(file, None, None),
        is_listed(file, None, Some(status)) <==> file.status == status,
        is_listed(file, Some(filter), Some(status)) <==> is_listed(file, Some(filter), None)
            && file.status == status,
{
    let path = file.remote_path;
    if path == before + filter + behind {
        let k = before.len() as int;
        assert(path.subrange(k, k + filter.len()) =~= filter);
        assert(occurs_at(path, filter, k));
    }
    if is_listed(file, Some(filter), None) {
        let k = choose|k: int| occurs_at(path, filter, k);
        let a = path.take(k);
        let b = path.skip(k + filter.len());
        assert(path =~= a + path.subrange(k, k + filter.len()) + b);
        assert(path == a + filter + b);
    }
}

/// A listing is in the order of the paths, and files with the same path in that of their ids.  It
/// shows at most five hundred files, and fewer only if there are no more.
pub proof fn law_listings_are_ordered_by_path(
    files: Seq<FileView>,
    path_filter: Option<Seq<char>>,
    status_filter: Option<Seq<char>>,
    rows: Seq<FileView>,
    i: int,
    j: int,
    file: FileView,
)
    requires
        is_listing(rows, files, path_filter, status_filter),
        0 <= i < j < rows.len(),
    ensures
        rows[i].remote_path != rows[j].remote_path ==> text_before(
            rows[i].remote_path,
            rows[j].remote_path,
        ),
        rows[i].remote_path == rows[j].remote_path ==> rows[i].id < rows[j].id,
        rows.len() <= 500,
        rows.len() < 500 && files.contains(file) && is_listed(file, path_filter, status_filter)
            ==> rows.contains(file),
        files.contains(file) && is_listed(file, path_filter, status_filter) && !rows.contains(file)
            ==> rows.len() == 500 && path_before(rows[i], file),
{
    let before = |x: FileView, y: FileView| path_before(x, y);
    let selected = listed(files, path_filter, status_filter);
    let p = |f: FileView| is_listed(f, path_filter, status_filter);
    let all = choose|all: Seq<FileView>| #[trigger]
        arranges(all, selected, before) && rows == first_of(all, LIST_LIMIT as nat);
    assert(before(all[i], all[j]));
    lemma_text_order(rows[i].remote_path, rows[j].remote_path, rows[i].remote_path);
    law_listing_is_faithful(files, path_filter, status_filter, rows, file);
    if files.contains(file) && is_listed(file, path_filter, status_filter) && !rows.contains(file) {
        let k = choose|k: int| 0 <= k < files.len() && files[k] == file;
        files.lemma_filter_contains(p, k);
        let m = choose|m: int| 0 <= m < selected.len() && selected[m] == file;
        assert(all.contains(selected[m]));
        let n = choose|n: int| 0 <= n < all.len() && all[n] == file;
        if n < rows.len() {
            assert(rows[n] == file);
        }
        assert(before(all[i], all[n]));
    }
}

/// Paths compare by their first difference: by the characters there, or by which of them ends.
pub proof fn law_texts_compare_by_their_first_difference(
    common: Seq<char>,
    a: Seq<char>,
    b: Seq<char>,
)
    requires
        a.len() > 0 && b.len() > 0 ==> a[0] != b[0],
    ensures
        text_before(common + a, common + b) <==> b.len() > 0 && (a.len() == 0 || a[0] < b[0]),
    decreases common.len(),
{
    if common.len() > 0 {
        let rest = common.skip(1);
        assert((common + a).skip(1) =~= rest + a);
        assert((common + b).skip(1) =~= rest + b);
        law_texts_compare_by_their_first_difference(rest, a, b);
    } else {
        assert(common + a =~= a);
        assert(common + b =~= b);
    }
}

/// A directory that was not queued is added behind the others: it waits, at the depth that was
/// given.  One that was queued stays as it is, and so do all others.
pub proof fn law_queued_directories_wait(
    db: DbView,
    url: Seq<char>,
    depth: i64,
    now: Seq<char>,
    after: DbView,
)
    requires
        enqueued(db, url, depth, now) == Ok::<DbView, DbError>(after),
    ensures
        (forall|i: int| 0 <= i < db.queue.len() ==> (#[trigger] db.queue[i]).url != url) ==> {
            &&& after.queue.len() == db.queue.len() + 1
            &&& after.queue.drop_last() == db.queue
            &&& after.queue.last() == (CrawlView {
                id: after.queue.last().id,
                url,
                status: "pending"@,
                depth,
                discovered_at: now,
            })
            &&& after.queue.last().id == after.last_crawl_id
        },
        (exists|i: int| 0 <= i < db.queue.len() && (#[trigger] db.queue[i]).url == url)
            ==> after.queue == db.queue,
        after.last_crawl_id > db.last_crawl_id,
        after.files == db.files,
        after.folders == db.folders,
        after.last_file_id == db.last_file_id,
{
    if forall|i: int| 0 <= i < db.queue.len() ==> (#[trigger] db.queue[i]).url != url {
        assert(after.queue.drop_last() =~= db.queue);
    }
}

/// A directory waits exactly if its row says so; what is taken from the queue is its id, its
/// address and its depth.
pub proof fn law_waiting_directories_are_pending(queue: Seq<CrawlView>, entry: CrawlEntryView)
    ensures
        pending_entries(queue).contains(entry) <==> exists|i: int|
            0 <= i < queue.len() && (#[trigger] queue[i]).status == "pending"@ && queue[i].id
                == entry.id && queue[i].url == entry.url && queue[i].depth == entry.depth,
        crawl_is_pending(queue) <==> exists|i: int|
            0 <= i < queue.len() && (#[trigger] queue[i]).status == "pending"@,
{
    let f = |row: CrawlView| pending_entry(row);
    lemma_picked(queue, f, entry);
    if pending_entries(queue).contains(entry) {
        let i = choose|i: int| 0 <= i < queue.len() && #[trigger] f(queue[i]) == Some(entry);
        assert(queue[i].status == "pending"@);
    }
    if exists|i: int|
        0 <= i < queue.len() && (#[trigger] queue[i]).status == "pending"@ && queue[i].id == entry.id
            && queue[i].url == entry.url && queue[i].depth == entry.depth {
        let i = choose|i: int|
            0 <= i < queue.len() && (#[trigger] queue[i]).status == "pending"@ && queue[i].id
                == entry.id && queue[i].url == entry.url && queue[i].depth == entry.depth;
        assert(f(queue[i]) == Some(entry));
    }
}

/// A batch takes the directories that lie least deep, and of those the ones that were queued
/// first.
pub proof fn law_shallow_directories_come_first(
    entries: Seq<CrawlEntryView>,
    queue: Seq<CrawlView>,
    limit: nat,
    i: int,
    waiting: CrawlEntryView,
)
    requires
        is_next_batch(entries, queue, limit),
        pending_entries(queue).contains(waiting),
        !entries.contains(waiting),
        0 <= i < entries.len(),
    ensures
        entries.len() == limit,
        entries[i].depth < waiting.depth || (entries[i].depth == waiting.depth && entries[i].id
            < waiting.id),
        pending_entries(queue).contains(entries[i]),
{
    let before = |a: CrawlEntryView, b: CrawlEntryView| depth_before(a, b);
    let rows = pending_entries(queue);
    let all = choose|all: Seq<CrawlEntryView>| #[trigger]
        arranges(all, rows, before) && entries == first_of(all, limit);
    let k = choose|k: int| 0 <= k < rows.len() && rows[k] == waiting;
    assert(all.contains(rows[k]));
    let m = choose|m: int| 0 <= m < all.len() && all[m] == waiting;
    if m < entries.len() {
        assert(entries[m] == waiting);
    }
    assert(before(all[i], all[m]));
    assert(rows.contains(all[i]));
}

/// Marking a directory changes its status alone, and no other row.
pub proof fn law_marks_change_one_status(row: CrawlView, id: i64, status: Seq<char>)
    ensures
        row.id == id ==> with_crawl_status(row, id, status) == (CrawlView { status, ..row }),
        row.id != id ==> with_crawl_status(row, id, status) == row,
        row.status == "error"@ ==> retried(row) == (CrawlView { status: "pending"@, ..row }),
        row.status != "error"@ ==> retried(row) == row,
{
}

/// Saving folders changes the folders alone.
pub proof fn law_saving_folders_keeps_the_rest(db: DbView, folders: Seq<FolderView>)
    ensures
        folders_saved(db, folders).folders == folders,
        folders_saved(db, folders).files == db.files,
        folders_saved(db, folders).queue == db.queue,
        folders_saved(db, folders).last_file_id == db.last_file_id,
        folders_saved(db, folders).last_crawl_id == db.last_crawl_id,
{
}

/// A new id is one more than the greatest that is in use or was ever given.
pub proof fn law_ids_go_up_by_one(top: Option<i64>, last: i64, id: i64)
    requires
        last >= 0,
    ensures
        next_id(top, last) == Some(id) ==> {
            &&& id > last
            &&& top matches Some(used) ==> id > used
            &&& id == last + 1 || (top matches Some(used) && id == used + 1)
        },
        next_id(top, last) is None <==> last == i64::MAX || top == Some(i64::MAX),
{
}

/// A queued directory gets an id that is greater than all in the queue.
pub proof fn law_queue_ids_are_fresh(
    db: DbView,
    url: Seq<char>,
    depth: i64,
    now: Seq<char>,
    after: DbView,
    i: int,
)
    requires
        tables_ok(db),
        enqueued(db, url, depth, now) == Ok::<DbView, DbError>(after),
        after.queue.len() > db.queue.len(),
        0 <= i < db.queue.len(),
    ensures
        after.queue.last().id > db.queue[i].id,
        after.queue.last().id > db.last_crawl_id,
{
    if i < db.queue.len() - 1 {
        assert(db.queue[i].id < db.queue[db.queue.len() - 1].id);
    }
}

/// A directory is queued as long as ids are left.
pub proof fn law_directories_can_be_queued(db: DbView, url: Seq<char>, depth: i64, now: Seq<char>)
    requires
        db.last_crawl_id < i64::MAX,
        forall|i: int| 0 <= i < db.queue.len() ==> (#[trigger] db.queue[i]).id < i64::MAX,
    ensures
        enqueued(db, url, depth, now) is Ok,
{
    if db.queue.len() > 0 {
        assert(db.queue[db.queue.len() - 1].id < i64::MAX);
    }
}

} // verus!
