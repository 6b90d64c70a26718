//! What an operation changed in the tables, for the storage that keeps them.
use vstd::prelude::*;

use crate::db::models::copy_folders;
use crate::db::tables::{
    crawl_views, file_views, files_ok, folder_views, queue_ok, tables_ok, CrawlRow, CrawlView,
    Database, DbView, FileRow, FileView, SelectedFolder,
};
use crate::order::views;
use crate::text::{same_text, text_view};

verus! {

// ---------------------------------------------------------------------------
// Rows with ids
// ---------------------------------------------------------------------------

/// The rows that are new or differ from those before.
pub open spec fn altered<V>(before: Seq<V>, after: Seq<V>) -> Seq<V> {
    after.filter(|row: V| !before.contains(row))
}

/// Whether some row has the id `id`.
pub open spec fn holds_id(ids: Seq<i64>, id: i64) -> bool {
    exists|i: int| 0 <= i < ids.len() && #[trigger] ids[i] == id
}

/// The ids that are there no more.
pub open spec fn gone(before: Seq<i64>, after: Seq<i64>) -> Seq<i64> {
    before.filter(|id: i64| !holds_id(after, id))
}

/// The ids of files.
pub open spec fn file_ids(files: Seq<FileView>) -> Seq<i64> {
    files.map_values(|f: FileView| f.id)
}

/// The ids of the crawl queue.
pub open spec fn crawl_ids(queue: Seq<CrawlView>) -> Seq<i64> {
    queue.map_values(|row: CrawlView| row.id)
}

/// A row that is stored under its id.
trait Stored: View + Sized {
    spec fn key(row: Self::V) -> i64;

    fn id(&self) -> (r: i64)
        ensures
            r == Self::key(self@),
    ;

    fn is_same(&self, other: &Self) -> (r: bool)
        ensures
            r == (self@ == other@),
    ;

    fn twin(&self) -> (r: Self)
        ensures
            r@ == self@,
    ;
}

/// Whether two optional texts are equal.
fn same_option(a: &Option<String>, b: &Option<String>) -> (r: bool)
    ensures
        r == (text_view(*a) == text_view(*b)),
{
    match (a, b) {
        (Some(x), Some(y)) => same_text(x.as_str(), y.as_str()),
        (None, None) => true,
        _ => false,
    }
}

/// Whether two optional numbers are equal.
fn same_number(a: Option<i64>, b: Option<i64>) -> (r: bool)
    ensures
        r == (a == b),
{
    match (a, b) {
        (Some(x), Some(y)) => x == y,
        (None, None) => true,
        _ => false,
    }
}

impl Stored for FileRow {
    spec fn key(row: FileView) -> i64 {
        row.id
    }

    fn id(&self) -> (r: i64) {
        self.id
    }

    fn is_same(&self, other: &Self) -> (r: bool) {
        self.id == other.id && same_text(self.remote_url.as_str(), other.remote_url.as_str())
            && same_text(self.remote_path.as_str(), other.remote_path.as_str()) && same_option(
            &self.last_modified,
            &other.last_modified,
        ) && same_number(self.size_bytes, other.size_bytes) && same_option(
            &self.local_path,
            &other.local_path,
        ) && same_text(self.status.as_str(), other.status.as_str()) && same_option(
            &self.error_message,
            &other.error_message,
        ) && self.retry_count == other.retry_count && same_text(
            self.discovered_at.as_str(),
            other.discovered_at.as_str(),
        ) && same_option(&self.completed_at, &other.completed_at) && same_option(
            &self.checksum_sha256,
            &other.checksum_sha256,
        )
    }

    fn twin(&self) -> (r: Self) {
        self.copy()
    }
}

impl Stored for CrawlRow {
    spec fn key(row: CrawlView) -> i64 {
        row.id
    }

    fn id(&self) -> (r: i64) {
        self.id
    }

    fn is_same(&self, other: &Self) -> (r: bool) {
        self.id == other.id && same_text(self.url.as_str(), other.url.as_str()) && same_text(
            self.status.as_str(),
            other.status.as_str(),
        ) && self.depth == other.depth && same_text(
            self.discovered_at.as_str(),
            other.discovered_at.as_str(),
        )
    }

    fn twin(&self) -> (r: Self) {
        self.copy()
    }
}

/// Whether rows stand in the order of their ids.
spec fn in_order<R: Stored>(rows: Seq<R>) -> bool {
    forall|i: int, j: int|
        0 <= i < j < rows.len() ==> R::key((#[trigger] rows[i])@) < R::key((#[trigger] rows[j])@)
}

/// The ids of rows.
spec fn ids_of<R: Stored>(rows: Seq<R>) -> Seq<i64> {
    rows.map_values(|row: R| R::key(row@))
}

/// Copies of the rows that are new or differ from those before.  Both stand in the order of
/// their ids, so that one pass suffices.
fn altered_rows<R: Stored>(before: &Vec<R>, after: &Vec<R>) -> (r: Vec<R>)
    requires
        in_order(before@),
        in_order(after@),
    ensures
        views(r@) == altered(views(before@), views(after@)),
{
    let ghost old_rows: Seq<R::V> = views(before@);
    let ghost new_rows: Seq<R::V> = views(after@);
    let ghost p = |row: R::V| !old_rows.contains(row);
    let mut out: Vec<R> = Vec::new();
    let mut j: usize = 0;
    let mut i: usize = 0;
    proof {
        reveal(Seq::filter);
        assert(new_rows.take(0).filter(p) =~= Seq::<R::V>::empty());
        assert(views(out@) =~= Seq::<R::V>::empty());
    }
    while i < after.len()
        invariant
            i <= after@.len(),
            j <= before@.len(),
            in_order(before@),
            in_order(after@),
            old_rows == views(before@),
            new_rows == views(after@),
            p == (|row: R::V| !old_rows.contains(row)),
            views(out@) == new_rows.take(i as int).filter(p),
            forall|k: int, l: int|
                0 <= k < j && i <= l < after@.len() ==> R::key((#[trigger] before@[k])@) < R::key(
                    (#[trigger] after@[l])@,
                ),
        decreases after.len() - i,
    {
        let id: i64 = after[i].id();
        while j < before.len() && before[j].id() < id
            invariant
                i < after@.len(),
                j <= before@.len(),
                in_order(after@),
                id == R::key(after@[i as int]@),
                forall|k: int, l: int|
                    0 <= k < j && i <= l < after@.len() ==> R::key((#[trigger] before@[k])@)
                        < R::key((#[trigger] after@[l])@),
            decreases before.len() - j,
        {
            j += 1;
        }
        let known: bool = j < before.len() && before[j].is_same(&after[i]);
        proof {
            let row = new_rows[i as int];
            assert(row == after@[i as int]@);
            assert(new_rows.take(i + 1) =~= new_rows.take(i as int).push(row));
            new_rows.take(i as int).lemma_filter_push(row, p);
            if known {
                assert(old_rows[j as int] == row);
            }
            if old_rows.contains(row) {
                let m = choose|m: int| 0 <= m < old_rows.len() && old_rows[m] == row;
                assert(old_rows[m] == before@[m]@);
                assert(m >= j);
                assert(m == j);
            }
            assert(known == old_rows.contains(row));
        }
        if !known {
            let ghost so_far: Seq<R::V> = views(out@);
            out.push(after[i].twin());
            assert(views(out@) =~= so_far.push(new_rows[i as int]));
        }
        i += 1;
    }
    assert(new_rows.take(i as int) =~= new_rows);
    out
}

/// The ids of the rows that are there no more.
fn gone_ids<R: Stored>(before: &Vec<R>, after: &Vec<R>) -> (r: Vec<i64>)
    requires
        in_order(before@),
        in_order(after@),
    ensures
        r@ == gone(ids_of(before@), ids_of(after@)),
{
    let ghost old_ids: Seq<i64> = ids_of(before@);
    let ghost new_ids: Seq<i64> = ids_of(after@);
    let ghost p = |id: i64| !holds_id(new_ids, id);
    let mut out: Vec<i64> = Vec::new();
    let mut j: usize = 0;
    let mut i: usize = 0;
    proof {
        reveal(Seq::filter);
        assert(old_ids.take(0).filter(p) =~= Seq::<i64>::empty());
    }
    while i < before.len()
        invariant
            i <= before@.len(),
            j <= after@.len(),
            in_order(before@),
            in_order(after@),
            old_ids == ids_of(before@),
            new_ids == ids_of(after@),
            p == (|id: i64| !holds_id(new_ids, id)),
            out@ == old_ids.take(i as int).filter(p),
            forall|k: int, l: int|
                0 <= k < j && i <= l < before@.len() ==> R::key((#[trigger] after@[k])@) < R::key(
                    (#[trigger] before@[l])@,
                ),
        decreases before.len() - i,
    {
        let id: i64 = before[i].id();
        while j < after.len() && after[j].id() < id
            invariant
                i < before@.len(),
                j <= after@.len(),
                in_order(before@),
                id == R::key(before@[i as int]@),
                forall|k: int, l: int|
                    0 <= k < j && i <= l < before@.len() ==> R::key((#[trigger] after@[k])@)
                        < R::key((#[trigger] before@[l])@),
            decreases after.len() - j,
        {
            j += 1;
        }
        let kept: bool = j < after.len() && after[j].id() == id;
        proof {
            assert(old_ids[i as int] == id);
            assert(old_ids.take(i + 1) =~= old_ids.take(i as int).push(id));
            old_ids.take(i as int).lemma_filter_push(id, p);
            if kept {
                assert(new_ids[j as int] == id);
            }
            if holds_id(new_ids, id) {
                let m = choose|m: int| 0 <= m < new_ids.len() && #[trigger] new_ids[m] == id;
                assert(new_ids[m] == R::key(after@[m]@));
                assert(m >= j);
                assert(m == j);
            }
            assert(kept == holds_id(new_ids, id));
        }
        if !kept {
            out.push(id);
        }
        i += 1;
    }
    assert(old_ids.take(i as int) =~= old_ids);
    out
}

// ---------------------------------------------------------------------------
// Changes
// ---------------------------------------------------------------------------

/// What has to be stored: rows that are new or differ, and ids of rows that are gone.
#[derive(Debug)]
pub struct Changes {
    pub files: Vec<FileRow>,
    pub gone_files: Vec<i64>,
    pub queue: Vec<CrawlRow>,
    pub gone_entries: Vec<i64>,
    /// All selected folders, if they differ.
    pub folders: Option<Vec<SelectedFolder>>,
    /// The greatest id that was ever set aside for a file, if it differs.
    pub last_file_id: Option<i64>,
    /// The greatest id that was ever set aside for an entry of the crawl queue, if it differs.
    pub last_crawl_id: Option<i64>,
}

/// Whether changes are those from one state of the tables to another.
pub open spec fn are_changes(changes: Changes, before: DbView, after: DbView) -> bool {
    &&& file_views(changes.files@) == altered(before.files, after.files)
    &&& changes.gone_files@ == gone(file_ids(before.files), file_ids(after.files))
    &&& crawl_views(changes.queue@) == altered(before.queue, after.queue)
    &&& changes.gone_entries@ == gone(crawl_ids(before.queue), crawl_ids(after.queue))
    &&& match changes.folders {
        Some(folders) => folder_views(folders@) == after.folders && before.folders != after.folders,
        None => before.folders == after.folders,
    }
    &&& changes.last_file_id == (if before.last_file_id == after.last_file_id {
        None
    } else {
        Some(after.last_file_id)
    })
    &&& changes.last_crawl_id == (if before.last_crawl_id == after.last_crawl_id {
        None
    } else {
        Some(after.last_crawl_id)
    })
}

/// Whether selected folders are the same.
fn same_folders(a: &Vec<SelectedFolder>, b: &Vec<SelectedFolder>) -> (r: bool)
    ensures
        r == (folder_views(a@) == folder_views(b@)),
{
    let ghost x = folder_views(a@);
    let ghost y = folder_views(b@);
    if a.len() != b.len() {
        assert(x.len() != y.len());
        return false;
    }
    let mut i: usize = 0;
    while i < a.len()
        invariant
            i <= a@.len(),
            a@.len() == b@.len(),
            x == folder_views(a@),
            y == folder_views(b@),
            forall|k: int| 0 <= k < i ==> x[k] == y[k],
        decreases a.len() - i,
    {
        let same: bool = same_text(a[i].path.as_str(), b[i].path.as_str()) && a[i].enabled
            == b[i].enabled && same_number(a[i].size_bytes, b[i].size_bytes);
        assert(x[i as int] == a@[i as int]@ && y[i as int] == b@[i as int]@);
        if !same {
            assert(x[i as int] != y[i as int]);
            return false;
        }
        i += 1;
    }
    assert(x =~= y);
    true
}

impl Database {
    /// What changed in the tables since they were as in `before`.
    pub fn changes_since(&self, before: &Database) -> (r: Changes)
        requires
            tables_ok(before@),
            tables_ok(self@),
        ensures
            are_changes(r, before@, self@),
    {
        proof {
            assert(in_order(before.files@)) by {
                assert forall|i: int, j: int| 0 <= i < j < before.files@.len() implies (
                #[trigger] before.files@[i])@.id < (#[trigger] before.files@[j])@.id by {
                    assert(before@.files[i].id < before@.files[j].id);
                }
            }
            assert(in_order(self.files@)) by {
                assert forall|i: int, j: int| 0 <= i < j < self.files@.len() implies (
                #[trigger] self.files@[i])@.id < (#[trigger] self.files@[j])@.id by {
                    assert(self@.files[i].id < self@.files[j].id);
                }
            }
            assert(in_order(before.queue@)) by {
                assert forall|i: int, j: int| 0 <= i < j < before.queue@.len() implies (
                #[trigger] before.queue@[i])@.id < (#[trigger] before.queue@[j])@.id by {
                    assert(before@.queue[i].id < before@.queue[j].id);
                }
            }
            assert(in_order(self.queue@)) by {
                assert forall|i: int, j: int| 0 <= i < j < self.queue@.len() implies (
                #[trigger] self.queue@[i])@.id < (#[trigger] self.queue@[j])@.id by {
                    assert(self@.queue[i].id < self@.queue[j].id);
                }
            }
            assert(views(before.files@) =~= before@.files);
            assert(views(self.files@) =~= self@.files);
            assert(views(before.queue@) =~= before@.queue);
            assert(views(self.queue@) =~= self@.queue);
            assert(ids_of(before.files@) =~= file_ids(before@.files));
            assert(ids_of(self.files@) =~= file_ids(self@.files));
            assert(ids_of(before.queue@) =~= crawl_ids(before@.queue));
            assert(ids_of(self.queue@) =~= crawl_ids(self@.queue));
        }
        let files: Vec<FileRow> = altered_rows(&before.files, &self.files);
        let queue: Vec<CrawlRow> = altered_rows(&before.queue, &self.queue);
        assert(views(files@) =~= file_views(files@));
        assert(views(queue@) =~= crawl_views(queue@));
        Changes {
            files,
            gone_files: gone_ids(&before.files, &self.files),
            queue,
            gone_entries: gone_ids(&before.queue, &self.queue),
            folders: if same_folders(&before.folders, &self.folders) {
                None
            } else {
                Some(copy_folders(&self.folders))
            },
            last_file_id: if before.last_file_id == self.last_file_id {
                None
            } else {
                Some(self.last_file_id)
            },
            last_crawl_id: if before.last_crawl_id == self.last_crawl_id {
                None
            } else {
                Some(self.last_crawl_id)
            },
        }
    }
}

// ---------------------------------------------------------------------------
// Laws
// ---------------------------------------------------------------------------

/// What a storage holds under an id: the row with that id.
pub open spec fn stored_file(files: Seq<FileView>, id: i64) -> Option<FileView> {
    if exists|i: int| 0 <= i < files.len() && (#[trigger] files[i]).id == id {
        Some(files[choose|i: int| 0 <= i < files.len() && (#[trigger] files[i]).id == id])
    } else {
        None
    }
}

/// Storing the changes turns what was stored before into what is in the tables: under every id
/// the row that differs, nothing where the row is gone, and else what was there.
pub proof fn law_storing_changes_catches_up(before: Seq<FileView>, after: Seq<FileView>, id: i64)
    requires
        files_ok(before),
        files_ok(after),
    ensures
        stored_file(after, id) == (match stored_file(altered(before, after), id) {
            Some(row) => Some(row),
            None => if gone(file_ids(before), file_ids(after)).contains(id) {
                None
            } else {
                stored_file(before, id)
            },
        }),
{
    let p = |row: FileView| !before.contains(row);
    let q = |i: i64| !holds_id(file_ids(after), i);
    let new_rows = altered(before, after);
    let old_ids = file_ids(before);
    let lost = gone(old_ids, file_ids(after));
    if exists|i: int| 0 <= i < after.len() && (#[trigger] after[i]).id == id {
        let i = choose|i: int| 0 <= i < after.len() && (#[trigger] after[i]).id == id;
        assert(file_ids(after)[i] == id);
        if lost.contains(id) {
            let k = choose|k: int| 0 <= k < lost.len() && lost[k] == id;
            old_ids.lemma_filter_pred(q, k);
        }
        if before.contains(after[i]) {
            let m = choose|m: int| 0 <= m < before.len() && before[m] == after[i];
            assert(stored_file(before, id) == Some(after[i]));
            if exists|k: int| 0 <= k < new_rows.len() && (#[trigger] new_rows[k]).id == id {
                let k = choose|k: int| 0 <= k < new_rows.len() && (#[trigger] new_rows[k]).id == id;
                after.lemma_filter_pred(p, k);
                after.lemma_filter_contains_rev(p, new_rows[k]);
                let l = choose|l: int| 0 <= l < after.len() && after[l] == new_rows[k];
                assert(l == i);
            }
        } else {
            after.lemma_filter_contains(p, i);
            let k = choose|k: int| 0 <= k < new_rows.len() && new_rows[k] == after[i];
            assert(new_rows[k].id == id);
            let k2 = choose|k: int| 0 <= k < new_rows.len() && (#[trigger] new_rows[k]).id == id;
            after.lemma_filter_contains_rev(p, new_rows[k2]);
            let l = choose|l: int| 0 <= l < after.len() && after[l] == new_rows[k2];
            assert(l == i);
        }
    } else {
        if exists|k: int| 0 <= k < new_rows.len() && (#[trigger] new_rows[k]).id == id {
            let k = choose|k: int| 0 <= k < new_rows.len() && (#[trigger] new_rows[k]).id == id;
            after.lemma_filter_contains_rev(p, new_rows[k]);
            let l = choose|l: int| 0 <= l < after.len() && after[l] == new_rows[k];
            assert(after[l].id == id);
        }
        if exists|i: int| 0 <= i < before.len() && (#[trigger] before[i]).id == id {
            let i = choose|i: int| 0 <= i < before.len() && (#[trigger] before[i]).id == id;
            assert(old_ids[i] == id);
            assert(!holds_id(file_ids(after), id)) by {
                if holds_id(file_ids(after), id) {
                    let k = choose|k: int|
                        0 <= k < file_ids(after).len() && #[trigger] file_ids(after)[k] == id;
                    assert(after[k].id == id);
                }
            }
            old_ids.lemma_filter_contains(q, i);
        }
    }
}

/// The row of a crawl queue under an id.
pub open spec fn stored_entry(queue: Seq<CrawlView>, id: i64) -> Option<CrawlView> {
    if exists|i: int| 0 <= i < queue.len() && (#[trigger] queue[i]).id == id {
        Some(queue[choose|i: int| 0 <= i < queue.len() && (#[trigger] queue[i]).id == id])
    } else {
        None
    }
}

/// The same of the crawl queue.
pub proof fn law_storing_queue_changes_catches_up(before: Seq<CrawlView>, after: Seq<CrawlView>, id: i64)
    requires
        queue_ok(before),
        queue_ok(after),
    ensures
        stored_entry(after, id) == (match stored_entry(altered(before, after), id) {
            Some(row) => Some(row),
            None => if gone(crawl_ids(before), crawl_ids(after)).contains(id) {
                None
            } else {
                stored_entry(before, id)
            },
        }),
{
    let p = |row: CrawlView| !before.contains(row);
    let q = |i: i64| !holds_id(crawl_ids(after), i);
    let new_rows = altered(before, after);
    let old_ids = crawl_ids(before);
    let lost = gone(old_ids, crawl_ids(after));
    if exists|i: int| 0 <= i < after.len() && (#[trigger] after[i]).id == id {
        let i = choose|i: int| 0 <= i < after.len() && (#[trigger] after[i]).id == id;
        assert(crawl_ids(after)[i] == id);
        if lost.contains(id) {
            let k = choose|k: int| 0 <= k < lost.len() && lost[k] == id;
            old_ids.lemma_filter_pred(q, k);
        }
        if before.contains(after[i]) {
            let m = choose|m: int| 0 <= m < before.len() && before[m] == after[i];
            assert(stored_entry(before, id) == Some(after[i]));
            if exists|k: int| 0 <= k < new_rows.len() && (#[trigger] new_rows[k]).id == id {
                let k = choose|k: int| 0 <= k < new_rows.len() && (#[trigger] new_rows[k]).id == id;
                after.lemma_filter_pred(p, k);
                after.lemma_filter_contains_rev(p, new_rows[k]);
                let l = choose|l: int| 0 <= l < after.len() && after[l] == new_rows[k];
                assert(l == i);
            }
        } else {
            after.lemma_filter_contains(p, i);
            let k = choose|k: int| 0 <= k < new_rows.len() && new_rows[k] == after[i];
            assert(new_rows[k].id == id);
            let k2 = choose|k: int| 0 <= k < new_rows.len() && (#[trigger] new_rows[k]).id == id;
            after.lemma_filter_contains_rev(p, new_rows[k2]);
            let l = choose|l: int| 0 <= l < after.len() && after[l] == new_rows[k2];
            assert(l == i);
        }
    } else {
        if exists|k: int| 0 <= k < new_rows.len() && (#[trigger] new_rows[k]).id == id {
            let k = choose|k: int| 0 <= k < new_rows.len() && (#[trigger] new_rows[k]).id == id;
            after.lemma_filter_contains_rev(p, new_rows[k]);
            let l = choose|l: int| 0 <= l < after.len() && after[l] == new_rows[k];
            assert(after[l].id == id);
        }
        if exists|i: int| 0 <= i < before.len() && (#[trigger] before[i]).id == id {
            let i = choose|i: int| 0 <= i < before.len() && (#[trigger] before[i]).id == id;
            assert(old_ids[i] == id);
            assert(!holds_id(crawl_ids(after), id)) by {
                if holds_id(crawl_ids(after), id) {
                    let k = choose|k: int|
                        0 <= k < crawl_ids(after).len() && #[trigger] crawl_ids(after)[k] == id;
                    assert(after[k].id == id);
                }
            }
            old_ids.lemma_filter_contains(q, i);
        }
    }
}

/// The selection and the last ids are caught up with, too: where a change is noted it is what is in
/// the tables, and where none is what was stored before still holds.
pub proof fn law_noted_changes_are_complete(changes: Changes, before: DbView, after: DbView)
    requires
        are_changes(changes, before, after),
    ensures
        after.folders == (match changes.folders {
            Some(folders) => folder_views(folders@),
            None => before.folders,
        }),
        after.last_file_id == (match changes.last_file_id {
            Some(id) => id,
            None => before.last_file_id,
        }),
        after.last_crawl_id == (match changes.last_crawl_id {
            Some(id) => id,
            None => before.last_crawl_id,
        }),
        before == after ==> changes.folders is None && changes.last_file_id is None
            && changes.last_crawl_id is None && changes.files@.len() == 0 && changes.queue@.len()
            == 0 && changes.gone_files@.len() == 0 && changes.gone_entries@.len() == 0,
{
    if before == after {
        lemma_nothing_altered(before.files);
        lemma_nothing_altered(before.queue);
        lemma_nothing_gone(file_ids(before.files));
        lemma_nothing_gone(crawl_ids(before.queue));
        assert(file_views(changes.files@).len() == changes.files@.len());
        assert(crawl_views(changes.queue@).len() == changes.queue@.len());
    }
}

proof fn lemma_nothing_altered<V>(rows: Seq<V>)
    ensures
        altered(rows, rows).len() == 0,
{
    let p = |row: V| !rows.contains(row);
    if altered(rows, rows).len() > 0 {
        let row = altered(rows, rows)[0];
        rows.lemma_filter_pred(p, 0);
        rows.lemma_filter_contains_rev(p, row);
    }
}

proof fn lemma_nothing_gone(ids: Seq<i64>)
    ensures
        gone(ids, ids).len() == 0,
{
    let p = |id: i64| !holds_id(ids, id);
    if gone(ids, ids).len() > 0 {
        let id = gone(ids, ids)[0];
        ids.lemma_filter_pred(p, 0);
        ids.lemma_filter_contains_rev(p, id);
        let i = choose|i: int| 0 <= i < ids.len() && ids[i] == id;
        assert(holds_id(ids, id));
    }
}

} // verus!
