//! The state tables: their rows, what holds of them, and how they are loaded.
use vstd::prelude::*;

use crate::order::{are_distinct, distinct, views};
use crate::text::{same_text, text_view};

verus! {

// ---------------------------------------------------------------------------
// Rows
// ---------------------------------------------------------------------------

/// A row of the table of files.
#[derive(Debug)]
pub struct FileRow {
    pub id: i64,
    pub remote_url: String,
    pub remote_path: String,
    pub last_modified: Option<String>,
    pub size_bytes: Option<i64>,
    pub local_path: Option<String>,
    pub status: String,
    pub error_message: Option<String>,
    pub retry_count: i64,
    pub discovered_at: String,
    pub completed_at: Option<String>,
    pub checksum_sha256: Option<String>,
}

/// A row of the crawl queue.
#[derive(Debug)]
pub struct CrawlRow {
    pub id: i64,
    pub url: String,
    pub status: String,
    pub depth: i64,
    pub discovered_at: String,
}

/// A top-level folder that the user selected or left out.
#[derive(Debug, Clone)]
pub struct SelectedFolder {
    pub path: String,
    pub enabled: bool,
    pub size_bytes: Option<i64>,
}

/// The contents of a `FileRow`.
#[verifier::ext_equal]
pub struct FileView {
    pub id: i64,
    pub remote_url: Seq<char>,
    pub remote_path: Seq<char>,
    pub last_modified: Option<Seq<char>>,
    pub size_bytes: Option<i64>,
    pub local_path: Option<Seq<char>>,
    pub status: Seq<char>,
    pub error_message: Option<Seq<char>>,
    pub retry_count: i64,
    pub discovered_at: Seq<char>,
    pub completed_at: Option<Seq<char>>,
    pub checksum_sha256: Option<Seq<char>>,
}

/// The contents of a `CrawlRow`.
#[verifier::ext_equal]
pub struct CrawlView {
    pub id: i64,
    pub url: Seq<char>,
    pub status: Seq<char>,
    pub depth: i64,
    pub discovered_at: Seq<char>,
}

/// The contents of a `SelectedFolder`.
#[verifier::ext_equal]
pub struct FolderView {
    pub path: Seq<char>,
    pub enabled: bool,
    pub size_bytes: Option<i64>,
}

impl View for FileRow {
    type V = FileView;

    open spec fn view(&self) -> FileView {
        FileView {
            id: self.id,
            remote_url: self.remote_url@,
            remote_path: self.remote_path@,
            last_modified: text_view(self.last_modified),
            size_bytes: self.size_bytes,
            local_path: text_view(self.local_path),
            status: self.status@,
            error_message: text_view(self.error_message),
            retry_count: self.retry_count,
            discovered_at: self.discovered_at@,
            completed_at: text_view(self.completed_at),
            checksum_sha256: text_view(self.checksum_sha256),
        }
    }
}

impl View for CrawlRow {
    type V = CrawlView;

    open spec fn view(&self) -> CrawlView {
        CrawlView {
            id: self.id,
            url: self.url@,
            status: self.status@,
            depth: self.depth,
            discovered_at: self.discovered_at@,
        }
    }
}

impl View for SelectedFolder {
    type V = FolderView;

    open spec fn view(&self) -> FolderView {
        FolderView { path: self.path@, enabled: self.enabled, size_bytes: self.size_bytes }
    }
}

/// A copy of an optional text.
pub fn copy_text(text: &Option<String>) -> (r: Option<String>)
    ensures
        text_view(r) == text_view(*text),
{
    match text {
        Some(t) => Some(t.clone()),
        None => None,
    }
}

/// An optional text as a string of its own.
pub fn own_text(text: Option<&str>) -> (r: Option<String>)
    ensures
        text_view(r) == opt_text(text),
{
    match text {
        Some(t) => Some(t.to_owned()),
        None => None,
    }
}

/// The text of an optional string slice.
pub open spec fn opt_text(text: Option<&str>) -> Option<Seq<char>> {
    match text {
        Some(t) => Some(t@),
        None => None,
    }
}

impl FileRow {
    /// A copy of the row.
    pub fn copy(&self) -> (r: Self)
        ensures
            r@ == self@,
    {
        FileRow {
            id: self.id,
            remote_url: self.remote_url.clone(),
            remote_path: self.remote_path.clone(),
            last_modified: copy_text(&self.last_modified),
            size_bytes: self.size_bytes,
            local_path: copy_text(&self.local_path),
            status: self.status.clone(),
            error_message: copy_text(&self.error_message),
            retry_count: self.retry_count,
            discovered_at: self.discovered_at.clone(),
            completed_at: copy_text(&self.completed_at),
            checksum_sha256: copy_text(&self.checksum_sha256),
        }
    }
}

impl CrawlRow {
    /// A copy of the row.
    pub fn copy(&self) -> (r: Self)
        ensures
            r@ == self@,
    {
        CrawlRow {
            id: self.id,
            url: self.url.clone(),
            status: self.status.clone(),
            depth: self.depth,
            discovered_at: self.discovered_at.clone(),
        }
    }
}

impl SelectedFolder {
    /// A copy of the row.
    pub fn copy(&self) -> (r: Self)
        ensures
            r@ == self@,
    {
        SelectedFolder {
            path: self.path.clone(),
            enabled: self.enabled,
            size_bytes: self.size_bytes,
        }
    }
}

// ---------------------------------------------------------------------------
// Tables
// ---------------------------------------------------------------------------

/// The state tables.  Rows of files and of the crawl queue stand in the order of their ids.
#[derive(Debug)]
pub struct Database {
    pub files: Vec<FileRow>,
    pub queue: Vec<CrawlRow>,
    pub folders: Vec<SelectedFolder>,
    /// The greatest id that was ever set aside for a file.
    pub last_file_id: i64,
    /// The greatest id that was ever set aside for an entry of the crawl queue.
    pub last_crawl_id: i64,
    /// The id of the row that was inserted last, into whichever table.
    pub last_insert_rowid: i64,
}

/// The contents of a `Database`.
#[verifier::ext_equal]
pub struct DbView {
    pub files: Seq<FileView>,
    pub queue: Seq<CrawlView>,
    pub folders: Seq<FolderView>,
    pub last_file_id: i64,
    pub last_crawl_id: i64,
    pub last_insert_rowid: i64,
}

/// The contents of rows of files.
pub open spec fn file_views(rows: Seq<FileRow>) -> Seq<FileView> {
    rows.map_values(|row: FileRow| row@)
}

/// The contents of rows of the crawl queue.
pub open spec fn crawl_views(rows: Seq<CrawlRow>) -> Seq<CrawlView> {
    rows.map_values(|row: CrawlRow| row@)
}

/// The contents of selected folders.
pub open spec fn folder_views(rows: Seq<SelectedFolder>) -> Seq<FolderView> {
    rows.map_values(|row: SelectedFolder| row@)
}

impl View for Database {
    type V = DbView;

    open spec fn view(&self) -> DbView {
        DbView {
            files: file_views(self.files@),
            queue: crawl_views(self.queue@),
            folders: folder_views(self.folders@),
            last_file_id: self.last_file_id,
            last_crawl_id: self.last_crawl_id,
            last_insert_rowid: self.last_insert_rowid,
        }
    }
}

/// Rows of files stand in the order of their ids, no two have the same URL, and they can be
/// counted.
pub open spec fn files_ok(files: Seq<FileView>) -> bool {
    &&& files.len() <= i64::MAX
    &&& forall|i: int, j: int|
        0 <= i < j < files.len() ==> (#[trigger] files[i]).id < (#[trigger] files[j]).id
    &&& forall|i: int, j: int|
        0 <= i < j < files.len() ==> (#[trigger] files[i]).remote_url != (
        #[trigger] files[j]).remote_url
}

/// Entries of the crawl queue stand in the order of their ids, and no two have the same URL.
pub open spec fn queue_ok(queue: Seq<CrawlView>) -> bool {
    &&& forall|i: int, j: int|
        0 <= i < j < queue.len() ==> (#[trigger] queue[i]).id < (#[trigger] queue[j]).id
    &&& forall|i: int, j: int|
        0 <= i < j < queue.len() ==> (#[trigger] queue[i]).url != (#[trigger] queue[j]).url
}

/// No two selected folders have the same path.
pub open spec fn folders_ok(folders: Seq<FolderView>) -> bool {
    forall|i: int, j: int|
        0 <= i < j < folders.len() ==> (#[trigger] folders[i]).path != (#[trigger] folders[j]).path
}

/// What holds of the tables at all times.
pub open spec fn tables_ok(db: DbView) -> bool {
    &&& files_ok(db.files)
    &&& queue_ok(db.queue)
    &&& folders_ok(db.folders)
}

/// The id that is set aside next: one more than the greatest id in the table and the greatest
/// one that was ever set aside.  `None` if there is no such number.
pub open spec fn next_id(top: Option<i64>, last: i64) -> Option<i64> {
    let used = match top {
        Some(id) => id,
        None => 0,
    };
    let base = if used > last {
        used
    } else {
        last
    };
    if base == i64::MAX {
        None
    } else {
        Some((base + 1) as i64)
    }
}

/// The greatest id of a file.
pub open spec fn top_file_id(files: Seq<FileView>) -> Option<i64> {
    if files.len() == 0 {
        None
    } else {
        Some(files.last().id)
    }
}

/// The greatest id in the crawl queue.
pub open spec fn top_crawl_id(queue: Seq<CrawlView>) -> Option<i64> {
    if queue.len() == 0 {
        None
    } else {
        Some(queue.last().id)
    }
}

/// The id that is set aside next.
pub fn id_after(top: Option<i64>, last: i64) -> (r: Option<i64>)
    ensures
        r == next_id(top, last),
{
    let used: i64 = match top {
        Some(id) => id,
        None => 0,
    };
    let base: i64 = if used > last {
        used
    } else {
        last
    };
    if base == i64::MAX {
        None
    } else {
        Some(base + 1)
    }
}

/// Whether some folder before position `n` has the path `path`.
pub fn folder_taken(folders: &Vec<SelectedFolder>, n: usize, path: &str) -> (r: bool)
    requires
        n <= folders@.len(),
    ensures
        r == exists|i: int| 0 <= i < n && folder_views(folders@)[i].path == path@,
{
    let mut i: usize = 0;
    while i < n
        invariant
            i <= n <= folders@.len(),
            forall|k: int| 0 <= k < i ==> folder_views(folders@)[k].path != path@,
        decreases n - i,
    {
        assert(folder_views(folders@)[i as int].path == folders@[i as int].path@);
        if same_text(folders[i].path.as_str(), path) {
            return true;
        }
        i += 1;
    }
    false
}

/// Whether rows of files are in order.
fn check_files(files: &Vec<FileRow>) -> (r: bool)
    ensures
        r == files_ok(file_views(files@)),
{
    let ghost rows: Seq<FileView> = file_views(files@);
    if files.len() as u64 > i64::MAX as u64 {
        return false;
    }
    let mut urls: Vec<String> = Vec::new();
    let mut i: usize = 0;
    while i < files.len()
        invariant
            i <= files@.len() <= i64::MAX,
            rows == file_views(files@),
            urls@.len() == i,
            forall|k: int| 0 <= k < i ==> (#[trigger] urls@[k])@ == rows[k].remote_url,
            forall|k: int, l: int|
                0 <= k < l < i ==> (#[trigger] rows[k]).id < (#[trigger] rows[l]).id,
        decreases files.len() - i,
    {
        proof {
            assert(rows[i as int] == files@[i as int]@);
            if i > 0 {
                assert(rows[i - 1] == files@[i - 1]@);
            }
        }
        let id: i64 = files[i].id;
        if i > 0 && files[i - 1].id >= id {
            return false;
        }
        urls.push(files[i].remote_url.clone());
        i += 1;
    }
    proof {
        let keys = views(urls@);
        assert forall|k: int| 0 <= k < rows.len() implies keys[k] == (
        #[trigger] rows[k]).remote_url by {
            assert(keys[k] == urls@[k]@);
        }
        if distinct(keys) {
            assert forall|k: int, l: int| 0 <= k < l < rows.len() implies (
            #[trigger] rows[k]).remote_url != (#[trigger] rows[l]).remote_url by {
                assert(keys[k] != keys[l]);
            }
        } else {
            let (k, l) = choose|k: int, l: int|
                0 <= k < l < keys.len() && #[trigger] keys[k] == #[trigger] keys[l];
            assert(rows[k].remote_url == rows[l].remote_url);
        }
    }
    are_distinct(&urls)
}

/// Whether entries of the crawl queue are in order.
fn check_queue(queue: &Vec<CrawlRow>) -> (r: bool)
    ensures
        r == queue_ok(crawl_views(queue@)),
{
    let ghost rows: Seq<CrawlView> = crawl_views(queue@);
    let mut urls: Vec<String> = Vec::new();
    let mut i: usize = 0;
    while i < queue.len()
        invariant
            i <= queue@.len(),
            rows == crawl_views(queue@),
            urls@.len() == i,
            forall|k: int| 0 <= k < i ==> (#[trigger] urls@[k])@ == rows[k].url,
            forall|k: int, l: int|
                0 <= k < l < i ==> (#[trigger] rows[k]).id < (#[trigger] rows[l]).id,
        decreases queue.len() - i,
    {
        proof {
            assert(rows[i as int] == queue@[i as int]@);
            if i > 0 {
                assert(rows[i - 1] == queue@[i - 1]@);
            }
        }
        let id: i64 = queue[i].id;
        if i > 0 && queue[i - 1].id >= id {
            return false;
        }
        urls.push(queue[i].url.clone());
        i += 1;
    }
    proof {
        let keys = views(urls@);
        assert forall|k: int| 0 <= k < rows.len() implies keys[k] == (#[trigger] rows[k]).url by {
            assert(keys[k] == urls@[k]@);
        }
        if distinct(keys) {
            assert forall|k: int, l: int| 0 <= k < l < rows.len() implies (#[trigger] rows[k]).url
                != (#[trigger] rows[l]).url by {
                assert(keys[k] != keys[l]);
            }
        } else {
            let (k, l) = choose|k: int, l: int|
                0 <= k < l < keys.len() && #[trigger] keys[k] == #[trigger] keys[l];
            assert(rows[k].url == rows[l].url);
        }
    }
    are_distinct(&urls)
}

/// Whether `n` is the first position at which a path repeats an earlier one.
pub open spec fn repeats_at(folders: Seq<FolderView>, n: int) -> bool {
    &&& 0 <= n < folders.len()
    &&& folders_ok(folders.take(n))
    &&& exists|i: int| 0 <= i < n && (#[trigger] folders[i]).path == folders[n].path
}

/// The first position at which a path repeats an earlier one.
pub fn first_repeat(folders: &Vec<SelectedFolder>) -> (r: Option<usize>)
    ensures
        match r {
            Some(n) => repeats_at(folder_views(folders@), n as int) && !folders_ok(
                folder_views(folders@),
            ),
            None => folders_ok(folder_views(folders@)),
        },
{
    let ghost views: Seq<FolderView> = folder_views(folders@);
    let mut i: usize = 0;
    while i < folders.len()
        invariant
            i <= folders@.len(),
            views == folder_views(folders@),
            folders_ok(views.take(i as int)),
        decreases folders.len() - i,
    {
        let ghost longer: Seq<FolderView> = views.take(i + 1);
        let ghost shorter: Seq<FolderView> = views.take(i as int);
        assert(views[i as int] == folders@[i as int]@);
        if folder_taken(folders, i, folders[i].path.as_str()) {
            proof {
                let k = choose|k: int| 0 <= k < i && views[k].path == folders@[i as int].path@;
                assert(views[k].path == views[i as int].path);
            }
            return Some(i);
        }
        proof {
            assert forall|a: int, b: int| 0 <= a < b < longer.len() implies (
            #[trigger] longer[a]).path != (#[trigger] longer[b]).path by {
                if b < i {
                    assert(shorter[a].path != shorter[b].path);
                }
            }
        }
        i += 1;
    }
    assert(views.take(i as int) =~= views);
    None
}

impl Database {
    /// Empty tables.
    pub fn new() -> (r: Self)
        ensures
            r@ == (DbView {
                files: Seq::empty(),
                queue: Seq::empty(),
                folders: Seq::empty(),
                last_file_id: 0,
                last_crawl_id: 0,
                last_insert_rowid: 0,
            }),
            tables_ok(r@),
    {
        let db = Database {
            files: Vec::new(),
            queue: Vec::new(),
            folders: Vec::new(),
            last_file_id: 0,
            last_crawl_id: 0,
            last_insert_rowid: 0,
        };
        assert(db@.files =~= Seq::empty());
        assert(db@.queue =~= Seq::empty());
        assert(db@.folders =~= Seq::empty());
        db
    }

    /// Tables with rows that were read from storage; `None` if they do not hang together.
    pub fn load(
        files: Vec<FileRow>,
        queue: Vec<CrawlRow>,
        folders: Vec<SelectedFolder>,
        last_file_id: i64,
        last_crawl_id: i64,
        last_insert_rowid: i64,
    ) -> (r: Option<Self>)
        ensures
            match r {
                Some(db) => tables_ok(db@) && db.files == files && db.queue == queue && db.folders
                    == folders && db.last_file_id == last_file_id && db.last_crawl_id
                    == last_crawl_id && db.last_insert_rowid == last_insert_rowid,
                None => !(files_ok(file_views(files@)) && queue_ok(crawl_views(queue@))
                    && folders_ok(folder_views(folders@))),
            },
    {
        if !check_files(&files) || !check_queue(&queue) {
            return None;
        }
        match first_repeat(&folders) {
            Some(_) => None,
            None => Some(
                Database { files, queue, folders, last_file_id, last_crawl_id, last_insert_rowid },
            ),
        }
    }

    /// A copy of the tables.
    pub fn copy(&self) -> (r: Self)
        ensures
            r@ == self@,
    {
        let mut files: Vec<FileRow> = Vec::new();
        let mut i: usize = 0;
        while i < self.files.len()
            invariant
                i <= self.files@.len(),
                files@.len() == i,
                forall|k: int| 0 <= k < i ==> (#[trigger] files@[k])@ == self.files@[k]@,
            decreases self.files.len() - i,
        {
            files.push(self.files[i].copy());
            i += 1;
        }
        let mut queue: Vec<CrawlRow> = Vec::new();
        let mut j: usize = 0;
        while j < self.queue.len()
            invariant
                j <= self.queue@.len(),
                queue@.len() == j,
                forall|k: int| 0 <= k < j ==> (#[trigger] queue@[k])@ == self.queue@[k]@,
            decreases self.queue.len() - j,
        {
            queue.push(self.queue[j].copy());
            j += 1;
        }
        let mut folders: Vec<SelectedFolder> = Vec::new();
        let mut l: usize = 0;
        while l < self.folders.len()
            invariant
                l <= self.folders@.len(),
                folders@.len() == l,
                forall|k: int| 0 <= k < l ==> (#[trigger] folders@[k])@ == self.folders@[k]@,
            decreases self.folders.len() - l,
        {
            folders.push(self.folders[l].copy());
            l += 1;
        }
        assert(file_views(files@) =~= file_views(self.files@));
        assert(crawl_views(queue@) =~= crawl_views(self.queue@));
        assert(folder_views(folders@) =~= folder_views(self.folders@));
        Database {
            files,
            queue,
            folders,
            last_file_id: self.last_file_id,
            last_crawl_id: self.last_crawl_id,
            last_insert_rowid: self.last_insert_rowid,
        }
    }
}

} // verus!
