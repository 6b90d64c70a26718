//! The rows of the state tables and every operation on them.
use vstd::prelude::*;

use crate::db::tables::{
    copy_text, crawl_views, file_views, first_repeat, folder_views, folders_ok, id_after, next_id,
    opt_text, own_text, repeats_at, tables_ok, top_crawl_id, top_file_id,
};
use crate::db::tables::{
    CrawlRow, CrawlView, Database, DbView, FileRow, FileView, FolderView, SelectedFolder,
};
use crate::order::{
    arrange, arranges, arranges_first, comes_before, distinct, first_of, lemma_text_order,
    rank_order, text_before, views, Ranked,
};
use crate::crawler::filter::contains_string;
use crate::text::{chars_of, contains_text, occurs_in, same_text, text_view, texts};

verus! {

// ---------------------------------------------------------------------------
// File statuses
// ---------------------------------------------------------------------------

/// How far a file has come.
#[derive(Debug, Clone, Copy, PartialEq, Eq, Structural)]
pub enum FileStatus {
    Pending,
    Downloading,
    Done,
    Error,
    Skipped,
}

/// The text by which a status is stored.
pub open spec fn status_text(status: FileStatus) -> Seq<char> {
    match status {
        FileStatus::Pending => "pending"@,
        FileStatus::Downloading => "downloading"@,
        FileStatus::Done => "done"@,
        FileStatus::Error => "error"@,
        FileStatus::Skipped => "skipped"@,
    }
}

/// The status that a text denotes.
pub open spec fn status_of(text: Seq<char>) -> Option<FileStatus> {
    if text == "pending"@ {
        Some(FileStatus::Pending)
    } else if text == "downloading"@ {
        Some(FileStatus::Downloading)
    } else if text == "done"@ {
        Some(FileStatus::Done)
    } else if text == "error"@ {
        Some(FileStatus::Error)
    } else if text == "skipped"@ {
        Some(FileStatus::Skipped)
    } else {
        None
    }
}

/// The texts of the statuses differ from one another.
pub proof fn lemma_status_texts()
    ensures
        "pending"@ != "downloading"@,
        "pending"@ != "done"@,
        "pending"@ != "error"@,
        "pending"@ != "skipped"@,
        "downloading"@ != "done"@,
        "downloading"@ != "error"@,
        "downloading"@ != "skipped"@,
        "done"@ != "error"@,
        "done"@ != "skipped"@,
        "error"@ != "skipped"@,
{
    reveal_strlit("pending");
    reveal_strlit("downloading");
    reveal_strlit("done");
    reveal_strlit("error");
    reveal_strlit("skipped");
    assert("pending"@[0] == 'p' && "error"@[0] == 'e' && "skipped"@[0] == 's');
    assert("pending"@.len() == 7 && "downloading"@.len() == 11 && "done"@.len() == 4);
    assert("error"@.len() == 5 && "skipped"@.len() == 7);
}

impl FileStatus {
    /// The text by which the status is stored.
    pub fn as_str(&self) -> (r: &'static str)
        ensures
            r@ == status_text(*self),
    {
        match self {
            FileStatus::Pending => "pending",
            FileStatus::Downloading => "downloading",
            FileStatus::Done => "done",
            FileStatus::Error => "error",
            FileStatus::Skipped => "skipped",
        }
    }

    /// The status that a text denotes; any other text is named in the error.
    pub fn parse(s: &str) -> (r: Result<FileStatus, String>)
        ensures
            match r {
                Ok(status) => status_of(s@) == Some(status),
                Err(message) => status_of(s@) is None && message@ == "unknown file status: "@ + s@,
            },
    {
        if same_text(s, "pending") {
            Ok(FileStatus::Pending)
        } else if same_text(s, "downloading") {
            Ok(FileStatus::Downloading)
        } else if same_text(s, "done") {
            Ok(FileStatus::Done)
        } else if same_text(s, "error") {
            Ok(FileStatus::Error)
        } else if same_text(s, "skipped") {
            Ok(FileStatus::Skipped)
        } else {
            let mut message: String = "unknown file status: ".to_owned();
            message.append(s);
            Err(message)
        }
    }
}

impl std::str::FromStr for FileStatus {
    type Err = String;

    /// The status that a text denotes; any other text is named in the error.
    fn from_str(s: &str) -> (r: Result<Self, String>)
        ensures
            match r {
                Ok(status) => status_of(s@) == Some(status),
                Err(message) => status_of(s@) is None && message@ == "unknown file status: "@ + s@,
            },
    {
        FileStatus::parse(s)
    }
}

/// Reading back the text of a status gives the status, and only its own text does.
pub proof fn law_status_round_trip(status: FileStatus, text: Seq<char>)
    ensures
        status_of(status_text(status)) == Some(status),
        status_of(text) == Some(status) <==> text == status_text(status),
{
    lemma_status_texts();
}

// ---------------------------------------------------------------------------
// Rows
// ---------------------------------------------------------------------------

/// A file as the program uses it.
#[derive(Debug, Clone)]
pub struct FileRecord {
    pub id: i64,
    pub remote_url: String,
    pub remote_path: String,
    pub last_modified: Option<String>,
    pub size_bytes: Option<i64>,
    pub status: FileStatus,
}

/// A directory that waits to be crawled.
#[derive(Debug, Clone)]
pub struct CrawlEntry {
    pub id: i64,
    pub url: String,
    pub depth: i64,
}

// ---------------------------------------------------------------------------
// Errors
// ---------------------------------------------------------------------------

/// Why an operation on the tables failed.
#[derive(Debug, Clone, Copy, PartialEq, Eq, Structural)]
pub enum DbError {
    /// No ids are left for new rows.
    Full,
    /// A row would get a status that the table refuses.
    InvalidStatus,
    /// A row has a status that is not known.
    UnknownStatus,
    /// A sum is too large.
    Overflow,
    /// A path occurs twice among the selected folders.
    DuplicateFolder,
}

// ---------------------------------------------------------------------------
// File operations
// ---------------------------------------------------------------------------

/// Whether some file has the URL `url`.
pub open spec fn holds_file(files: Seq<FileView>, url: Seq<char>) -> bool {
    exists|i: int| 0 <= i < files.len() && (#[trigger] files[i]).remote_url == url
}

/// Whether a time of modification is known to have changed: both are known and they differ.
pub open spec fn changed(old_time: Option<Seq<char>>, new_time: Option<Seq<char>>) -> bool {
    old_time is Some && new_time is Some && old_time != new_time
}

/// A known file after it was discovered again.  A finished file changes only if its time of
/// modification is known to have changed; it is then pending again, and so are skipped and
/// failed files in any case.
pub open spec fn rediscovered(
    file: FileView,
    last_modified: Option<Seq<char>>,
    size_bytes: Option<i64>,
) -> FileView {
    if file.status == "done"@ && !changed(file.last_modified, last_modified) {
        file
    } else {
        FileView {
            last_modified,
            size_bytes,
            status: if file.status == "done"@ || file.status == "skipped"@ || file.status
                == "error"@ {
                "pending"@
            } else {
                file.status
            },
            ..file
        }
    }
}

/// A file that was discovered for the first time.
pub open spec fn discovered(
    id: i64,
    remote_url: Seq<char>,
    remote_path: Seq<char>,
    last_modified: Option<Seq<char>>,
    size_bytes: Option<i64>,
    now: Seq<char>,
) -> FileView {
    FileView {
        id,
        remote_url,
        remote_path,
        last_modified,
        size_bytes,
        local_path: None,
        status: "pending"@,
        error_message: None,
        retry_count: 0,
        discovered_at: now,
        completed_at: None,
        checksum_sha256: None,
    }
}

/// The tables after a file was discovered.  Each discovery sets an id aside, also that of a
/// known file.  They are full if no id is left, or if one more file could not be counted.
pub open spec fn upserted(
    db: DbView,
    remote_url: Seq<char>,
    remote_path: Seq<char>,
    last_modified: Option<Seq<char>>,
    size_bytes: Option<i64>,
    now: Seq<char>,
) -> Result<DbView, DbError> {
    let next = next_id(top_file_id(db.files), db.last_file_id);
    if next is None || (!holds_file(db.files, remote_url) && db.files.len() >= i64::MAX) {
        Err(DbError::Full)
    } else if holds_file(db.files, remote_url) {
        if exists|i: int|
            0 <= i < db.files.len() && (#[trigger] db.files[i]).remote_url == remote_url
                && status_of(db.files[i].status) is None {
            Err(DbError::InvalidStatus)
        } else {
            Ok(
                DbView {
                    files: db.files.map_values(
                        |f: FileView|
                            if f.remote_url == remote_url {
                                rediscovered(f, last_modified, size_bytes)
                            } else {
                                f
                            },
                    ),
                    last_file_id: next->0,
                    ..db
                },
            )
        }
    } else {
        let id = next->0;
        Ok(
            DbView {
                files: db.files.push(
                    discovered(id, remote_url, remote_path, last_modified, size_bytes, now),
                ),
                last_file_id: id,
                last_insert_rowid: id,
                ..db
            },
        )
    }
}

/// The position of the file with the URL `url`.
fn find_file(files: &Vec<FileRow>, url: &str) -> (r: Option<usize>)
    ensures
        match r {
            Some(i) => i < files@.len() && files@[i as int].remote_url@ == url@,
            None => !holds_file(file_views(files@), url@),
        },
{
    let wanted: String = url.to_owned();
    let mut i: usize = 0;
    while i < files.len()
        invariant
            i <= files@.len(),
            wanted@ == url@,
            forall|k: int| 0 <= k < i ==> (#[trigger] file_views(files@)[k]).remote_url != url@,
        decreases files.len() - i,
    {
        assert(file_views(files@)[i as int].remote_url == files@[i as int].remote_url@);
        if files[i].remote_url == wanted {
            return Some(i);
        }
        i += 1;
    }
    None
}

/// Whether a text is the status `wanted`.
fn has_status(row: &FileRow, wanted: &str) -> (r: bool)
    ensures
        r == (row@.status == wanted@),
{
    same_text(row.status.as_str(), wanted)
}

/// Whether a time of modification is known to have changed.
fn has_changed(old_time: &Option<String>, new_time: Option<&str>) -> (r: bool)
    ensures
        r == changed(text_view(*old_time), opt_text(new_time)),
{
    match (old_time, new_time) {
        (Some(a), Some(b)) => !same_text(a.as_str(), b),
        _ => false,
    }
}

/// Inserts a discovered file, or updates the known one with the same URL.
///
/// The result is the id of the row that was inserted last.
pub fn upsert_file(
    db: &mut Database,
    remote_url: &str,
    remote_path: &str,
    last_modified: Option<&str>,
    size_bytes: Option<i64>,
    now: &str,
) -> (r: Result<i64, DbError>)
    requires
        tables_ok(old(db)@),
    ensures
        tables_ok(final(db)@),
        match r {
            Ok(id) => upserted(
                old(db)@,
                remote_url@,
                remote_path@,
                opt_text(last_modified),
                size_bytes,
                now@,
            ) == Ok::<DbView, DbError>(final(db)@) && id == final(db)@.last_insert_rowid,
            Err(e) => upserted(
                old(db)@,
                remote_url@,
                remote_path@,
                opt_text(last_modified),
                size_bytes,
                now@,
            ) == Err::<DbView, DbError>(e) && final(db)@ == old(db)@,
        },
{
    let ghost before: DbView = db@;
    let count: usize = db.files.len();
    let top: Option<i64> = if count == 0 {
        None
    } else {
        Some(db.files[count - 1].id)
    };
    assert(top == top_file_id(before.files));
    let id: i64 = match id_after(top, db.last_file_id) {
        Some(id) => id,
        None => {
            return Err(DbError::Full);
        },
    };
    match find_file(&db.files, remote_url) {
        Some(i) => {
            proof {
                assert(before.files[i as int] == db.files@[i as int]@);
                assert(holds_file(before.files, remote_url@));
            }
            match FileStatus::parse(db.files[i].status.as_str()) {
                Ok(_) => {},
                Err(_) => {
                    return Err(DbError::InvalidStatus);
                },
            }
            let done: bool = has_status(&db.files[i], "done");
            if !done || has_changed(&db.files[i].last_modified, last_modified) {
                let reset: bool = done || has_status(&db.files[i], "skipped") || has_status(
                    &db.files[i],
                    "error",
                );
                if reset {
                    db.files[i].status = "pending".to_owned();
                }
                db.files[i].last_modified = own_text(last_modified);
                db.files[i].size_bytes = size_bytes;
            }
            db.last_file_id = id;
            proof {
                let f = |f: FileView|
                    if f.remote_url == remote_url@ {
                        rediscovered(f, opt_text(last_modified), size_bytes)
                    } else {
                        f
                    };
                assert(db@.files =~= before.files.map_values(f));
                assert(upserted(
                    before,
                    remote_url@,
                    remote_path@,
                    opt_text(last_modified),
                    size_bytes,
                    now@,
                ) is Ok);
            }
        },
        None => {
            if count as u64 == i64::MAX as u64 {
                return Err(DbError::Full);
            }
            db.files.push(
                FileRow {
                    id,
                    remote_url: remote_url.to_owned(),
                    remote_path: remote_path.to_owned(),
                    last_modified: own_text(last_modified),
                    size_bytes,
                    local_path: None,
                    status: "pending".to_owned(),
                    error_message: None,
                    retry_count: 0,
                    discovered_at: now.to_owned(),
                    completed_at: None,
                    checksum_sha256: None,
                },
            );
            db.last_file_id = id;
            db.last_insert_rowid = id;
            proof {
                assert(db@.files =~= before.files.push(
                    discovered(
                        id,
                        remote_url@,
                        remote_path@,
                        opt_text(last_modified),
                        size_bytes,
                        now@,
                    ),
                ));
            }
        },
    }
    Ok(db.last_insert_rowid)
}

// ---------------------------------------------------------------------------
// Reading files
// ---------------------------------------------------------------------------

/// The contents of a `FileRecord`.
#[verifier::ext_equal]
pub struct RecordView {
    pub id: i64,
    pub remote_url: Seq<char>,
    pub remote_path: Seq<char>,
    pub last_modified: Option<Seq<char>>,
    pub size_bytes: Option<i64>,
    pub status: FileStatus,
}

impl View for FileRecord {
    type V = RecordView;

    open spec fn view(&self) -> RecordView {
        RecordView {
            id: self.id,
            remote_url: self.remote_url@,
            remote_path: self.remote_path@,
            last_modified: text_view(self.last_modified),
            size_bytes: self.size_bytes,
            status: self.status,
        }
    }
}

/// The record of a file, if its status is known.
pub open spec fn record_of(file: FileView) -> Option<RecordView> {
    match status_of(file.status) {
        Some(status) => Some(
            RecordView {
                id: file.id,
                remote_url: file.remote_url,
                remote_path: file.remote_path,
                last_modified: file.last_modified,
                size_bytes: file.size_bytes,
                status,
            },
        ),
        None => None,
    }
}

/// The records of files, if all their statuses are known.
pub open spec fn records_of(files: Seq<FileView>) -> Option<Seq<RecordView>> {
    if forall|i: int| 0 <= i < files.len() ==> status_of((#[trigger] files[i]).status) is Some {
        Some(files.map_values(|f: FileView| record_of(f)->0))
    } else {
        None
    }
}

/// The contents of file records.
pub open spec fn record_views(records: Seq<FileRecord>) -> Seq<RecordView> {
    records.map_values(|r: FileRecord| r@)
}

impl FileRecord {
    /// The record of a row; it fails exactly if the status is not known.
    pub fn from_row(row: &FileRow) -> (r: Result<FileRecord, DbError>)
        ensures
            match r {
                Ok(record) => record_of(row@) == Some(record@),
                Err(e) => record_of(row@) is None && e == DbError::UnknownStatus,
            },
    {
        match FileStatus::parse(row.status.as_str()) {
            Ok(status) => Ok(
                FileRecord {
                    id: row.id,
                    remote_url: row.remote_url.clone(),
                    remote_path: row.remote_path.clone(),
                    last_modified: copy_text(&row.last_modified),
                    size_bytes: row.size_bytes,
                    status,
                },
            ),
            Err(_) => Err(DbError::UnknownStatus),
        }
    }

    /// A copy of the record.
    pub fn copy(&self) -> (r: Self)
        ensures
            r@ == self@,
    {
        FileRecord {
            id: self.id,
            remote_url: self.remote_url.clone(),
            remote_path: self.remote_path.clone(),
            last_modified: copy_text(&self.last_modified),
            size_bytes: self.size_bytes,
            status: self.status,
        }
    }
}

/// The records of rows.
fn records_from(rows: &Vec<FileRow>) -> (r: Result<Vec<FileRecord>, DbError>)
    ensures
        match r {
            Ok(records) => records_of(file_views(rows@)) == Some(record_views(records@)),
            Err(e) => records_of(file_views(rows@)) is None && e == DbError::UnknownStatus,
        },
{
    let ghost files: Seq<FileView> = file_views(rows@);
    let mut records: Vec<FileRecord> = Vec::new();
    let mut i: usize = 0;
    while i < rows.len()
        invariant
            i <= rows@.len(),
            files == file_views(rows@),
            records@.len() == i,
            forall|k: int| 0 <= k < i ==> status_of((#[trigger] files[k]).status) is Some,
            forall|k: int| 0 <= k < i ==> Some((#[trigger] records@[k])@) == record_of(files[k]),
        decreases rows.len() - i,
    {
        assert(files[i as int] == rows@[i as int]@);
        match FileRecord::from_row(&rows[i]) {
            Ok(record) => records.push(record),
            Err(e) => {
                return Err(e);
            },
        }
        i += 1;
    }
    assert(record_views(records@) =~= files.map_values(|f: FileView| record_of(f)->0));
    Ok(records)
}

/// The files with a status, in the order of their ids.
pub open spec fn with_status(files: Seq<FileView>, status: Seq<char>) -> Seq<FileView> {
    files.filter(|f: FileView| f.status == status)
}

/// Copies of the first `limit` rows with a status.
fn rows_with_status(files: &Vec<FileRow>, status: &str, limit: usize) -> (r: Vec<FileRow>)
    ensures
        file_views(r@) == first_of(with_status(file_views(files@), status@), limit as nat),
{
    let ghost all: Seq<FileView> = file_views(files@);
    let ghost p = |f: FileView| f.status == status@;
    let mut rows: Vec<FileRow> = Vec::new();
    let mut i: usize = 0;
    proof {
        reveal(Seq::filter);
        assert(all.take(0).filter(p) =~= Seq::<FileView>::empty());
        assert(file_views(rows@) =~= all.take(0).filter(p));
    }
    while i < files.len() && rows.len() < limit
        invariant
            i <= files@.len(),
            rows@.len() <= limit,
            all == file_views(files@),
            p == (|f: FileView| f.status == status@),
            file_views(rows@) == all.take(i as int).filter(p),
        decreases files.len() - i,
    {
        let ghost before: Seq<FileView> = file_views(rows@);
        proof {
            assert(all[i as int] == files@[i as int]@);
            assert(all.take(i + 1) =~= all.take(i as int).push(all[i as int]));
            all.take(i as int).lemma_filter_push(all[i as int], p);
        }
        if same_text(files[i].status.as_str(), status) {
            let row: FileRow = files[i].copy();
            rows.push(row);
            assert(file_views(rows@) =~= before.push(all[i as int]));
        }
        i += 1;
    }
    proof {
        let found = all.filter(p);
        assert(all =~= all.take(i as int) + all.skip(i as int));
        Seq::filter_distributes_over_add(all.take(i as int), all.skip(i as int), p);
        if i == files@.len() {
            assert(all.take(i as int) =~= all);
        }
        assert(file_views(rows@) =~= first_of(found, limit as nat));
    }
    rows
}

/// All files with the given status, in the order of their ids.
pub fn files_by_status(db: &Database, status: &str) -> (r: Result<Vec<FileRecord>, DbError>)
    ensures
        match r {
            Ok(records) => records_of(with_status(db@.files, status@)) == Some(
                record_views(records@),
            ),
            Err(e) => records_of(with_status(db@.files, status@)) is None && e
                == DbError::UnknownStatus,
        },
{
    proof {
        db@.files.lemma_filter_len(|f: FileView| f.status == status@);
    }
    let rows: Vec<FileRow> = rows_with_status(&db.files, status, db.files.len());
    records_from(&rows)
}

/// Up to `limit` files with the given status, those with the smallest ids.
pub fn files_by_status_limited(db: &Database, status: &str, limit: usize) -> (r: Result<
    Vec<FileRecord>,
    DbError,
>)
    ensures
        match r {
            Ok(records) => records_of(first_of(with_status(db@.files, status@), limit as nat))
                == Some(record_views(records@)),
            Err(e) => records_of(first_of(with_status(db@.files, status@), limit as nat)) is None
                && e == DbError::UnknownStatus,
        },
{
    let rows: Vec<FileRow> = rows_with_status(&db.files, status, limit);
    records_from(&rows)
}

/// The number of files with a status.
pub open spec fn count_with(files: Seq<FileView>, status: Seq<char>) -> nat {
    with_status(files, status).len()
}

/// The number of files with a status.
fn count_status(files: &Vec<FileRow>, status: &str) -> (r: usize)
    ensures
        r == count_with(file_views(files@), status@),
        r <= files@.len(),
{
    let ghost all: Seq<FileView> = file_views(files@);
    let ghost p = |f: FileView| f.status == status@;
    let mut n: usize = 0;
    let mut i: usize = 0;
    proof {
        reveal(Seq::filter);
        assert(all.take(0).filter(p) =~= Seq::<FileView>::empty());
    }
    while i < files.len()
        invariant
            i <= files@.len(),
            n <= i,
            all == file_views(files@),
            p == (|f: FileView| f.status == status@),
            n == all.take(i as int).filter(p).len(),
        decreases files.len() - i,
    {
        proof {
            assert(all[i as int] == files@[i as int]@);
            assert(all.take(i + 1) =~= all.take(i as int).push(all[i as int]));
            all.take(i as int).lemma_filter_push(all[i as int], p);
        }
        if same_text(files[i].status.as_str(), status) {
            n += 1;
        }
        i += 1;
    }
    assert(all.take(i as int) =~= all);
    n
}

/// The number of pending files.
pub fn pending_count(db: &Database) -> (r: i64)
    requires
        tables_ok(db@),
    ensures
        r == count_with(db@.files, "pending"@),
{
    count_status(&db.files, "pending") as i64
}

/// Whether `tallies` gives the number of files for each status that occurs, in the order of the
/// statuses' texts.
pub open spec fn tallies_statuses(tallies: Seq<(Seq<char>, i64)>, files: Seq<FileView>) -> bool {
    &&& forall|i: int, j: int|
        0 <= i < j < tallies.len() ==> text_before(
            (#[trigger] tallies[i]).0,
            (#[trigger] tallies[j]).0,
        )
    &&& forall|i: int|
        0 <= i < tallies.len() ==> 0 < (#[trigger] tallies[i]).1 == count_with(files, tallies[i].0)
    &&& forall|k: int|
        0 <= k < files.len() ==> is_tallied(tallies, (#[trigger] files[k]).status)
}

/// Whether a status is among the tallied ones.
pub open spec fn is_tallied(tallies: Seq<(Seq<char>, i64)>, status: Seq<char>) -> bool {
    exists|i: int| 0 <= i < tallies.len() && (#[trigger] tallies[i]).0 == status
}

/// The contents of tallies.
pub open spec fn tally_views(tallies: Seq<(String, i64)>) -> Seq<(Seq<char>, i64)> {
    tallies.map_values(|t: (String, i64)| (t.0@, t.1))
}

/// A status that occurs is counted.
proof fn lemma_counted(files: Seq<FileView>, k: int)
    requires
        0 <= k < files.len(),
    ensures
        count_with(files, files[k].status) > 0,
{
    let p = |f: FileView| f.status == files[k].status;
    files.lemma_filter_contains(p, k);
}

/// Whether each of the texts is the status of some file.
#[verifier::opaque]
spec fn all_occur(found: Seq<Seq<char>>, files: Seq<FileView>) -> bool {
    forall|i: int| 0 <= i < found.len() ==> occurs(files, #[trigger] found[i])
}

/// Whether some file has the status `text`.
#[verifier::opaque]
spec fn occurs(files: Seq<FileView>, text: Seq<char>) -> bool {
    exists|k: int| 0 <= k < files.len() && (#[trigger] files[k]).status == text
}

/// Whether the status of each of the first `n` files is among the texts.
spec fn covers(found: Seq<Seq<char>>, files: Seq<FileView>, n: int) -> bool {
    forall|k: int| 0 <= k < n ==> found.contains((#[trigger] files[k]).status)
}

/// The statuses that occur, each once.
fn occurring_statuses(files: &Vec<FileRow>) -> (r: Vec<String>)
    ensures
        distinct(texts(r@)),
        all_occur(texts(r@), file_views(files@)),
        covers(texts(r@), file_views(files@), files@.len() as int),
{
    let ghost all: Seq<FileView> = file_views(files@);
    let mut found: Vec<String> = Vec::new();
    let mut n: usize = 0;
    assert(all_occur(texts(found@), all)) by {
        reveal(all_occur);
    }
    while n < files.len()
        invariant
            n <= files@.len(),
            all == file_views(files@),
            distinct(texts(found@)),
            all_occur(texts(found@), all),
            covers(texts(found@), all, n as int),
        decreases files.len() - n,
    {
        let ghost before: Seq<Seq<char>> = texts(found@);
        assert(all[n as int].status == files@[n as int].status@);
        if !contains_string(&found, files[n].status.as_str()) {
            let status: String = files[n].status.clone();
            found.push(status);
            proof {
                let ghost_text = all[n as int].status;
                assert(texts(found@) =~= before.push(ghost_text));
                assert(all_occur(texts(found@), all)) by {
                    reveal(all_occur);
                    assert(occurs(all, ghost_text)) by {
                        reveal(occurs);
                    }
                    assert forall|i: int| 0 <= i < texts(found@).len() implies occurs(
                        all,
                        #[trigger] texts(found@)[i],
                    ) by {
                        if i < before.len() {
                            assert(texts(found@)[i] == before[i]);
                        }
                    }
                }
                assert forall|k: int| 0 <= k < n + 1 implies texts(found@).contains(
                    (#[trigger] all[k]).status,
                ) by {
                    if k < n {
                        let i = choose|i: int| 0 <= i < before.len() && before[i] == all[k].status;
                        assert(texts(found@)[i] == all[k].status);
                    } else {
                        assert(texts(found@)[before.len() as int] == ghost_text);
                    }
                }
                assert forall|i: int, j: int| 0 <= i < j < texts(found@).len() implies
                    #[trigger] texts(found@)[i] != #[trigger] texts(found@)[j] by {
                    assert(texts(found@)[i] == before[i]);
                    if j < before.len() {
                        assert(texts(found@)[j] == before[j]);
                    }
                }
            }
        }
        n += 1;
    }
    found
}

/// The number of files for each status that occurs.
pub fn status_counts(db: &Database) -> (r: Vec<(String, i64)>)
    requires
        tables_ok(db@),
    ensures
        tallies_statuses(tally_views(r@), db@.files),
{
    let ghost files: Seq<FileView> = db@.files;
    let found: Vec<String> = occurring_statuses(&db.files);
    let ghost statuses: Seq<Seq<char>> = views(found@);
    proof {
        assert(statuses =~= texts(found@));
        assert forall|i: int, j: int|
            0 <= i < statuses.len() && 0 <= j < statuses.len() && i != j implies text_before(
            #[trigger] statuses[i],
            #[trigger] statuses[j],
        ) || text_before(statuses[j], statuses[i]) by {
            lemma_text_order(statuses[i], statuses[j], statuses[i]);
        }
    }
    let sorted: Vec<String> = arrange(found);
    let ghost keys: Seq<Seq<char>> = views(sorted@);
    let mut out: Vec<(String, i64)> = Vec::new();
    let mut i: usize = 0;
    while i < sorted.len()
        invariant
            i <= sorted@.len(),
            out@.len() == i,
            files == db@.files,
            files.len() <= i64::MAX,
            forall|k: int|
                0 <= k < i ==> (#[trigger] out@[k]).0@ == sorted@[k]@ && out@[k].1 == count_with(
                    files,
                    sorted@[k]@,
                ),
        decreases sorted.len() - i,
    {
        let n: usize = count_status(&db.files, sorted[i].as_str());
        out.push((sorted[i].clone(), n as i64));
        i += 1;
    }
    proof {
        let tallies = tally_views(out@);
        assert(tallies.len() == keys.len());
        assert forall|k: int| 0 <= k < keys.len() implies (#[trigger] tallies[k]).0 == keys[k]
            && tallies[k].1 == count_with(files, keys[k]) by {
            assert(keys[k] == sorted@[k]@);
            assert(tallies[k] == (out@[k].0@, out@[k].1));
        }
        let before = rank_order::<String>();
        assert forall|a: int, b: int| 0 <= a < b < tallies.len() implies text_before(
            (#[trigger] tallies[a]).0,
            (#[trigger] tallies[b]).0,
        ) by {
            assert(before(keys[a], keys[b]));
        }
        assert forall|k: int| 0 <= k < tallies.len() implies 0 < (#[trigger] tallies[k]).1
            == count_with(files, tallies[k].0) by {
            assert(statuses.contains(keys[k]));
            let m = choose|m: int| 0 <= m < statuses.len() && statuses[m] == keys[k];
            assert(occurs(files, statuses[m])) by {
                reveal(all_occur);
            }
            reveal(occurs);
            let l = choose|l: int| 0 <= l < files.len() && files[l].status == statuses[m];
            lemma_counted(files, l);
        }
        assert forall|k: int| 0 <= k < files.len() implies is_tallied(
            tallies,
            (#[trigger] files[k]).status,
        ) by {
            assert(statuses.contains(files[k].status));
            let m = choose|m: int| 0 <= m < statuses.len() && statuses[m] == files[k].status;
            assert(keys.contains(statuses[m]));
            let a = choose|a: int| 0 <= a < keys.len() && keys[a] == statuses[m];
            assert(tallies[a].0 == files[k].status);
        }
    }
    out
}

/// Whether a file still has to be downloaded.
pub open spec fn is_awaited(file: FileView) -> bool {
    file.status == "pending"@ || file.status == "downloading"@
}

/// The sizes of the files that still have to be downloaded; unknown sizes do not count.
pub open spec fn awaited_bytes(files: Seq<FileView>) -> int
    decreases files.len(),
{
    if files.len() == 0 {
        0
    } else {
        awaited_bytes(files.drop_last()) + (if is_awaited(files.last()) {
            match files.last().size_bytes {
                Some(size) => size as int,
                None => 0,
            }
        } else {
            0
        })
    }
}

/// The total size of the files that still have to be downloaded; it fails exactly if the total
/// is too large.
pub fn pending_bytes(db: &Database) -> (r: Result<i64, DbError>)
    requires
        tables_ok(db@),
    ensures
        match r {
            Ok(total) => total == awaited_bytes(db@.files),
            Err(e) => e == DbError::Overflow && !(i64::MIN <= awaited_bytes(db@.files)
                <= i64::MAX),
        },
{
    let ghost all: Seq<FileView> = db@.files;
    let mut total: i128 = 0;
    let mut i: usize = 0;
    assert(awaited_bytes(all.take(0)) == 0);
    while i < db.files.len()
        invariant
            i <= db.files@.len() <= i64::MAX,
            all == db@.files,
            total == awaited_bytes(all.take(i as int)),
            -0x8000_0000_0000_0000 * i <= total <= 0x8000_0000_0000_0000 * i,
        decreases db.files.len() - i,
    {
        proof {
            assert(all[i as int] == db.files@[i as int]@);
            assert(all.take(i + 1).drop_last() =~= all.take(i as int));
            assert(all.take(i + 1).last() == all[i as int]);
        }
        if has_status(&db.files[i], "pending") || has_status(&db.files[i], "downloading") {
            match db.files[i].size_bytes {
                Some(size) => {
                    total = total + size as i128;
                },
                None => {},
            }
        }
        i += 1;
    }
    assert(all.take(i as int) =~= all);
    if total < i64::MIN as i128 || total > i64::MAX as i128 {
        Err(DbError::Overflow)
    } else {
        Ok(total as i64)
    }
}

// ---------------------------------------------------------------------------
// Changing rows
// ---------------------------------------------------------------------------

/// A change that is made to the rows to which it applies.
trait RowEdit<R: View>: Sized {
    /// Whether the change applies to a row.
    spec fn applies(&self, row: R::V) -> bool;

    /// A row after the change.
    spec fn outcome(&self, row: R::V) -> R::V;

    /// Makes the change; the result is whether it applies.
    fn edit(&self, row: &mut R) -> (r: bool)
        ensures
            r == self.applies(old(row)@),
            final(row)@ == (if r {
                self.outcome(old(row)@)
            } else {
                old(row)@
            }),
    ;
}

/// A row after a change, which may not apply to it.
spec fn after_edit<R: View, E: RowEdit<R>>(edit: E, row: R::V) -> R::V {
    if edit.applies(row) {
        edit.outcome(row)
    } else {
        row
    }
}

/// Makes a change to all rows; the result is the number of those to which it applies.
fn edit_rows<R: View, E: RowEdit<R>>(rows: &mut Vec<R>, edit: &E) -> (r: usize)
    ensures
        views(final(rows)@) == views(old(rows)@).map_values(|row: R::V| after_edit(*edit, row)),
        r == views(old(rows)@).filter(|row: R::V| edit.applies(row)).len(),
{
    let ghost before: Seq<R::V> = views(rows@);
    let ghost p = |row: R::V| edit.applies(row);
    let mut n: usize = 0;
    let mut i: usize = 0;
    proof {
        reveal(Seq::filter);
        assert(before.take(0).filter(p) =~= Seq::<R::V>::empty());
    }
    while i < rows.len()
        invariant
            n <= i <= rows@.len(),
            rows@.len() == before.len(),
            p == (|row: R::V| edit.applies(row)),
            n == before.take(i as int).filter(p).len(),
            forall|k: int| 0 <= k < i ==> (#[trigger] rows@[k])@ == after_edit(*edit, before[k]),
            forall|k: int| i <= k < rows@.len() ==> (#[trigger] rows@[k])@ == before[k],
        decreases rows.len() - i,
    {
        proof {
            assert(before.take(i + 1) =~= before.take(i as int).push(before[i as int]));
            before.take(i as int).lemma_filter_push(before[i as int], p);
        }
        if edit.edit(&mut rows[i]) {
            n += 1;
        }
        i += 1;
    }
    proof {
        assert(before.take(i as int) =~= before);
        assert(views(rows@) =~= before.map_values(|row: R::V| after_edit(*edit, row)));
    }
    n
}

/// A file after its status was set; a finished file stays as it is.
pub open spec fn with_new_status(
    file: FileView,
    id: i64,
    status: Seq<char>,
    error_message: Option<Seq<char>>,
    checksum: Option<Seq<char>>,
    now: Seq<char>,
) -> FileView {
    if file.id == id && file.status != "done"@ {
        FileView {
            status,
            error_message,
            checksum_sha256: checksum,
            completed_at: if status == "done"@ {
                Some(now)
            } else {
                file.completed_at
            },
            ..file
        }
    } else {
        file
    }
}

/// Whether a file with this id is there and not finished.
pub open spec fn is_open(files: Seq<FileView>, id: i64) -> bool {
    exists|i: int|
        0 <= i < files.len() && (#[trigger] files[i]).id == id && files[i].status != "done"@
}

/// The tables after a status was set.
pub open spec fn status_set(
    db: DbView,
    id: i64,
    status: Seq<char>,
    error_message: Option<Seq<char>>,
    checksum: Option<Seq<char>>,
    now: Seq<char>,
) -> Result<DbView, DbError> {
    if is_open(db.files, id) && status_of(status) is None {
        Err(DbError::InvalidStatus)
    } else {
        Ok(
            DbView {
                files: db.files.map_values(
                    |f: FileView| with_new_status(f, id, status, error_message, checksum, now),
                ),
                ..db
            },
        )
    }
}

/// Whether a file with this id is there and not finished.
fn holds_open(files: &Vec<FileRow>, id: i64) -> (r: bool)
    ensures
        r == is_open(file_views(files@), id),
{
    let mut i: usize = 0;
    while i < files.len()
        invariant
            i <= files@.len(),
            forall|k: int|
                0 <= k < i ==> !((#[trigger] files@[k])@.id == id && files@[k]@.status != "done"@),
        decreases files.len() - i,
    {
        if files[i].id == id && !has_status(&files[i], "done") {
            assert(file_views(files@)[i as int] == files@[i as int]@);
            return true;
        }
        i += 1;
    }
    assert forall|k: int| 0 <= k < files@.len() implies !((#[trigger] file_views(files@)[k]).id == id
        && file_views(files@)[k].status != "done"@) by {
        assert(file_views(files@)[k] == files@[k]@);
    }
    false
}

/// The change of a file's status.
struct StatusChange<'a> {
    id: i64,
    status: &'a str,
    error_message: Option<&'a str>,
    checksum: Option<&'a str>,
    now: &'a str,
}

impl<'a> RowEdit<FileRow> for StatusChange<'a> {
    spec fn applies(&self, row: FileView) -> bool {
        row.id == self.id && row.status != "done"@
    }

    spec fn outcome(&self, row: FileView) -> FileView {
        with_new_status(
            row,
            self.id,
            self.status@,
            opt_text(self.error_message),
            opt_text(self.checksum),
            self.now@,
        )
    }

    fn edit(&self, row: &mut FileRow) -> (r: bool) {
        if row.id != self.id || has_status(row, "done") {
            return false;
        }
        row.status = self.status.to_owned();
        row.error_message = own_text(self.error_message);
        row.checksum_sha256 = own_text(self.checksum);
        if same_text(self.status, "done") {
            row.completed_at = Some(self.now.to_owned());
        }
        true
    }
}

/// Sets the status of a file, with its error message and checksum, and the time of completion
/// for a finished one.  A file that was finished before stays as it is.
pub fn set_file_status(
    db: &mut Database,
    id: i64,
    status: &str,
    error_message: Option<&str>,
    checksum: Option<&str>,
    now: &str,
) -> (r: Result<(), DbError>)
    requires
        tables_ok(old(db)@),
    ensures
        tables_ok(final(db)@),
        match r {
            Ok(_) => status_set(
                old(db)@,
                id,
                status@,
                opt_text(error_message),
                opt_text(checksum),
                now@,
            ) == Ok::<DbView, DbError>(final(db)@),
            Err(e) => status_set(
                old(db)@,
                id,
                status@,
                opt_text(error_message),
                opt_text(checksum),
                now@,
            ) == Err::<DbView, DbError>(e) && final(db)@ == old(db)@,
        },
{
    let ghost before: DbView = db@;
    match FileStatus::parse(status) {
        Ok(_) => {},
        Err(_) => {
            return if holds_open(&db.files, id) {
                Err(DbError::InvalidStatus)
            } else {
                assert(before.files =~= before.files.map_values(
                    |f: FileView|
                        with_new_status(
                            f,
                            id,
                            status@,
                            opt_text(error_message),
                            opt_text(checksum),
                            now@,
                        ),
                ));
                Ok(())
            };
        },
    }
    edit_rows(&mut db.files, &StatusChange { id, status, error_message, checksum, now });
    assert(db@.files =~= before.files.map_values(
        |f: FileView|
            with_new_status(f, id, status@, opt_text(error_message), opt_text(checksum), now@),
    ));
    Ok(())
}

/// A file after a failure was recorded; a finished file stays as it is.
pub open spec fn failed(file: FileView, id: i64, message: Seq<char>) -> FileView {
    if file.id == id && file.status != "done"@ {
        FileView {
            status: "error"@,
            error_message: Some(message),
            retry_count: if file.retry_count == i64::MAX {
                i64::MAX
            } else {
                (file.retry_count + 1) as i64
            },
            ..file
        }
    } else {
        file
    }
}

/// The failure of a file's download.
struct Failure<'a> {
    id: i64,
    message: &'a str,
}

impl<'a> RowEdit<FileRow> for Failure<'a> {
    spec fn applies(&self, row: FileView) -> bool {
        row.id == self.id && row.status != "done"@
    }

    spec fn outcome(&self, row: FileView) -> FileView {
        failed(row, self.id, self.message@)
    }

    fn edit(&self, row: &mut FileRow) -> (r: bool) {
        if row.id != self.id || has_status(row, "done") {
            return false;
        }
        row.status = "error".to_owned();
        row.error_message = Some(self.message.to_owned());
        if row.retry_count < i64::MAX {
            row.retry_count = row.retry_count + 1;
        }
        true
    }
}

/// Records a failed download: one more try, and the status of a failed file.
pub fn record_error(db: &mut Database, id: i64, message: &str)
    requires
        tables_ok(old(db)@),
    ensures
        tables_ok(final(db)@),
        final(db)@ == (DbView {
            files: old(db)@.files.map_values(|f: FileView| failed(f, id, message@)),
            ..old(db)@
        }),
{
    let ghost before: DbView = db@;
    edit_rows(&mut db.files, &Failure { id, message });
    assert(db@.files =~= before.files.map_values(|f: FileView| failed(f, id, message@)));
}

/// Whether a reset makes a file pending again: a failed one, and unless only those are asked
/// for, also an interrupted or skipped one.
pub open spec fn is_reset(file: FileView, errors_only: bool) -> bool {
    file.status == "error"@ || (!errors_only && (file.status == "downloading"@ || file.status
        == "skipped"@))
}

/// A file after a reset.
pub open spec fn after_reset(file: FileView, errors_only: bool) -> FileView {
    if is_reset(file, errors_only) {
        FileView { status: "pending"@, error_message: None, ..file }
    } else {
        file
    }
}

/// The reset of files.
struct Reset {
    errors_only: bool,
}

impl RowEdit<FileRow> for Reset {
    spec fn applies(&self, row: FileView) -> bool {
        is_reset(row, self.errors_only)
    }

    spec fn outcome(&self, row: FileView) -> FileView {
        after_reset(row, self.errors_only)
    }

    fn edit(&self, row: &mut FileRow) -> (r: bool) {
        if !(has_status(row, "error") || (!self.errors_only && (has_status(row, "downloading")
            || has_status(row, "skipped")))) {
            return false;
        }
        row.status = "pending".to_owned();
        row.error_message = None;
        true
    }
}

/// Makes interrupted, failed and skipped files pending again, or failed ones only; the result
/// is their number.
pub fn reset_interrupted(db: &mut Database, errors_only: bool) -> (r: usize)
    requires
        tables_ok(old(db)@),
    ensures
        tables_ok(final(db)@),
        final(db)@ == (DbView {
            files: old(db)@.files.map_values(|f: FileView| after_reset(f, errors_only)),
            ..old(db)@
        }),
        r == old(db)@.files.filter(|f: FileView| is_reset(f, errors_only)).len(),
{
    let ghost before: DbView = db@;
    let edit: Reset = Reset { errors_only };
    let n: usize = edit_rows(&mut db.files, &edit);
    proof {
        assert(db@.files =~= before.files.map_values(|f: FileView| after_reset(f, errors_only)));
        assert((|f: FileView| edit.applies(f)) =~= (|f: FileView| is_reset(f, errors_only)));
    }
    n
}

// ---------------------------------------------------------------------------
// Listing files
// ---------------------------------------------------------------------------

/// Whether a path is listed under a filter: the filter stands in it.
pub open spec fn path_matches(path: Seq<char>, filter: Seq<char>) -> bool {
    occurs_in(path, filter)
}

/// Whether a file passes the filters on path and status; a filter that is absent passes all.
pub open spec fn is_listed(
    file: FileView,
    path_filter: Option<Seq<char>>,
    status_filter: Option<Seq<char>>,
) -> bool {
    &&& match path_filter {
        Some(filter) => path_matches(file.remote_path, filter),
        None => true,
    }
    &&& match status_filter {
        Some(status) => file.status == status,
        None => true,
    }
}

/// The files that pass the filters.
pub open spec fn listed(
    files: Seq<FileView>,
    path_filter: Option<Seq<char>>,
    status_filter: Option<Seq<char>>,
) -> Seq<FileView> {
    files.filter(|f: FileView| is_listed(f, path_filter, status_filter))
}

/// The order of a listing: by path, files with the same path by id.
pub open spec fn path_before(a: FileView, b: FileView) -> bool {
    text_before(a.remote_path, b.remote_path) || (a.remote_path == b.remote_path && a.id < b.id)
}

impl Ranked for FileRow {
    open spec fn ranks_before(a: FileView, b: FileView) -> bool {
        path_before(a, b)
    }

    proof fn lemma_rank_order(a: FileView, b: FileView, c: FileView) {
        lemma_text_order(a.remote_path, b.remote_path, c.remote_path);
        lemma_text_order(a.remote_path, b.remote_path, a.remote_path);
    }

    fn is_before(&self, other: &Self) -> (r: bool) {
        proof {
            lemma_text_order(self@.remote_path, other@.remote_path, self@.remote_path);
        }
        if comes_before(self.remote_path.as_str(), other.remote_path.as_str()) {
            true
        } else if comes_before(other.remote_path.as_str(), self.remote_path.as_str()) {
            false
        } else {
            self.id < other.id
        }
    }
}

/// The most files that are listed at once.
pub const LIST_LIMIT: usize = 500;

/// Whether `rows` are the files of a listing: the first ones, in the order of their paths, of
/// those that pass the filters.
pub open spec fn is_listing(
    rows: Seq<FileView>,
    files: Seq<FileView>,
    path_filter: Option<Seq<char>>,
    status_filter: Option<Seq<char>>,
) -> bool {
    arranges_first(
        rows,
        listed(files, path_filter, status_filter),
        |a: FileView, b: FileView| path_before(a, b),
        LIST_LIMIT as nat,
    )
}

/// Copies of the rows that pass the filters.
fn listed_rows(files: &Vec<FileRow>, path_filter: Option<&str>, status_filter: Option<&str>) -> (r:
    Vec<FileRow>)
    ensures
        file_views(r@) == listed(
            file_views(files@),
            opt_text(path_filter),
            opt_text(status_filter),
        ),
{
    let ghost all: Seq<FileView> = file_views(files@);
    let ghost p = |f: FileView| is_listed(f, opt_text(path_filter), opt_text(status_filter));
    let mut rows: Vec<FileRow> = Vec::new();
    let mut i: usize = 0;
    proof {
        reveal(Seq::filter);
        assert(all.take(0).filter(p) =~= Seq::<FileView>::empty());
        assert(file_views(rows@) =~= all.take(0).filter(p));
    }
    while i < files.len()
        invariant
            i <= files@.len(),
            all == file_views(files@),
            p == (|f: FileView| is_listed(f, opt_text(path_filter), opt_text(status_filter))),
            file_views(rows@) == all.take(i as int).filter(p),
        decreases files.len() - i,
    {
        let ghost before: Seq<FileView> = file_views(rows@);
        proof {
            assert(all[i as int] == files@[i as int]@);
            assert(all.take(i + 1) =~= all.take(i as int).push(all[i as int]));
            all.take(i as int).lemma_filter_push(all[i as int], p);
        }
        let path_ok: bool = match path_filter {
            Some(filter) => contains_text(
                &chars_of(files[i].remote_path.as_str()),
                &chars_of(filter),
            ),
            None => true,
        };
        let status_ok: bool = match status_filter {
            Some(status) => has_status(&files[i], status),
            None => true,
        };
        if path_ok && status_ok {
            let row: FileRow = files[i].copy();
            rows.push(row);
            assert(file_views(rows@) =~= before.push(all[i as int]));
        }
        i += 1;
    }
    assert(all.take(i as int) =~= all);
    rows
}

/// Rows with distinct ids, in increasing order, keep that under selection.
proof fn lemma_selection_ordered(files: Seq<FileView>, p: spec_fn(FileView) -> bool)
    requires
        forall|i: int, j: int|
            0 <= i < j < files.len() ==> (#[trigger] files[i]).id < (#[trigger] files[j]).id,
    ensures
        forall|i: int, j: int|
            0 <= i < j < files.filter(p).len() ==> (#[trigger] files.filter(p)[i]).id < (
            #[trigger] files.filter(p)[j]).id,
        files.len() > 0 ==> forall|i: int|
            0 <= i < files.filter(p).len() ==> (#[trigger] files.filter(p)[i]).id
                <= files.last().id,
    decreases files.len(),
{
    reveal(Seq::filter);
    if files.len() > 0 {
        let shorter = files.drop_last();
        lemma_selection_ordered(shorter, p);
        let kept = shorter.filter(p);
        if shorter.len() > 0 {
            assert(shorter.last() == files[files.len() - 2]);
            assert(shorter.last().id < files.last().id);
        }
        assert forall|i: int, j: int| 0 <= i < j < files.filter(p).len() implies (
        #[trigger] files.filter(p)[i]).id < (#[trigger] files.filter(p)[j]).id by {
            assert(files.filter(p)[i] == kept[i]);
            if j < kept.len() {
                assert(files.filter(p)[j] == kept[j]);
            }
        }
        assert forall|i: int| 0 <= i < files.filter(p).len() implies (
        #[trigger] files.filter(p)[i]).id <= files.last().id by {
            if i < kept.len() {
                assert(files.filter(p)[i] == kept[i]);
            }
        }
    }
}

/// Lists files, with optional filters on path and status.
///
/// It fails exactly if a file of the listing has a status that is not known.
pub fn list_files(db: &Database, path_filter: Option<&str>, status_filter: Option<&str>) -> (r:
    Result<Vec<FileRecord>, DbError>)
    requires
        tables_ok(db@),
    ensures
        exists|rows: Seq<FileView>| #[trigger]
            is_listing(rows, db@.files, opt_text(path_filter), opt_text(status_filter)) && (
            match r {
                Ok(records) => records_of(rows) == Some(record_views(records@)),
                Err(e) => records_of(rows) is None && e == DbError::UnknownStatus,
            }),
{
    let ghost files: Seq<FileView> = db@.files;
    let rows: Vec<FileRow> = listed_rows(&db.files, path_filter, status_filter);
    let ghost selected: Seq<FileView> = file_views(rows@);
    proof {
        let p = |f: FileView| is_listed(f, opt_text(path_filter), opt_text(status_filter));
        lemma_selection_ordered(files, p);
        assert(views(rows@) =~= selected);
        assert forall|i: int, j: int|
            0 <= i < selected.len() && 0 <= j < selected.len() && i != j implies path_before(
            #[trigger] selected[i],
            #[trigger] selected[j],
        ) || path_before(selected[j], selected[i]) by {
            lemma_text_order(
                selected[i].remote_path,
                selected[j].remote_path,
                selected[i].remote_path,
            );
        }
    }
    let sorted: Vec<FileRow> = arrange(rows);
    let ghost all: Seq<FileView> = views(sorted@);
    proof {
        assert(rank_order::<FileRow>() =~= (|a: FileView, b: FileView| path_before(a, b)));
    }
    let mut first: Vec<FileRow> = Vec::new();
    let mut i: usize = 0;
    while i < sorted.len() && i < LIST_LIMIT
        invariant
            i <= sorted@.len(),
            i <= LIST_LIMIT,
            first@.len() == i,
            forall|k: int| 0 <= k < i ==> (#[trigger] first@[k])@ == sorted@[k]@,
        decreases sorted.len() - i,
    {
        first.push(sorted[i].copy());
        i += 1;
    }
    proof {
        let shown = file_views(first@);
        assert forall|k: int| 0 <= k < shown.len() implies shown[k] == all[k] by {
            assert(first@[k]@ == sorted@[k]@);
        }
        assert(shown =~= first_of(all, LIST_LIMIT as nat));
        assert(arranges(all, selected, |a: FileView, b: FileView| path_before(a, b)));
        assert(is_listing(shown, files, opt_text(path_filter), opt_text(status_filter)));
    }
    records_from(&first)
}

// ---------------------------------------------------------------------------
// The crawl queue
// ---------------------------------------------------------------------------

/// Whether some entry of the queue has the URL `url`.
pub open spec fn holds_entry(queue: Seq<CrawlView>, url: Seq<char>) -> bool {
    exists|i: int| 0 <= i < queue.len() && (#[trigger] queue[i]).url == url
}

/// The tables after a directory was queued.  Each attempt sets an id aside, also that for a
/// directory that is queued already, which changes nothing else.
pub open spec fn enqueued(db: DbView, url: Seq<char>, depth: i64, now: Seq<char>) -> Result<
    DbView,
    DbError,
> {
    match next_id(top_crawl_id(db.queue), db.last_crawl_id) {
        None => Err(DbError::Full),
        Some(id) => if holds_entry(db.queue, url) {
            Ok(DbView { last_crawl_id: id, ..db })
        } else {
            Ok(
                DbView {
                    queue: db.queue.push(
                        CrawlView { id, url, status: "pending"@, depth, discovered_at: now },
                    ),
                    last_crawl_id: id,
                    last_insert_rowid: id,
                    ..db
                },
            )
        },
    }
}

/// Whether some entry of the queue has the URL `url`.
fn entry_exists(queue: &Vec<CrawlRow>, url: &str) -> (r: bool)
    ensures
        r == holds_entry(crawl_views(queue@), url@),
{
    let wanted: String = url.to_owned();
    let mut i: usize = 0;
    while i < queue.len()
        invariant
            i <= queue@.len(),
            wanted@ == url@,
            forall|k: int| 0 <= k < i ==> (#[trigger] crawl_views(queue@)[k]).url != url@,
        decreases queue.len() - i,
    {
        assert(crawl_views(queue@)[i as int].url == queue@[i as int].url@);
        if queue[i].url == wanted {
            return true;
        }
        i += 1;
    }
    false
}

/// Queues a directory, unless it is queued already.
pub fn enqueue_crawl(db: &mut Database, url: &str, depth: i64, now: &str) -> (r: Result<(), DbError>)
    requires
        tables_ok(old(db)@),
    ensures
        tables_ok(final(db)@),
        match r {
            Ok(_) => enqueued(old(db)@, url@, depth, now@) == Ok::<DbView, DbError>(final(db)@),
            Err(e) => enqueued(old(db)@, url@, depth, now@) == Err::<DbView, DbError>(e)
                && final(db)@ == old(db)@,
        },
{
    let ghost before: DbView = db@;
    let count: usize = db.queue.len();
    let top: Option<i64> = if count == 0 {
        None
    } else {
        Some(db.queue[count - 1].id)
    };
    assert(top == top_crawl_id(before.queue));
    let id: i64 = match id_after(top, db.last_crawl_id) {
        Some(id) => id,
        None => {
            return Err(DbError::Full);
        },
    };
    if !entry_exists(&db.queue, url) {
        db.queue.push(
            CrawlRow {
                id,
                url: url.to_owned(),
                status: "pending".to_owned(),
                depth,
                discovered_at: now.to_owned(),
            },
        );
        db.last_insert_rowid = id;
        proof {
            assert(db@.queue =~= before.queue.push(
                CrawlView { id, url: url@, status: "pending"@, depth, discovered_at: now@ },
            ));
        }
    }
    db.last_crawl_id = id;
    Ok(())
}

/// Empties the crawl queue.
pub fn clear_crawl_queue(db: &mut Database)
    requires
        tables_ok(old(db)@),
    ensures
        tables_ok(final(db)@),
        final(db)@ == (DbView { queue: Seq::empty(), ..old(db)@ }),
{
    db.queue = Vec::new();
    assert(db@.queue =~= Seq::<CrawlView>::empty());
}

/// The contents of a `CrawlEntry`.
#[verifier::ext_equal]
pub struct CrawlEntryView {
    pub id: i64,
    pub url: Seq<char>,
    pub depth: i64,
}

impl View for CrawlEntry {
    type V = CrawlEntryView;

    open spec fn view(&self) -> CrawlEntryView {
        CrawlEntryView { id: self.id, url: self.url@, depth: self.depth }
    }
}

/// The order of crawling: by depth, directories at the same depth by id.
pub open spec fn depth_before(a: CrawlEntryView, b: CrawlEntryView) -> bool {
    a.depth < b.depth || (a.depth == b.depth && a.id < b.id)
}

impl Ranked for CrawlEntry {
    open spec fn ranks_before(a: CrawlEntryView, b: CrawlEntryView) -> bool {
        depth_before(a, b)
    }

    proof fn lemma_rank_order(a: CrawlEntryView, b: CrawlEntryView, c: CrawlEntryView) {
    }

    fn is_before(&self, other: &Self) -> (r: bool) {
        self.depth < other.depth || (self.depth == other.depth && self.id < other.id)
    }
}

/// What is crawled of a row of the queue: a pending one.
pub open spec fn pending_entry(row: CrawlView) -> Option<CrawlEntryView> {
    if row.status == "pending"@ {
        Some(CrawlEntryView { id: row.id, url: row.url, depth: row.depth })
    } else {
        None
    }
}

/// The pending entries of the queue, in the order of their ids.
pub open spec fn pending_entries(queue: Seq<CrawlView>) -> Seq<CrawlEntryView> {
    queue.filter_map(|row: CrawlView| pending_entry(row))
}

/// Pending entries keep the order of the ids.
proof fn lemma_pending_ordered(queue: Seq<CrawlView>)
    requires
        forall|i: int, j: int|
            0 <= i < j < queue.len() ==> (#[trigger] queue[i]).id < (#[trigger] queue[j]).id,
    ensures
        forall|i: int, j: int|
            0 <= i < j < pending_entries(queue).len() ==> (#[trigger] pending_entries(queue)[i]).id
                < (#[trigger] pending_entries(queue)[j]).id,
        queue.len() > 0 ==> forall|i: int|
            0 <= i < pending_entries(queue).len() ==> (#[trigger] pending_entries(queue)[i]).id
                <= queue.last().id,
    decreases queue.len(),
{
    reveal(Seq::filter_map);
    if queue.len() > 0 {
        let shorter = queue.drop_last();
        lemma_pending_ordered(shorter);
        let kept = pending_entries(shorter);
        let all = pending_entries(queue);
        let f = |row: CrawlView| pending_entry(row);
        assert(all == (match f(queue.last()) {
            Some(e) => kept.push(e),
            None => kept,
        }));
        if shorter.len() > 0 {
            assert(shorter.last() == queue[queue.len() - 2]);
            assert(shorter.last().id < queue.last().id);
        }
        assert forall|i: int, j: int| 0 <= i < j < all.len() implies (#[trigger] all[i]).id < (
        #[trigger] all[j]).id by {
            assert(all[i] == kept[i]);
            if j < kept.len() {
                assert(all[j] == kept[j]);
            }
        }
        assert forall|i: int| 0 <= i < all.len() implies (#[trigger] all[i]).id
            <= queue.last().id by {
            if i < kept.len() {
                assert(all[i] == kept[i]);
            }
        }
    }
}

/// The contents of entries.
pub open spec fn crawl_entry_views(entries: Seq<CrawlEntry>) -> Seq<CrawlEntryView> {
    entries.map_values(|e: CrawlEntry| e@)
}

/// Whether `entries` are the next ones to crawl: the first `limit` pending ones, in the order of
/// crawling.
pub open spec fn is_next_batch(
    entries: Seq<CrawlEntryView>,
    queue: Seq<CrawlView>,
    limit: nat,
) -> bool {
    arranges_first(
        entries,
        pending_entries(queue),
        |a: CrawlEntryView, b: CrawlEntryView| depth_before(a, b),
        limit,
    )
}

/// The pending entries of the queue.
fn collect_pending(queue: &Vec<CrawlRow>) -> (r: Vec<CrawlEntry>)
    ensures
        crawl_entry_views(r@) == pending_entries(crawl_views(queue@)),
{
    let ghost all: Seq<CrawlView> = crawl_views(queue@);
    let ghost f = |row: CrawlView| pending_entry(row);
    let mut out: Vec<CrawlEntry> = Vec::new();
    let mut i: usize = 0;
    proof {
        assert(all.take(0) =~= Seq::<CrawlView>::empty());
        assert(crawl_entry_views(out@) =~= all.take(0).filter_map(f));
    }
    while i < queue.len()
        invariant
            i <= queue@.len(),
            all == crawl_views(queue@),
            f == (|row: CrawlView| pending_entry(row)),
            crawl_entry_views(out@) == all.take(i as int).filter_map(f),
        decreases queue.len() - i,
    {
        proof {
            all.lemma_filter_map_take_succ(f, i as int);
            assert(all[i as int] == queue@[i as int]@);
        }
        let ghost before: Seq<CrawlEntryView> = crawl_entry_views(out@);
        if same_text(queue[i].status.as_str(), "pending") {
            let entry = CrawlEntry {
                id: queue[i].id,
                url: queue[i].url.clone(),
                depth: queue[i].depth,
            };
            let ghost view: CrawlEntryView = entry@;
            out.push(entry);
            assert(crawl_entry_views(out@) =~= before.push(view));
            assert(crawl_entry_views(out@) =~= all.take(i + 1).filter_map(f));
        } else {
            assert(crawl_entry_views(out@) =~= all.take(i + 1).filter_map(f));
        }
        i += 1;
    }
    assert(all.take(i as int) =~= all);
    out
}

/// The next directories to crawl, at most `limit`: breadth first.
pub fn next_crawl_entries(db: &Database, limit: usize) -> (r: Vec<CrawlEntry>)
    requires
        tables_ok(db@),
    ensures
        is_next_batch(crawl_entry_views(r@), db@.queue, limit as nat),
{
    let ghost before = |a: CrawlEntryView, b: CrawlEntryView| depth_before(a, b);
    let pending: Vec<CrawlEntry> = collect_pending(&db.queue);
    let ghost rows: Seq<CrawlEntryView> = crawl_entry_views(pending@);
    proof {
        lemma_pending_ordered(db@.queue);
        assert(views(pending@) =~= rows);
        assert forall|i: int, j: int|
            0 <= i < rows.len() && 0 <= j < rows.len() && i != j implies depth_before(
            #[trigger] rows[i],
            #[trigger] rows[j],
        ) || depth_before(rows[j], rows[i]) by {
            if i < j {
                assert(rows[i].id < rows[j].id);
            } else {
                assert(rows[j].id < rows[i].id);
            }
        }
    }
    let sorted: Vec<CrawlEntry> = arrange(pending);
    let ghost all: Seq<CrawlEntryView> = views(sorted@);
    assert(rank_order::<CrawlEntry>() =~= before);
    let mut first: Vec<CrawlEntry> = Vec::new();
    let mut i: usize = 0;
    while i < sorted.len() && i < limit
        invariant
            i <= sorted@.len(),
            i <= limit,
            first@.len() == i,
            forall|k: int| 0 <= k < i ==> (#[trigger] first@[k])@ == sorted@[k]@,
        decreases sorted.len() - i,
    {
        first.push(
            CrawlEntry { id: sorted[i].id, url: sorted[i].url.clone(), depth: sorted[i].depth },
        );
        i += 1;
    }
    proof {
        let shown = crawl_entry_views(first@);
        assert forall|k: int| 0 <= k < shown.len() implies shown[k] == all[k] by {
            assert(first@[k]@ == sorted@[k]@);
        }
        assert(shown =~= first_of(all, limit as nat));
        assert(arranges(all, rows, before));
    }
    first
}

/// An entry of the queue after its status was set.
pub open spec fn with_crawl_status(row: CrawlView, id: i64, status: Seq<char>) -> CrawlView {
    if row.id == id {
        CrawlView { status, ..row }
    } else {
        row
    }
}

/// The change of an entry's status.
struct CrawlStatusChange<'a> {
    id: i64,
    status: &'a str,
}

impl<'a> RowEdit<CrawlRow> for CrawlStatusChange<'a> {
    spec fn applies(&self, row: CrawlView) -> bool {
        row.id == self.id
    }

    spec fn outcome(&self, row: CrawlView) -> CrawlView {
        with_crawl_status(row, self.id, self.status@)
    }

    fn edit(&self, row: &mut CrawlRow) -> (r: bool) {
        if row.id != self.id {
            return false;
        }
        row.status = self.status.to_owned();
        true
    }
}

/// Sets the status of an entry of the queue.
fn set_crawl_status(db: &mut Database, id: i64, status: &str)
    requires
        tables_ok(old(db)@),
    ensures
        tables_ok(final(db)@),
        final(db)@ == (DbView {
            queue: old(db)@.queue.map_values(|row: CrawlView| with_crawl_status(row, id, status@)),
            ..old(db)@
        }),
{
    let ghost before: DbView = db@;
    edit_rows(&mut db.queue, &CrawlStatusChange { id, status });
    assert(db@.queue =~= before.queue.map_values(
        |row: CrawlView| with_crawl_status(row, id, status@),
    ));
}

/// Marks a directory as crawled.
pub fn mark_crawl_done(db: &mut Database, id: i64)
    requires
        tables_ok(old(db)@),
    ensures
        tables_ok(final(db)@),
        final(db)@ == (DbView {
            queue: old(db)@.queue.map_values(|row: CrawlView| with_crawl_status(row, id, "done"@)),
            ..old(db)@
        }),
{
    set_crawl_status(db, id, "done");
}

/// Marks a directory as failed.
pub fn mark_crawl_error(db: &mut Database, id: i64)
    requires
        tables_ok(old(db)@),
    ensures
        tables_ok(final(db)@),
        final(db)@ == (DbView {
            queue: old(db)@.queue.map_values(|row: CrawlView| with_crawl_status(row, id, "error"@)),
            ..old(db)@
        }),
{
    set_crawl_status(db, id, "error");
}

/// Whether an entry of the queue is pending.
pub open spec fn crawl_is_pending(queue: Seq<CrawlView>) -> bool {
    exists|i: int| 0 <= i < queue.len() && (#[trigger] queue[i]).status == "pending"@
}

/// Whether a directory waits to be crawled.
pub fn has_pending_crawl(db: &Database) -> (r: bool)
    ensures
        r == crawl_is_pending(db@.queue),
{
    let mut i: usize = 0;
    while i < db.queue.len()
        invariant
            i <= db.queue@.len(),
            forall|k: int| 0 <= k < i ==> (#[trigger] db@.queue[k]).status != "pending"@,
        decreases db.queue.len() - i,
    {
        assert(db@.queue[i as int] == db.queue@[i as int]@);
        if same_text(db.queue[i].status.as_str(), "pending") {
            return true;
        }
        i += 1;
    }
    false
}

/// An entry of the queue after failed ones were made pending again.
pub open spec fn retried(row: CrawlView) -> CrawlView {
    if row.status == "error"@ {
        CrawlView { status: "pending"@, ..row }
    } else {
        row
    }
}

/// The retry of failed directories.
struct Retry {}

impl RowEdit<CrawlRow> for Retry {
    spec fn applies(&self, row: CrawlView) -> bool {
        row.status == "error"@
    }

    spec fn outcome(&self, row: CrawlView) -> CrawlView {
        retried(row)
    }

    fn edit(&self, row: &mut CrawlRow) -> (r: bool) {
        if !same_text(row.status.as_str(), "error") {
            return false;
        }
        row.status = "pending".to_owned();
        true
    }
}

/// Makes failed directories pending again; the result is their number.
pub fn reset_crawl_errors(db: &mut Database) -> (r: usize)
    requires
        tables_ok(old(db)@),
    ensures
        tables_ok(final(db)@),
        final(db)@ == (DbView {
            queue: old(db)@.queue.map_values(|row: CrawlView| retried(row)),
            ..old(db)@
        }),
        r == old(db)@.queue.filter(|row: CrawlView| row.status == "error"@).len(),
{
    let ghost before: DbView = db@;
    let edit: Retry = Retry {  };
    let n: usize = edit_rows(&mut db.queue, &edit);
    proof {
        assert(db@.queue =~= before.queue.map_values(|row: CrawlView| retried(row)));
        assert((|row: CrawlView| edit.applies(row)) =~= (|row: CrawlView| row.status == "error"@));
    }
    n
}

// ---------------------------------------------------------------------------
// Selected folders
// ---------------------------------------------------------------------------

impl Ranked for SelectedFolder {
    open spec fn ranks_before(a: FolderView, b: FolderView) -> bool {
        text_before(a.path, b.path)
    }

    proof fn lemma_rank_order(a: FolderView, b: FolderView, c: FolderView) {
        lemma_text_order(a.path, b.path, c.path);
        lemma_text_order(a.path, b.path, a.path);
    }

    fn is_before(&self, other: &Self) -> (r: bool) {
        comes_before(self.path.as_str(), other.path.as_str())
    }
}

/// Copies of selected folders.
pub fn copy_folders(folders: &Vec<SelectedFolder>) -> (r: Vec<SelectedFolder>)
    ensures
        folder_views(r@) == folder_views(folders@),
{
    let mut out: Vec<SelectedFolder> = Vec::new();
    let mut i: usize = 0;
    while i < folders.len()
        invariant
            i <= folders@.len(),
            out@.len() == i,
            forall|k: int| 0 <= k < i ==> (#[trigger] out@[k])@ == folders@[k]@,
        decreases folders.len() - i,
    {
        out.push(folders[i].copy());
        i += 1;
    }
    assert(folder_views(out@) =~= folder_views(folders@));
    out
}

/// The selected folders in the order of their paths.
pub fn load_selected_folders(db: &Database) -> (r: Vec<SelectedFolder>)
    requires
        tables_ok(db@),
    ensures
        arranges(
            folder_views(r@),
            db@.folders,
            |a: FolderView, b: FolderView| text_before(a.path, b.path),
        ),
{
    let rows: Vec<SelectedFolder> = copy_folders(&db.folders);
    let ghost folders: Seq<FolderView> = db@.folders;
    proof {
        assert(views(rows@) =~= folders);
        assert forall|i: int, j: int|
            0 <= i < folders.len() && 0 <= j < folders.len() && i != j implies text_before(
            (#[trigger] folders[i]).path,
            (#[trigger] folders[j]).path,
        ) || text_before(folders[j].path, folders[i].path) by {
            lemma_text_order(folders[i].path, folders[j].path, folders[i].path);
        }
    }
    let sorted: Vec<SelectedFolder> = arrange(rows);
    proof {
        assert(views(sorted@) =~= folder_views(sorted@));
        assert(rank_order::<SelectedFolder>() =~= (|a: FolderView, b: FolderView|
            text_before(a.path, b.path)));
    }
    sorted
}

/// The tables after folders were saved in place of the former ones.
pub open spec fn folders_saved(db: DbView, folders: Seq<FolderView>) -> DbView {
    DbView {
        folders,
        last_insert_rowid: if folders.len() > 0 {
            folders.len() as i64
        } else {
            db.last_insert_rowid
        },
        ..db
    }
}

/// Saves the selected folders in place of the former ones.
///
/// It fails exactly if a path occurs twice; the former folders then stay.
pub fn save_selected_folders(db: &mut Database, folders: &Vec<SelectedFolder>) -> (r: Result<
    (),
    DbError,
>)
    requires
        tables_ok(old(db)@),
        folders@.len() <= i64::MAX,
    ensures
        tables_ok(final(db)@),
        match r {
            Ok(_) => folders_ok(folder_views(folders@)) && final(db)@ == folders_saved(
                old(db)@,
                folder_views(folders@),
            ),
            Err(e) => e == DbError::DuplicateFolder && !folders_ok(folder_views(folders@)) && (exists|
                n: int|
                #[trigger] repeats_at(folder_views(folders@), n) && final(db)@ == (DbView {
                    last_insert_rowid: n as i64,
                    ..old(db)@
                })),
        },
{
    match first_repeat(folders) {
        Some(n) => {
            assert(repeats_at(folder_views(folders@), n as int));
            db.last_insert_rowid = n as i64;
            Err(DbError::DuplicateFolder)
        },
        None => {
            db.folders = copy_folders(folders);
            if folders.len() > 0 {
                db.last_insert_rowid = folders.len() as i64;
            }
            Ok(())
        },
    }
}

/// Whether any folder was ever selected or left out.
pub fn has_any_selected_folders(db: &Database) -> (r: bool)
    ensures
        r == (db@.folders.len() > 0),
{
    db.folders.len() > 0
}

} // verus!
