//! The crawl: which directories are fetched, and what becomes of their listings.
use vstd::hash_set::StringHashSet;
use vstd::prelude::*;

use crate::config::Config;
use crate::crawler::filter::{
    contains_string, excluded, extension_wanted, is_excluded, wants_extension,
};
use crate::crawler::laws::law_names_are_last_segments;
use crate::crawler::listing::{
    entry_views, last_segment, path_of, segment_of, url_to_path, EntryView,
};
use crate::crawler::parser::DirEntry;
use crate::db::models::{
    clear_crawl_queue, crawl_is_pending, discovered, enqueue_crawl, enqueued, has_pending_crawl,
    holds_entry, holds_file, lemma_status_texts, mark_crawl_done, mark_crawl_error, rediscovered,
    reset_crawl_errors, retried, upsert_file, upserted, with_crawl_status, CrawlEntry,
    CrawlEntryView, DbError,
};
use crate::db::tables::{tables_ok, CrawlView, Database, DbView};
use crate::text::texts;

verus! {

/// The number of directories that are taken from the queue at once.
pub const CRAWL_BATCH: usize = 10;

/// Seconds between attempts to fetch a directory.
pub const RETRY_DELAY_SECS: u64 = 1;

// ---------------------------------------------------------------------------
// Start
// ---------------------------------------------------------------------------

/// The overriding texts, or the configured ones where nothing overrides them.
pub open spec fn effective(overrides: Seq<Seq<char>>, configured: Seq<Seq<char>>) -> Seq<Seq<char>> {
    if overrides.len() > 0 {
        overrides
    } else {
        configured
    }
}

/// A copy of a list of texts.
pub fn copy_texts(list: &Vec<String>) -> (r: Vec<String>)
    ensures
        texts(r@) == texts(list@),
{
    let mut out: Vec<String> = Vec::new();
    let mut i: usize = 0;
    while i < list.len()
        invariant
            i <= list@.len(),
            out@.len() == i,
            forall|k: int| 0 <= k < i ==> (#[trigger] out@[k])@ == list@[k]@,
        decreases list.len() - i,
    {
        out.push(list[i].clone());
        i += 1;
    }
    assert(texts(out@) =~= texts(list@));
    out
}

/// The overriding texts, or the configured ones.
pub fn effective_list(overrides: &Vec<String>, configured: &Vec<String>) -> (r: Vec<String>)
    ensures
        texts(r@) == effective(texts(overrides@), texts(configured@)),
{
    if overrides.len() > 0 {
        copy_texts(overrides)
    } else {
        copy_texts(configured)
    }
}

/// How a crawl starts.
#[derive(Debug, Clone, Copy, PartialEq, Eq, Structural)]
pub enum Seed {
    /// From the root of the server.
    Fresh,
    /// From the queue that was left, with this many failed directories to try again.
    Resumed { retried: usize },
}

/// The tables at the start of a crawl.  Failed directories wait again; if then none waits, the
/// queue is dropped and the crawl starts from the root of the server.
pub open spec fn seeded(db: DbView, base_url: Seq<char>, now: Seq<char>) -> Result<DbView, DbError> {
    let resumed = DbView { queue: db.queue.map_values(|row: CrawlView| retried(row)), ..db };
    if crawl_is_pending(resumed.queue) {
        Ok(resumed)
    } else {
        enqueued(DbView { queue: Seq::empty(), ..db }, base_url, 0, now)
    }
}

/// Prepares the queue for a crawl.
///
/// It fails exactly if no ids are left for the root; the queue is then empty.
pub fn seed(db: &mut Database, base_url: &str, now: &str) -> (r: Result<Seed, DbError>)
    requires
        tables_ok(old(db)@),
    ensures
        tables_ok(final(db)@),
        match r {
            Ok(Seed::Fresh) => seeded(old(db)@, base_url@, now@) == Ok::<DbView, DbError>(
                final(db)@,
            ) && !crawl_is_pending(old(db)@.queue.map_values(|row: CrawlView| retried(row))),
            Ok(Seed::Resumed { retried: n }) => seeded(old(db)@, base_url@, now@) == Ok::<
                DbView,
                DbError,
            >(final(db)@) && crawl_is_pending(
                old(db)@.queue.map_values(|row: CrawlView| retried(row)),
            ) && n == old(db)@.queue.filter(|row: CrawlView| row.status == "error"@).len(),
            Err(e) => seeded(old(db)@, base_url@, now@) == Err::<DbView, DbError>(e) && final(db)@
                == (DbView { queue: Seq::empty(), ..old(db)@ }),
        },
{
    let retried: usize = reset_crawl_errors(db);
    if has_pending_crawl(db) {
        return Ok(Seed::Resumed { retried });
    }
    clear_crawl_queue(db);
    match enqueue_crawl(db, base_url, 0, now) {
        Ok(_) => Ok(Seed::Fresh),
        Err(e) => Err(e),
    }
}

// ---------------------------------------------------------------------------
// Directories
// ---------------------------------------------------------------------------

/// A crawl in progress.
pub struct Crawl {
    /// The root of the server.
    pub base_url: String,
    /// The top-level folders that are entered; all if empty.
    pub include_folders: Vec<String>,
    /// The patterns of paths that are left out.
    pub exclude_patterns: Vec<String>,
    /// The file extensions that are wanted; all if empty.
    pub allowed_extensions: Vec<String>,
    /// The directories that were looked at.
    pub visited: StringHashSet,
}

/// Whether a directory is outside the selection: a top-level folder whose name is none of the
/// selected ones.
pub open spec fn is_unselected(url: Seq<char>, depth: i64, include_folders: Seq<Seq<char>>) -> bool {
    depth == 1 && include_folders.len() > 0 && !include_folders.contains(segment_of(url))
}

/// Whether a directory is fetched: it was not looked at before, is not outside the selection
/// and is not excluded.
pub open spec fn is_admitted(crawl: Crawl, entry: CrawlEntryView) -> bool {
    &&& !crawl.visited@.contains(entry.url)
    &&& !is_unselected(entry.url, entry.depth, texts(crawl.include_folders@))
    &&& !excluded(path_of(entry.url, crawl.base_url@), texts(crawl.exclude_patterns@))
}

/// Whether a listed file is recorded: its extension is wanted and its path is not excluded.
pub open spec fn is_recorded(crawl: Crawl, url: Seq<char>) -> bool {
    &&& extension_wanted(url, texts(crawl.allowed_extensions@))
    &&& !excluded(path_of(url, crawl.base_url@), texts(crawl.exclude_patterns@))
}

/// Whether two crawls have the same settings.
pub open spec fn same_settings(a: Crawl, b: Crawl) -> bool {
    &&& a.base_url == b.base_url
    &&& a.include_folders == b.include_folders
    &&& a.exclude_patterns == b.exclude_patterns
    &&& a.allowed_extensions == b.allowed_extensions
}

impl Crawl {
    /// A crawl of the configured server; folders and patterns that are given override the
    /// configured ones.
    pub fn new(config: &Config, include_overrides: &Vec<String>, exclude_overrides: &Vec<String>) -> (r:
        Self)
        ensures
            r.base_url@ == config.server.base_url@,
            texts(r.include_folders@) == effective(
                texts(include_overrides@),
                texts(config.sync.include_folders@),
            ),
            texts(r.exclude_patterns@) == effective(
                texts(exclude_overrides@),
                texts(config.sync.exclude_patterns@),
            ),
            texts(r.allowed_extensions@) == texts(config.sync.allowed_extensions@),
            r.visited@ == Set::<Seq<char>>::empty(),
    {
        Crawl {
            base_url: config.server.base_url.clone(),
            include_folders: effective_list(include_overrides, &config.sync.include_folders),
            exclude_patterns: effective_list(exclude_overrides, &config.sync.exclude_patterns),
            allowed_extensions: copy_texts(&config.sync.allowed_extensions),
            visited: StringHashSet::new(),
        }
    }

    /// Whether a directory is fetched, given whether a pattern excludes it.
    pub fn admits(&self, entry: &CrawlEntry, is_excluded: bool) -> (r: bool)
        ensures
            r == (!self.visited@.contains(entry.url@) && !is_unselected(
                entry.url@,
                entry.depth,
                texts(self.include_folders@),
            ) && !is_excluded),
    {
        if self.visited.contains(entry.url.as_str()) || is_excluded {
            return false;
        }
        if entry.depth == 1 && self.include_folders.len() > 0 {
            let name: String = last_segment(entry.url.as_str());
            contains_string(&self.include_folders, name.as_str())
        } else {
            true
        }
    }

    /// Looks at the next directory: the result is whether it is to be fetched.  One that is not
    /// counts as crawled.
    pub fn visit(&mut self, db: &mut Database, entry: &CrawlEntry) -> (r: bool)
        requires
            tables_ok(old(db)@),
        ensures
            tables_ok(final(db)@),
            r == is_admitted(*old(self), entry@),
            same_settings(*final(self), *old(self)),
            final(self).visited@ == old(self).visited@.insert(entry.url@),
            final(db)@ == (if r {
                old(db)@
            } else {
                DbView {
                    queue: old(db)@.queue.map_values(
                        |row: CrawlView| with_crawl_status(row, entry.id, "done"@),
                    ),
                    ..old(db)@
                }
            }),
    {
        let path: String = url_to_path(entry.url.as_str(), self.base_url.as_str());
        let left_out: bool = is_excluded(path.as_str(), &self.exclude_patterns);
        let fetch: bool = self.admits(entry, left_out);
        self.visited.insert(entry.url.clone());
        if !fetch {
            mark_crawl_done(db, entry.id);
        }
        fetch
    }
}

/// Attempts to fetch a directory.
pub struct FetchAttempts {
    /// The attempts that failed.
    pub failures: usize,
}

impl FetchAttempts {
    /// No attempts so far.
    pub fn new() -> (r: Self)
        ensures
            r.failures == 0,
    {
        FetchAttempts { failures: 0 }
    }

    /// After a failed attempt: whether another one is made.  With this one, fewer than
    /// `max_retries` attempts were made then.
    pub fn try_again(&mut self, max_retries: usize) -> (r: bool)
        ensures
            r == (old(self).failures + 1 < max_retries),
            final(self).failures == (if r {
                (old(self).failures + 1) as usize
            } else {
                old(self).failures
            }),
    {
        if max_retries > 1 && self.failures < max_retries - 1 {
            self.failures = self.failures + 1;
            true
        } else {
            false
        }
    }
}

// ---------------------------------------------------------------------------
// Listings
// ---------------------------------------------------------------------------

/// The tables after one entry of a listing: a directory is queued one level deeper, a file that
/// is recorded is discovered.
pub open spec fn absorbed_one(
    db: DbView,
    crawl: Crawl,
    entry: EntryView,
    depth: i64,
    now: Seq<char>,
) -> Result<DbView, DbError> {
    if entry.is_dir {
        enqueued(db, entry.url, (depth + 1) as i64, now)
    } else if is_recorded(crawl, entry.url) {
        upserted(
            db,
            entry.url,
            path_of(entry.url, crawl.base_url@),
            entry.last_modified,
            entry.size_bytes,
            now,
        )
    } else {
        Ok(db)
    }
}

/// The tables after the entries of a listing, one after the other.
pub open spec fn absorbed(
    db: DbView,
    crawl: Crawl,
    entries: Seq<EntryView>,
    depth: i64,
    now: Seq<char>,
) -> Result<DbView, DbError>
    decreases entries.len(),
{
    if entries.len() == 0 {
        Ok(db)
    } else {
        match absorbed(db, crawl, entries.drop_last(), depth, now) {
            Ok(before) => absorbed_one(before, crawl, entries.last(), depth, now),
            Err(e) => Err(e),
        }
    }
}

/// The tables after a listing: its entries, and the directory counts as crawled.
pub open spec fn listing_recorded(
    db: DbView,
    crawl: Crawl,
    directory: CrawlEntryView,
    entries: Seq<EntryView>,
    now: Seq<char>,
) -> Result<DbView, DbError> {
    match absorbed(db, crawl, entries, directory.depth, now) {
        Ok(after) => Ok(
            DbView {
                queue: after.queue.map_values(
                    |row: CrawlView| with_crawl_status(row, directory.id, "done"@),
                ),
                ..after
            },
        ),
        Err(e) => Err(e),
    }
}

/// The files of a listing that are recorded.
pub open spec fn recorded_files(crawl: Crawl, entries: Seq<EntryView>) -> Seq<EntryView> {
    entries.filter(|e: EntryView| !e.is_dir && is_recorded(crawl, e.url))
}

/// What fails at one entry fails for the whole listing.
proof fn lemma_absorbed_fails(
    db: DbView,
    crawl: Crawl,
    entries: Seq<EntryView>,
    n: int,
    depth: i64,
    now: Seq<char>,
    error: DbError,
)
    requires
        0 <= n <= entries.len(),
        absorbed(db, crawl, entries.take(n), depth, now) == Err::<DbView, DbError>(error),
    ensures
        absorbed(db, crawl, entries, depth, now) == Err::<DbView, DbError>(error),
    decreases entries.len() - n,
{
    if n == entries.len() {
        assert(entries.take(n) =~= entries);
    } else {
        assert(entries.take(n + 1).drop_last() =~= entries.take(n));
        lemma_absorbed_fails(db, crawl, entries, n + 1, depth, now, error);
    }
}

impl Crawl {
    /// Whether a listed file is recorded, given whether a pattern excludes it.
    pub fn records(&self, url: &str, is_excluded: bool) -> (r: bool)
        ensures
            r == (extension_wanted(url@, texts(self.allowed_extensions@)) && !is_excluded),
    {
        wants_extension(url, &self.allowed_extensions) && !is_excluded
    }

    /// Records the listing of a directory; the result is the number of files that were
    /// recorded.  All of it is recorded or nothing.
    pub fn record_listing(
        &self,
        db: &mut Database,
        directory: &CrawlEntry,
        entries: &Vec<DirEntry>,
        now: &str,
    ) -> (r: Result<usize, DbError>)
        requires
            tables_ok(old(db)@),
            directory.depth < i64::MAX,
        ensures
            tables_ok(final(db)@),
            match r {
                Ok(n) => listing_recorded(
                    old(db)@,
                    *self,
                    directory@,
                    entry_views(entries@),
                    now@,
                ) == Ok::<DbView, DbError>(final(db)@) && n == recorded_files(
                    *self,
                    entry_views(entries@),
                ).len(),
                Err(e) => listing_recorded(
                    old(db)@,
                    *self,
                    directory@,
                    entry_views(entries@),
                    now@,
                ) == Err::<DbView, DbError>(e) && final(db)@ == old(db)@,
            },
    {
        let ghost before: DbView = db@;
        let ghost all: Seq<EntryView> = entry_views(entries@);
        let ghost p = |e: EntryView| !e.is_dir && is_recorded(*self, e.url);
        let mut work: Database = db.copy();
        let mut added: usize = 0;
        let mut i: usize = 0;
        proof {
            reveal(Seq::filter);
            assert(all.take(0).filter(p) =~= Seq::<EntryView>::empty());
        }
        while i < entries.len()
            invariant
                i <= entries@.len(),
                added <= i,
                directory.depth < i64::MAX,
                all == entry_views(entries@),
                p == (|e: EntryView| !e.is_dir && is_recorded(*self, e.url)),
                before == old(db)@,
                db@ == before,
                tables_ok(before),
                tables_ok(work@),
                absorbed(before, *self, all.take(i as int), directory.depth, now@) == Ok::<
                    DbView,
                    DbError,
                >(work@),
                added == all.take(i as int).filter(p).len(),
            decreases entries.len() - i,
        {
            let ghost current: DbView = work@;
            proof {
                assert(all[i as int] == entries@[i as int]@);
                assert(all.take(i + 1) =~= all.take(i as int).push(all[i as int]));
                assert(all.take(i + 1).drop_last() =~= all.take(i as int));
                all.take(i as int).lemma_filter_push(all[i as int], p);
            }
            let entry: &DirEntry = &entries[i];
            if entry.is_dir {
                match enqueue_crawl(&mut work, entry.url.as_str(), directory.depth + 1, now) {
                    Ok(_) => {},
                    Err(e) => {
                        proof {
                            lemma_absorbed_fails(
                                before,
                                *self,
                                all,
                                i + 1,
                                directory.depth,
                                now@,
                                e,
                            );
                        }
                        return Err(e);
                    },
                }
            } else {
                let path: String = url_to_path(entry.url.as_str(), self.base_url.as_str());
                let left_out: bool = is_excluded(path.as_str(), &self.exclude_patterns);
                if self.records(entry.url.as_str(), left_out) {
                    let modified: Option<&str> = match &entry.last_modified {
                        Some(text) => Some(text.as_str()),
                        None => None,
                    };
                    match upsert_file(
                        &mut work,
                        entry.url.as_str(),
                        path.as_str(),
                        modified,
                        entry.size_bytes,
                        now,
                    ) {
                        Ok(_) => {},
                        Err(e) => {
                            proof {
                                lemma_absorbed_fails(
                                    before,
                                    *self,
                                    all,
                                    i + 1,
                                    directory.depth,
                                    now@,
                                    e,
                                );
                            }
                            return Err(e);
                        },
                    }
                    added += 1;
                }
            }
            i += 1;
        }
        assert(all.take(i as int) =~= all);
        mark_crawl_done(&mut work, directory.id);
        *db = work;
        Ok(added)
    }
}

/// Records that a directory could not be fetched.
pub fn record_failure(db: &mut Database, directory: &CrawlEntry)
    requires
        tables_ok(old(db)@),
    ensures
        tables_ok(final(db)@),
        final(db)@ == (DbView {
            queue: old(db)@.queue.map_values(
                |row: CrawlView| with_crawl_status(row, directory.id, "error"@),
            ),
            ..old(db)@
        }),
{
    mark_crawl_error(db, directory.id);
}

// ---------------------------------------------------------------------------
// Laws
// ---------------------------------------------------------------------------

/// A directory is fetched at most once in a crawl: after it was looked at it is not admitted
/// again, whatever was looked at in between.
pub proof fn law_directories_are_fetched_once(crawl: Crawl, entry: CrawlEntryView, later: Crawl)
    requires
        crawl.visited@.insert(entry.url).subset_of(later.visited@),
    ensures
        !is_admitted(later, entry),
{
    assert(crawl.visited@.insert(entry.url).contains(entry.url));
}

/// What was looked at stays so, however many directories follow.
pub proof fn law_visits_accumulate(visited: Set<Seq<char>>, urls: Seq<Seq<char>>)
    ensures
        visited.subset_of(visited_with(visited, urls)),
        forall|i: int| 0 <= i < urls.len() ==> visited_with(visited, urls).contains(#[trigger] urls[i]),
    decreases urls.len(),
{
    if urls.len() > 0 {
        law_visits_accumulate(visited, urls.drop_last());
        assert forall|i: int| 0 <= i < urls.len() implies visited_with(visited, urls).contains(
            #[trigger] urls[i],
        ) by {
            if i < urls.len() - 1 {
                assert(urls.drop_last()[i] == urls[i]);
            }
        }
    }
}

/// The directories that were looked at after those of `urls` were, one after the other.
pub open spec fn visited_with(visited: Set<Seq<char>>, urls: Seq<Seq<char>>) -> Set<Seq<char>>
    decreases urls.len(),
{
    if urls.len() == 0 {
        visited
    } else {
        visited_with(visited, urls.drop_last()).insert(urls.last())
    }
}

/// A top-level folder is entered only under its own name: with folders selected, the last
/// segment of its URL is exactly one of them.
pub proof fn law_selection_is_by_exact_name(crawl: Crawl, entry: CrawlEntryView)
    requires
        is_admitted(crawl, entry),
        entry.depth == 1,
        crawl.include_folders@.len() > 0,
    ensures
        texts(crawl.include_folders@).contains(segment_of(entry.url)),
{
}

/// The number of attempts that are still made if all fail, after `failures` of them.
pub open spec fn attempts_left(failures: int, max_retries: int) -> int
    decreases max_retries - failures,
{
    if failures + 1 < max_retries {
        1 + attempts_left(failures + 1, max_retries)
    } else {
        1
    }
}

/// A directory that cannot be fetched is tried as often as configured, and at least once.
pub proof fn law_fetching_is_bounded(max_retries: int)
    ensures
        attempts_left(0, max_retries) == (if max_retries > 0 {
            max_retries
        } else {
            1
        }),
{
    lemma_attempts_left(0, max_retries);
}

proof fn lemma_attempts_left(failures: int, max_retries: int)
    ensures
        attempts_left(failures, max_retries) == (if max_retries > failures {
            max_retries - failures
        } else {
            1
        }),
    decreases max_retries - failures,
{
    if failures + 1 < max_retries {
        lemma_attempts_left(failures + 1, max_retries);
    }
}

/// A crawl starts afresh only if no directory waits or has failed; it then starts from the root
/// alone.  Otherwise every directory that waited or had failed waits, and none is lost.
pub proof fn law_crawl_resumes(db: DbView, base_url: Seq<char>, now: Seq<char>, after: DbView, i: int)
    requires
        seeded(db, base_url, now) == Ok::<DbView, DbError>(after),
        0 <= i < db.queue.len(),
    ensures
        db.queue[i].status == "pending"@ || db.queue[i].status == "error"@ ==> after.queue.len()
            == db.queue.len() && after.queue[i].url == db.queue[i].url && after.queue[i].status
            == "pending"@,
        (forall|k: int|
            0 <= k < db.queue.len() ==> (#[trigger] db.queue[k]).status != "pending"@
                && db.queue[k].status != "error"@) ==> after.queue.len() == 1
            && after.queue[0].url == base_url && after.queue[0].depth == 0
            && after.queue[0].status == "pending"@,
        after.files == db.files,
        after.folders == db.folders,
{
    let resumed = db.queue.map_values(|row: CrawlView| retried(row));
    if db.queue[i].status == "pending"@ || db.queue[i].status == "error"@ {
        assert(resumed[i].status == "pending"@);
        assert(crawl_is_pending(resumed));
    }
    if forall|k: int|
        0 <= k < db.queue.len() ==> (#[trigger] db.queue[k]).status != "pending"@
            && db.queue[k].status != "error"@ {
        if crawl_is_pending(resumed) {
            let k = choose|k: int| 0 <= k < resumed.len() && resumed[k].status == "pending"@;
            assert(resumed[k] == retried(db.queue[k]));
        }
    }
}

/// Only wanted files enter the tables: a file that a listing brings in was listed as a file,
/// has a wanted extension and is not excluded.
pub proof fn law_only_wanted_files_enter(
    db: DbView,
    crawl: Crawl,
    entries: Seq<EntryView>,
    depth: i64,
    now: Seq<char>,
    after: DbView,
    url: Seq<char>,
)
    requires
        absorbed(db, crawl, entries, depth, now) == Ok::<DbView, DbError>(after),
        holds_file(after.files, url),
        !holds_file(db.files, url),
    ensures
        is_recorded(crawl, url),
        exists|i: int| 0 <= i < entries.len() && (#[trigger] entries[i]).url == url && !entries[i].is_dir,
    decreases entries.len(),
{
    if entries.len() > 0 {
        let shorter = entries.drop_last();
        let before = absorbed(db, crawl, shorter, depth, now)->Ok_0;
        if holds_file(before.files, url) {
            law_only_wanted_files_enter(db, crawl, shorter, depth, now, before, url);
            let i = choose|i: int|
                0 <= i < shorter.len() && (#[trigger] shorter[i]).url == url && !shorter[i].is_dir;
            assert(entries[i].url == url);
        } else {
            let last = entries.last();
            let k = choose|k: int| 0 <= k < after.files.len() && after.files[k].remote_url == url;
            if !last.is_dir && is_recorded(crawl, last.url) {
                if holds_file(before.files, last.url) {
                    assert(after.files[k].remote_url == before.files[k].remote_url);
                    assert(holds_file(before.files, url));
                } else if k < before.files.len() {
                    assert(after.files[k] == before.files[k]);
                    assert(holds_file(before.files, url));
                } else {
                    assert(last.url == url);
                    assert(entries[entries.len() - 1].url == url);
                }
            }
        }
    }
}

/// Every wanted file of a listing is in the tables afterwards, and every directory in the
/// queue.
pub proof fn law_listings_are_recorded_in_full(
    db: DbView,
    crawl: Crawl,
    entries: Seq<EntryView>,
    depth: i64,
    now: Seq<char>,
    after: DbView,
    i: int,
)
    requires
        absorbed(db, crawl, entries, depth, now) == Ok::<DbView, DbError>(after),
        0 <= i < entries.len(),
    ensures
        entries[i].is_dir ==> holds_entry(after.queue, entries[i].url),
        !entries[i].is_dir && is_recorded(crawl, entries[i].url) ==> holds_file(
            after.files,
            entries[i].url,
        ),
    decreases entries.len(),
{
    let shorter = entries.drop_last();
    let before = absorbed(db, crawl, shorter, depth, now)->Ok_0;
    let last = entries.last();
    if i < shorter.len() {
        law_listings_are_recorded_in_full(db, crawl, shorter, depth, now, before, i);
        assert(shorter[i] == entries[i]);
        if entries[i].is_dir {
            let k = choose|k: int|
                0 <= k < before.queue.len() && before.queue[k].url == entries[i].url;
            assert(after.queue[k].url == entries[i].url);
        } else if is_recorded(crawl, entries[i].url) {
            let k = choose|k: int|
                0 <= k < before.files.len() && before.files[k].remote_url == entries[i].url;
            assert(after.files[k].remote_url == entries[i].url);
        }
    } else if last.is_dir {
        if !holds_entry(before.queue, last.url) {
            assert(after.queue[before.queue.len() as int].url == last.url);
        }
    } else if is_recorded(crawl, last.url) {
        if holds_file(before.files, last.url) {
            let k = choose|k: int|
                0 <= k < before.files.len() && before.files[k].remote_url == last.url;
            assert(after.files[k].remote_url == last.url);
        } else {
            assert(after.files[before.files.len() as int].remote_url == last.url);
        }
    }
}

/// What the entries of a listing do to the queue: the rows that were there stay, and those that
/// are added wait one level deeper, under ids of their own.
proof fn lemma_absorbed_queue(
    db: DbView,
    crawl: Crawl,
    entries: Seq<EntryView>,
    depth: i64,
    now: Seq<char>,
    after: DbView,
)
    requires
        absorbed(db, crawl, entries, depth, now) == Ok::<DbView, DbError>(after),
        depth < i64::MAX,
    ensures
        after.queue.len() >= db.queue.len(),
        forall|k: int| 0 <= k < db.queue.len() ==> #[trigger] after.queue[k] == db.queue[k],
        forall|k: int|
            db.queue.len() <= k < after.queue.len() ==> {
                let row = #[trigger] after.queue[k];
                &&& row.status == "pending"@
                &&& row.depth == depth + 1
                &&& row.discovered_at == now
                &&& row.id > db.last_crawl_id
                &&& db.queue.len() > 0 ==> row.id > db.queue.last().id
                &&& exists|i: int|
                    0 <= i < entries.len() && (#[trigger] entries[i]).is_dir && entries[i].url
                        == row.url
            },
        after.last_crawl_id >= db.last_crawl_id,
        after.folders == db.folders,
    decreases entries.len(),
{
    if entries.len() > 0 {
        let shorter = entries.drop_last();
        let last = entries.last();
        let before = absorbed(db, crawl, shorter, depth, now)->Ok_0;
        lemma_absorbed_queue(db, crawl, shorter, depth, now, before);
        if before.queue.len() > 0 && db.queue.len() > 0 {
            let n = before.queue.len() - 1;
            assert(before.queue[n].id >= db.queue.last().id);
        }
        assert forall|k: int| db.queue.len() <= k < after.queue.len() implies {
            let row = #[trigger] after.queue[k];
            &&& row.status == "pending"@
            &&& row.depth == depth + 1
            &&& row.discovered_at == now
            &&& row.id > db.last_crawl_id
            &&& db.queue.len() > 0 ==> row.id > db.queue.last().id
            &&& exists|i: int|
                0 <= i < entries.len() && (#[trigger] entries[i]).is_dir && entries[i].url
                    == row.url
        } by {
            if k < before.queue.len() {
                assert(after.queue[k] == before.queue[k]);
                let i = choose|i: int|
                    0 <= i < shorter.len() && (#[trigger] shorter[i]).is_dir && shorter[i].url
                        == before.queue[k].url;
                assert(entries[i].is_dir && entries[i].url == after.queue[k].url);
            } else {
                assert(entries[entries.len() - 1].is_dir);
                assert(after.queue[k].url == last.url);
            }
        }
    }
}

/// Every directory of a listing that was not queued before waits afterwards, exactly one level
/// deeper than the listed directory.  So a directory below a selected folder is never taken for a
/// top-level one that is outside the selection, and those of the root are top-level ones.
pub proof fn law_listed_directories_wait_one_level_deeper(
    db: DbView,
    crawl: Crawl,
    directory: CrawlEntryView,
    at: int,
    entries: Seq<EntryView>,
    now: Seq<char>,
    after: DbView,
    i: int,
    folders: Seq<Seq<char>>,
)
    requires
        tables_ok(db),
        0 <= at < db.queue.len(),
        db.queue[at].id == directory.id,
        directory.depth < i64::MAX,
        listing_recorded(db, crawl, directory, entries, now) == Ok::<DbView, DbError>(after),
        0 <= i < entries.len(),
        entries[i].is_dir,
        forall|k: int| 0 <= k < db.queue.len() ==> (#[trigger] db.queue[k]).url != entries[i].url,
    ensures
        exists|k: int|
            {
                &&& db.queue.len() <= k < after.queue.len()
                &&& (#[trigger] after.queue[k]).url == entries[i].url
                &&& after.queue[k].status == "pending"@
                &&& after.queue[k].depth == directory.depth + 1
                &&& after.queue[k].discovered_at == now
                &&& directory.depth != 0 ==> !is_unselected(
                    entries[i].url,
                    after.queue[k].depth,
                    folders,
                )
                &&& directory.depth == 0 ==> after.queue[k].depth == 1
            },
{
    let recorded = absorbed(db, crawl, entries, directory.depth, now)->Ok_0;
    lemma_absorbed_queue(db, crawl, entries, directory.depth, now, recorded);
    law_listings_are_recorded_in_full(db, crawl, entries, directory.depth, now, recorded, i);
    let k = choose|k: int|
        0 <= k < recorded.queue.len() && (#[trigger] recorded.queue[k]).url == entries[i].url;
    if k < db.queue.len() {
        assert(db.queue[k].url == entries[i].url);
    }
    assert(db.queue[at].id <= db.queue.last().id);
    assert(recorded.queue[k].id != directory.id);
    assert(after.queue[k] == recorded.queue[k]);
}

/// A listing changes nothing else in the queue: the listed directory is done, the others stay as
/// they are, and only directories of the listing are added.
pub proof fn law_listings_keep_the_queue(
    db: DbView,
    crawl: Crawl,
    directory: CrawlEntryView,
    at: int,
    entries: Seq<EntryView>,
    now: Seq<char>,
    after: DbView,
    k: int,
)
    requires
        tables_ok(db),
        0 <= at < db.queue.len(),
        db.queue[at].id == directory.id,
        directory.depth < i64::MAX,
        listing_recorded(db, crawl, directory, entries, now) == Ok::<DbView, DbError>(after),
        0 <= k < after.queue.len(),
    ensures
        after.queue.len() >= db.queue.len(),
        k == at ==> after.queue[k] == (CrawlView { status: "done"@, ..db.queue[k] }),
        k < db.queue.len() && k != at ==> after.queue[k] == db.queue[k],
        k >= db.queue.len() ==> exists|i: int|
            0 <= i < entries.len() && (#[trigger] entries[i]).is_dir && entries[i].url
                == after.queue[k].url,
        after.folders == db.folders,
{
    let recorded = absorbed(db, crawl, entries, directory.depth, now)->Ok_0;
    lemma_absorbed_queue(db, crawl, entries, directory.depth, now, recorded);
    assert(after.queue[k] == with_crawl_status(recorded.queue[k], directory.id, "done"@));
    assert(db.queue[at].id <= db.queue.last().id);
    if k < at {
        assert(db.queue[k].id < db.queue[at].id);
    } else if at < k < db.queue.len() {
        assert(db.queue[at].id < db.queue[k].id);
    }
}

/// What the entries of a listing do to the files: those that were there and are not listed stay,
/// and those that are added are pending.
proof fn lemma_absorbed_files(
    db: DbView,
    crawl: Crawl,
    entries: Seq<EntryView>,
    depth: i64,
    now: Seq<char>,
    after: DbView,
)
    requires
        absorbed(db, crawl, entries, depth, now) == Ok::<DbView, DbError>(after),
    ensures
        after.files.len() >= db.files.len(),
        forall|k: int|
            0 <= k < db.files.len() ==> (#[trigger] after.files[k]).remote_url
                == db.files[k].remote_url,
        forall|k: int|
            0 <= k < db.files.len() && (forall|i: int|
                0 <= i < entries.len() && !(#[trigger] entries[i]).is_dir ==> entries[i].url
                    != db.files[k].remote_url) ==> #[trigger] after.files[k] == db.files[k],
        forall|k: int|
            db.files.len() <= k < after.files.len() ==> {
                let file = #[trigger] after.files[k];
                file == discovered(
                    file.id,
                    file.remote_url,
                    path_of(file.remote_url, crawl.base_url@),
                    file.last_modified,
                    file.size_bytes,
                    now,
                )
            },
    decreases entries.len(),
{
    if entries.len() > 0 {
        let shorter = entries.drop_last();
        let last = entries.last();
        let before = absorbed(db, crawl, shorter, depth, now)->Ok_0;
        lemma_absorbed_files(db, crawl, shorter, depth, now, before);
        lemma_status_texts();
        assert forall|k: int|
            0 <= k < db.files.len() && (forall|i: int|
                0 <= i < entries.len() && !(#[trigger] entries[i]).is_dir ==> entries[i].url
                    != db.files[k].remote_url) implies #[trigger] after.files[k]
            == db.files[k] by {
            assert forall|i: int| 0 <= i < shorter.len() && !(#[trigger] shorter[i]).is_dir implies
                shorter[i].url != db.files[k].remote_url by {
                assert(entries[i] == shorter[i]);
            }
            assert(before.files[k] == db.files[k]);
            let n = entries.len() - 1;
            assert(!entries[n].is_dir ==> entries[n].url != db.files[k].remote_url);
        }
        assert forall|k: int| db.files.len() <= k < after.files.len() implies {
            let file = #[trigger] after.files[k];
            file == discovered(
                file.id,
                file.remote_url,
                path_of(file.remote_url, crawl.base_url@),
                file.last_modified,
                file.size_bytes,
                now,
            )
        } by {
            if k < before.files.len() {
                assert(before.files[k].status == "pending"@);
            }
        }
    }
}

/// Every wanted file of a listing that was not known is pending afterwards, under its address and
/// its path, with the time and the size of its last entry.
pub proof fn law_listed_files_are_pending(
    db: DbView,
    crawl: Crawl,
    entries: Seq<EntryView>,
    depth: i64,
    now: Seq<char>,
    after: DbView,
    i: int,
)
    requires
        absorbed(db, crawl, entries, depth, now) == Ok::<DbView, DbError>(after),
        0 <= i < entries.len(),
        !entries[i].is_dir,
        is_recorded(crawl, entries[i].url),
        forall|j: int| i < j < entries.len() && !(#[trigger] entries[j]).is_dir ==> entries[j].url
            != entries[i].url,
        forall|k: int| 0 <= k < db.files.len() ==> (#[trigger] db.files[k]).remote_url
            != entries[i].url,
    ensures
        exists|k: int|
            {
                &&& db.files.len() <= k < after.files.len()
                &&& (#[trigger] after.files[k]).remote_url == entries[i].url
                &&& after.files[k].remote_path == path_of(entries[i].url, crawl.base_url@)
                &&& after.files[k].last_modified == entries[i].last_modified
                &&& after.files[k].size_bytes == entries[i].size_bytes
                &&& after.files[k].status == "pending"@
                &&& after.files[k].discovered_at == now
                &&& after.files[k].retry_count == 0
                &&& after.files[k].checksum_sha256 is None
            },
    decreases entries.len(),
{
    let shorter = entries.drop_last();
    let last = entries.last();
    let before = absorbed(db, crawl, shorter, depth, now)->Ok_0;
    lemma_absorbed_files(db, crawl, shorter, depth, now, before);
    lemma_absorbed_files(db, crawl, entries, depth, now, after);
    let url = entries[i].url;
    lemma_status_texts();
    if i < shorter.len() {
        assert(shorter[i] == entries[i]);
        assert forall|j: int| i < j < shorter.len() && !(#[trigger] shorter[j]).is_dir implies
            shorter[j].url != shorter[i].url by {
            assert(entries[j] == shorter[j]);
        }
        law_listed_files_are_pending(db, crawl, shorter, depth, now, before, i);
        let k = choose|k: int|
            {
                &&& db.files.len() <= k < before.files.len()
                &&& (#[trigger] before.files[k]).remote_url == url
                &&& before.files[k].remote_path == path_of(url, crawl.base_url@)
                &&& before.files[k].last_modified == entries[i].last_modified
                &&& before.files[k].size_bytes == entries[i].size_bytes
                &&& before.files[k].status == "pending"@
                &&& before.files[k].discovered_at == now
                &&& before.files[k].retry_count == 0
                &&& before.files[k].checksum_sha256 is None
            };
        let n = entries.len() - 1;
        assert(!entries[n].is_dir ==> entries[n].url != url);
        assert(after.files[k] == before.files[k]);
    } else if holds_file(before.files, url) {
        let k = choose|k: int|
            0 <= k < before.files.len() && (#[trigger] before.files[k]).remote_url == url;
        if k < db.files.len() {
            assert(db.files[k].remote_url == url);
        }
        assert(after.files[k] == rediscovered(
            before.files[k],
            last.last_modified,
            last.size_bytes,
        ));
        assert(before.files[k].status == "pending"@);
    } else {
        let k = before.files.len() as int;
        assert(after.files[k].remote_url == url);
    }
}

/// A file that was known and is listed once follows the listing; one that is not listed stays as
/// it is.
pub proof fn law_known_files_follow_their_entry(
    db: DbView,
    crawl: Crawl,
    entries: Seq<EntryView>,
    depth: i64,
    now: Seq<char>,
    after: DbView,
    i: int,
    k: int,
)
    requires
        absorbed(db, crawl, entries, depth, now) == Ok::<DbView, DbError>(after),
        0 <= k < db.files.len(),
    ensures
        (forall|j: int|
            0 <= j < entries.len() && !(#[trigger] entries[j]).is_dir ==> entries[j].url
                != db.files[k].remote_url) ==> after.files[k] == db.files[k],
        (0 <= i < entries.len() && !entries[i].is_dir && is_recorded(crawl, entries[i].url)
            && entries[i].url == db.files[k].remote_url && (forall|j: int|
            0 <= j < entries.len() && j != i && !(#[trigger] entries[j]).is_dir ==> entries[j].url
                != entries[i].url)) ==> after.files[k] == rediscovered(
            db.files[k],
            entries[i].last_modified,
            entries[i].size_bytes,
        ),
    decreases entries.len(),
{
    lemma_absorbed_files(db, crawl, entries, depth, now, after);
    if 0 <= i < entries.len() && !entries[i].is_dir && is_recorded(crawl, entries[i].url)
        && entries[i].url == db.files[k].remote_url && (forall|j: int|
        0 <= j < entries.len() && j != i && !(#[trigger] entries[j]).is_dir ==> entries[j].url
            != entries[i].url) {
        let url = entries[i].url;
        let shorter = entries.drop_last();
        let n = entries.len() - 1;
        let before = absorbed(db, crawl, shorter, depth, now)->Ok_0;
        lemma_absorbed_files(db, crawl, shorter, depth, now, before);
        law_known_files_follow_their_entry(db, crawl, shorter, depth, now, before, i, k);
        if i < n {
            assert(shorter[i] == entries[i]);
            assert forall|j: int|
                0 <= j < shorter.len() && j != i && !(#[trigger] shorter[j]).is_dir implies
                shorter[j].url != shorter[i].url by {
                assert(entries[j] == shorter[j]);
            }
            assert(!entries[n].is_dir ==> entries[n].url != url);
            assert(after.files[k] == before.files[k]);
        } else {
            assert forall|j: int| 0 <= j < shorter.len() && !(#[trigger] shorter[j]).is_dir implies
                shorter[j].url != db.files[k].remote_url by {
                assert(entries[j] == shorter[j]);
            }
            assert(before.files[k] == db.files[k]);
            assert(holds_file(before.files, url));
        }
    }
}

/// The files of a listing that are counted are those that are recorded: listed as files, with a
/// wanted extension and under a path that no pattern excludes.
pub proof fn law_recorded_files_are_wanted(crawl: Crawl, entries: Seq<EntryView>, entry: EntryView)
    ensures
        recorded_files(crawl, entries.push(entry)).len() == recorded_files(crawl, entries).len() + (
        if !entry.is_dir && extension_wanted(entry.url, texts(crawl.allowed_extensions@))
            && !excluded(path_of(entry.url, crawl.base_url@), texts(crawl.exclude_patterns@)) {
            1int
        } else {
            0int
        }),
        recorded_files(crawl, Seq::empty()).len() == 0,
{
    reveal(Seq::filter);
    entries.lemma_filter_push(entry, |e: EntryView| !e.is_dir && is_recorded(crawl, e.url));
}

/// Whether a file is recorded is decided by its extension and the patterns alone.
pub proof fn law_wanted_files_are_recorded(crawl: Crawl, url: Seq<char>)
    ensures
        is_recorded(crawl, url) <==> extension_wanted(url, texts(crawl.allowed_extensions@))
            && !excluded(path_of(url, crawl.base_url@), texts(crawl.exclude_patterns@)),
        crawl.allowed_extensions@.len() == 0 && crawl.exclude_patterns@.len() == 0 ==> is_recorded(
            crawl,
            url,
        ),
{
}

/// With folders selected, a top-level folder is entered exactly if its name is selected, whatever
/// address it lies under and however many slashes follow its name.  Without a selection, and at
/// every other depth, names do not matter.
pub proof fn law_selected_folders_are_entered(
    crawl: Crawl,
    id: i64,
    depth: i64,
    parent: Seq<char>,
    name: Seq<char>,
    slashes: Seq<char>,
)
    requires
        name.len() > 0,
        forall|i: int| 0 <= i < name.len() ==> #[trigger] name[i] != '/',
        forall|i: int| 0 <= i < slashes.len() ==> #[trigger] slashes[i] == '/',
    ensures
        ({
            let url = parent + seq!['/'] + name + slashes;
            let left_out = excluded(path_of(url, crawl.base_url@), texts(crawl.exclude_patterns@));
            is_admitted(crawl, CrawlEntryView { id, url, depth }) <==> {
                &&& !crawl.visited@.contains(url)
                &&& !left_out
                &&& depth != 1 || crawl.include_folders@.len() == 0 || (exists|i: int|
                    0 <= i < crawl.include_folders@.len() && (
                    #[trigger] crawl.include_folders@[i])@ == name)
            }
        }),
{
    let url = parent + seq!['/'] + name + slashes;
    law_names_are_last_segments(parent, name, slashes);
    let folders = texts(crawl.include_folders@);
    if folders.contains(name) {
        let i = choose|i: int| 0 <= i < folders.len() && folders[i] == name;
        assert(crawl.include_folders@[i]@ == name);
    }
    if exists|i: int|
        0 <= i < crawl.include_folders@.len() && (#[trigger] crawl.include_folders@[i])@ == name {
        let i = choose|i: int|
            0 <= i < crawl.include_folders@.len() && (#[trigger] crawl.include_folders@[i])@ == name;
        assert(folders[i] == name);
    }
}

/// A crawl that is resumed keeps every directory as it is, but for those that had failed, which
/// wait again.
pub proof fn law_resumed_crawls_keep_the_queue(
    db: DbView,
    base_url: Seq<char>,
    now: Seq<char>,
    after: DbView,
    waiting: int,
    i: int,
)
    requires
        seeded(db, base_url, now) == Ok::<DbView, DbError>(after),
        0 <= waiting < db.queue.len(),
        db.queue[waiting].status == "pending"@ || db.queue[waiting].status == "error"@,
        0 <= i < db.queue.len(),
    ensures
        after.queue.len() == db.queue.len(),
        db.queue[i].status == "error"@ ==> after.queue[i] == (CrawlView {
            status: "pending"@,
            ..db.queue[i]
        }),
        db.queue[i].status != "error"@ ==> after.queue[i] == db.queue[i],
{
    law_crawl_resumes(db, base_url, now, after, waiting);
    let resumed = db.queue.map_values(|row: CrawlView| retried(row));
    assert(resumed[waiting].status == "pending"@);
    assert(crawl_is_pending(resumed));
}

/// What is given on the command line replaces what is configured as a whole; nothing given leaves
/// the configuration in force.
pub proof fn law_overrides_replace_the_configuration(
    overrides: Seq<Seq<char>>,
    configured: Seq<Seq<char>>,
)
    ensures
        overrides.len() > 0 ==> effective(overrides, configured) == overrides,
        effective(Seq::empty(), configured) == configured,
{
}

} // verus!
