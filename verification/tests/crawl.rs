use elscione_sync::config::Config;
use elscione_sync::crawler::crawl::{
    effective_list, record_failure, seed, Crawl, FetchAttempts, Seed, CRAWL_BATCH, RETRY_DELAY_SECS,
};
use elscione_sync::crawler::parser::DirEntry;
use elscione_sync::crawler::rate_limiter::{time_until, RateLimiter};
use elscione_sync::crawler::session::{cookie_parts, Clearance};
use elscione_sync::db::models::{enqueue_crawl, mark_crawl_done, mark_crawl_error, next_crawl_entries, DbError};
use elscione_sync::db::tables::Database;

const NOW: &str = "2024-05-06 07:08:09";
const BASE: &str = "https://example.test/";

fn list(texts: &[&str]) -> Vec<String> {
    texts.iter().map(|t| t.to_string()).collect()
}

fn config() -> Config {
    let mut config = Config::default();
    config.server.base_url = BASE.to_owned();
    config
}

fn entry(url: &str, is_dir: bool) -> DirEntry {
    DirEntry {
        url: format!("{BASE}{url}"),
        name: url.to_owned(),
        is_dir,
        last_modified: Some("2024-01-01 00:00".to_owned()),
        size_bytes: Some(10),
    }
}

#[test]
fn overrides_replace_the_configured_lists() {
    let configured = list(&["a"]);
    assert_eq!(effective_list(&list(&[]), &configured), configured);
    assert_eq!(effective_list(&list(&["b", "c"]), &configured), list(&["b", "c"]));
    let mut config = config();
    config.sync.include_folders = list(&["Books"]);
    config.sync.exclude_patterns = list(&["*.zip"]);
    config.sync.allowed_extensions = list(&["epub"]);
    let crawl = Crawl::new(&config, &list(&[]), &list(&["*.rar"]));
    assert_eq!(crawl.include_folders, list(&["Books"]));
    assert_eq!(crawl.exclude_patterns, list(&["*.rar"]));
    assert_eq!(crawl.allowed_extensions, list(&["epub"]));
    assert_eq!(crawl.base_url, BASE);
    assert!(crawl.visited.is_empty());
}

#[test]
fn a_crawl_starts_fresh_or_resumes() {
    let mut db = Database::new();
    assert_eq!(seed(&mut db, BASE, NOW), Ok(Seed::Fresh));
    assert_eq!(db.queue.len(), 1);
    assert_eq!((db.queue[0].url.as_str(), db.queue[0].depth), (BASE, 0));

    enqueue_crawl(&mut db, "x", 1, NOW).unwrap();
    enqueue_crawl(&mut db, "y", 1, NOW).unwrap();
    mark_crawl_done(&mut db, 1);
    mark_crawl_error(&mut db, 2);
    assert_eq!(seed(&mut db, BASE, NOW), Ok(Seed::Resumed { retried: 1 }));
    assert_eq!(next_crawl_entries(&db, CRAWL_BATCH).len(), 2);

    // Failed directories alone are enough to resume.
    mark_crawl_done(&mut db, 3);
    mark_crawl_error(&mut db, 2);
    assert_eq!(seed(&mut db, BASE, NOW), Ok(Seed::Resumed { retried: 1 }));
    let next = next_crawl_entries(&db, CRAWL_BATCH);
    assert_eq!(next.len(), 1);
    assert_eq!(next[0].url, "x");

    mark_crawl_done(&mut db, 2);
    assert_eq!(seed(&mut db, BASE, NOW), Ok(Seed::Fresh));
    assert_eq!(db.queue.len(), 1);

    let mut full = Database::load(vec![], vec![], vec![], 0, i64::MAX, 0).unwrap();
    assert_eq!(seed(&mut full, BASE, NOW), Err(DbError::Full));
}

#[test]
fn directories_are_fetched_once_and_by_selection() {
    let mut db = Database::new();
    for (url, depth) in [("", 0), ("Art/", 1), ("Articles/", 1), ("Art/Drafts/", 2), ("Art/Old/", 2)] {
        enqueue_crawl(&mut db, &format!("{BASE}{url}"), depth, NOW).unwrap();
    }
    let mut crawl = Crawl::new(&config(), &list(&["Art"]), &list(&["Drafts"]));
    let entries = next_crawl_entries(&db, CRAWL_BATCH);
    let fetched: Vec<bool> = entries.iter().map(|e| crawl.visit(&mut db, e)).collect();
    assert_eq!(fetched, vec![true, true, false, false, true]);
    let statuses: Vec<&str> = db.queue.iter().map(|e| e.status.as_str()).collect();
    assert_eq!(statuses, vec!["pending", "pending", "done", "done", "pending"]);
    // A second look never fetches.
    for e in &entries {
        assert!(!crawl.visit(&mut db, e));
    }
    assert!(next_crawl_entries(&db, CRAWL_BATCH).is_empty());
    assert_eq!(crawl.visited.len(), 5);
}

#[test]
fn admission_on_given_exclusion() {
    let crawl = Crawl::new(&config(), &list(&[]), &list(&[]));
    let mut db = Database::new();
    enqueue_crawl(&mut db, BASE, 1, NOW).unwrap();
    let e = &next_crawl_entries(&db, 1)[0];
    assert!(crawl.admits(e, false));
    assert!(!crawl.admits(e, true));
    assert!(crawl.records("a.epub", false));
    assert!(!crawl.records("a.epub", true));
}

#[test]
fn listings_are_recorded() {
    let mut config = config();
    config.sync.allowed_extensions = list(&["epub"]);
    let crawl = Crawl::new(&config, &list(&[]), &list(&["Secret*"]));
    let mut db = Database::new();
    enqueue_crawl(&mut db, BASE, 0, NOW).unwrap();
    let root = &next_crawl_entries(&db, 1)[0];
    let entries = vec![
        entry("Books/", true),
        entry("a.epub", false),
        entry("b.pdf", false),
        entry("Secret.epub", false),
        entry("a.epub", false),
    ];
    assert_eq!(crawl.record_listing(&mut db, root, &entries, NOW), Ok(2));
    assert_eq!(db.files.len(), 1);
    assert_eq!(db.files[0].remote_path, "/a.epub");
    assert_eq!(db.files[0].size_bytes, Some(10));
    assert_eq!(db.queue.len(), 2);
    assert_eq!(db.queue[0].status, "done");
    assert_eq!((db.queue[1].url.as_str(), db.queue[1].depth), ("https://example.test/Books/", 1));
    assert_eq!(db.queue[1].status, "pending");
}

#[test]
fn listings_are_recorded_in_full_or_not_at_all() {
    let crawl = Crawl::new(&config(), &list(&[]), &list(&[]));
    let mut db = Database::load(vec![], vec![], vec![], i64::MAX - 1, 0, 0).unwrap();
    enqueue_crawl(&mut db, BASE, 0, NOW).unwrap();
    let root = &next_crawl_entries(&db, 1)[0];
    let entries = vec![entry("a.epub", false), entry("b.epub", false)];
    assert_eq!(crawl.record_listing(&mut db, root, &entries, NOW), Err(DbError::Full));
    assert!(db.files.is_empty());
    assert_eq!(db.queue[0].status, "pending");
    record_failure(&mut db, root);
    assert_eq!(db.queue[0].status, "error");
}

#[test]
fn fetching_is_bounded() {
    for (max, expected) in [(0, 1), (1, 1), (3, 3)] {
        let mut attempts = FetchAttempts::new();
        let mut made = 1;
        while attempts.try_again(max) {
            made += 1;
        }
        assert_eq!(made, expected);
    }
    assert_eq!(RETRY_DELAY_SECS, 1);
}

#[test]
fn slots_are_spaced() {
    let mut limiter = RateLimiter::new(40, 1_000);
    let times = [2_000u128, 2_000, 2_000, 500_000_000, 500_000_001];
    let mut slots = Vec::new();
    for now in times {
        assert!(limiter.can_claim(now));
        slots.push(limiter.claim(now).unwrap());
    }
    assert_eq!(slots, vec![2_000, 40_002_000, 80_002_000, 500_000_000, 540_000_000]);
    assert!(slots.windows(2).all(|w| w[1] >= w[0] + 40_000_000));
    assert_eq!(time_until(80, 30), 50);
    assert_eq!(time_until(30, 80), 0);

    let mut free = RateLimiter::new(0, 5);
    assert_eq!(free.claim(9), None);
    let limiter = RateLimiter::new(1, u128::MAX);
    assert!(!limiter.can_claim(0));
}

#[test]
fn cookies_are_split() {
    assert_eq!(
        cookie_parts(" cf_clearance=abc ; a=b;; \t;c=d e;"),
        list(&["cf_clearance=abc", "a=b", "c=d e"])
    );
    assert!(cookie_parts("").is_empty());
}

#[test]
fn one_of_several_denied_requests_renews_the_clearance() {
    let mut clearance = Clearance::new();
    let seen = [clearance.current(), clearance.current(), clearance.current()];
    let mut renewals = 0;
    for s in seen {
        if clearance.needs_renewal(s) {
            renewals += 1;
            clearance.renewed();
        }
    }
    assert_eq!(renewals, 1);
    assert_eq!(clearance.current(), 1);
    assert!(clearance.needs_renewal(clearance.current()));
}
