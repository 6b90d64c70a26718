use elscione_sync::db::models::{
    clear_crawl_queue, enqueue_crawl, files_by_status, files_by_status_limited, has_any_selected_folders,
    has_pending_crawl, list_files, load_selected_folders, mark_crawl_done, mark_crawl_error,
    next_crawl_entries, pending_bytes, pending_count, record_error, reset_crawl_errors, reset_interrupted,
    save_selected_folders, set_file_status, status_counts, upsert_file, DbError, FileStatus,
};
use elscione_sync::db::schema;
use elscione_sync::db::tables::{CrawlRow, Database, FileRow, SelectedFolder};
use rusqlite::Connection;

const NOW: &str = "2024-05-06 07:08:09";

fn file_row(id: i64, remote_path: &str, status: &str) -> FileRow {
    FileRow {
        id,
        remote_url: format!("https://example.test{remote_path}"),
        remote_path: remote_path.to_owned(),
        last_modified: None,
        size_bytes: Some(42),
        local_path: None,
        status: status.to_owned(),
        error_message: None,
        retry_count: 0,
        discovered_at: NOW.to_owned(),
        completed_at: None,
        checksum_sha256: None,
    }
}

fn database(files: &[(&str, &str)]) -> Database {
    let rows: Vec<FileRow> = files
        .iter()
        .enumerate()
        .map(|(i, (path, status))| file_row(i as i64 + 1, path, status))
        .collect();
    let n = rows.len() as i64;
    Database::load(rows, vec![], vec![], n, 0, n).unwrap()
}

fn test_conn() -> Connection {
    let conn = Connection::open_in_memory().expect("open in-memory database");
    conn.execute_batch(schema::V1_INITIAL)
        .expect("create schema");
    conn
}

fn paths(db: &Database, filter: Option<&str>, status: Option<&str>) -> Vec<String> {
    list_files(db, filter, status).unwrap().into_iter().map(|f| f.remote_path).collect()
}

#[test]
fn list_files_handles_all_filter_combinations() {
    let db = database(&[("/Books/a.epub", "pending"), ("/Manga/b.cbz", "done")]);

    let all = list_files(&db, None, None).expect("list all");
    assert_eq!(all.len(), 2);

    let by_path = list_files(&db, Some("Books"), None).expect("filter by path");
    assert_eq!(by_path.len(), 1);
    assert_eq!(by_path[0].remote_path, "/Books/a.epub");

    let by_status = list_files(&db, None, Some("done")).expect("filter by status");
    assert_eq!(by_status.len(), 1);
    assert_eq!(by_status[0].remote_path, "/Manga/b.cbz");

    let by_both = list_files(&db, Some("Books"), Some("pending")).expect("filter by both");
    assert_eq!(by_both.len(), 1);
    assert_eq!(by_both[0].remote_path, "/Books/a.epub");
}

#[test]
fn files_by_status_limited_caps_result_count() {
    let db = database(&[
        ("/Books/a.epub", "pending"),
        ("/Books/b.epub", "pending"),
        ("/Books/c.epub", "pending"),
    ]);

    let files = files_by_status_limited(&db, "pending", 2).expect("load pending batch");

    assert_eq!(files.len(), 2);
    assert_eq!(files[0].remote_path, "/Books/a.epub");
    assert_eq!(files[1].remote_path, "/Books/b.epub");
}

#[test]
fn schema_rejects_invalid_file_status() {
    let conn = test_conn();

    let result = conn.execute(
        "INSERT INTO files (remote_url, remote_path, status)
             VALUES ('https://example.test/bad.epub', '/bad.epub', 'mystery')",
        [],
    );

    assert!(result.is_err());
}

#[test]
fn invalid_file_status_rows_are_not_treated_as_pending() {
    let db = database(&[("/bad.epub", "mystery")]);

    let result = list_files(&db, None, None);

    assert!(result.is_err());
    assert_eq!(result.unwrap_err(), DbError::UnknownStatus);
    assert_eq!(pending_count(&db), 0);
}

#[test]
fn triggers_reject_invalid_statuses_in_old_tables() {
    let conn = Connection::open_in_memory().unwrap();
    conn.execute_batch(
        "CREATE TABLE files (remote_url TEXT, status TEXT);
         CREATE TABLE crawl_queue (url TEXT, status TEXT);",
    )
    .unwrap();
    conn.execute_batch(schema::V2_STATUS_VALIDATION).unwrap();
    assert!(conn.execute("INSERT INTO files VALUES ('u', 'skipped')", []).is_ok());
    assert!(conn.execute("INSERT INTO files VALUES ('v', 'mystery')", []).is_err());
    assert!(conn.execute("UPDATE files SET status = 'mystery'", []).is_err());
    assert!(conn.execute("INSERT INTO crawl_queue VALUES ('u', 'skipped')", []).is_err());
    assert!(conn.execute("INSERT INTO crawl_queue VALUES ('u', 'done')", []).is_ok());
}

#[test]
fn statuses_round_trip() {
    for status in [
        FileStatus::Pending,
        FileStatus::Downloading,
        FileStatus::Done,
        FileStatus::Error,
        FileStatus::Skipped,
    ] {
        assert_eq!(FileStatus::parse(status.as_str()), Ok(status));
        assert_eq!(status.as_str().parse::<FileStatus>(), Ok(status));
    }
    assert_eq!(
        FileStatus::parse("Pending"),
        Err("unknown file status: Pending".to_owned())
    );
}

#[test]
fn discovery_of_new_and_known_files() {
    let mut db = Database::new();
    assert_eq!(upsert_file(&mut db, "u1", "/1", Some("t1"), Some(5), NOW), Ok(1));
    assert_eq!(upsert_file(&mut db, "u2", "/2", None, None, NOW), Ok(2));
    // A known file keeps its row; an id is set aside all the same.
    assert_eq!(upsert_file(&mut db, "u1", "/other", Some("t2"), Some(6), NOW), Ok(2));
    assert_eq!(db.files.len(), 2);
    assert_eq!(db.files[0].remote_path, "/1");
    assert_eq!(db.files[0].last_modified.as_deref(), Some("t2"));
    assert_eq!(db.files[0].size_bytes, Some(6));
    assert_eq!(upsert_file(&mut db, "u3", "/3", None, None, NOW), Ok(4));
    assert_eq!(db.last_file_id, 4);
    assert_eq!(db.files[2].discovered_at, NOW);
    assert_eq!(db.files[2].status, "pending");
}

#[test]
fn rediscovery_by_status_and_time() {
    for (status, old_time, new_time, expected) in [
        ("done", Some("t1"), Some("t1"), "done"),
        ("done", Some("t1"), Some("t2"), "pending"),
        ("done", None, Some("t2"), "done"),
        ("done", Some("t1"), None, "done"),
        ("skipped", Some("t1"), Some("t1"), "pending"),
        ("error", None, None, "pending"),
        ("pending", Some("t1"), Some("t2"), "pending"),
        ("downloading", Some("t1"), Some("t2"), "downloading"),
    ] {
        let mut row = file_row(1, "/a", status);
        row.last_modified = old_time.map(|t| t.to_owned());
        let mut db = Database::load(vec![row], vec![], vec![], 1, 0, 1).unwrap();
        upsert_file(&mut db, "https://example.test/a", "/a", new_time, Some(9), NOW).unwrap();
        assert_eq!(db.files[0].status, expected, "{} {:?} {:?}", status, old_time, new_time);
        let kept = status == "done" && expected == "done";
        assert_eq!(db.files[0].size_bytes, Some(if kept { 42 } else { 9 }));
        // A second time changes nothing more.
        let before = format!("{:?}", db.files);
        upsert_file(&mut db, "https://example.test/a", "/a", new_time, Some(9), NOW).unwrap();
        assert_eq!(format!("{:?}", db.files), before);
    }
    let mut db = database(&[("/bad", "mystery")]);
    assert_eq!(
        upsert_file(&mut db, "https://example.test/bad", "/bad", None, None, NOW),
        Err(DbError::InvalidStatus)
    );
    assert_eq!(db.last_file_id, 1);
}

#[test]
fn tables_run_out_of_ids() {
    let mut db = Database::load(vec![], vec![], vec![], i64::MAX, i64::MAX, 0).unwrap();
    assert_eq!(upsert_file(&mut db, "u", "/u", None, None, NOW), Err(DbError::Full));
    assert_eq!(enqueue_crawl(&mut db, "u", 0, NOW), Err(DbError::Full));
    assert!(db.files.is_empty() && db.queue.is_empty());
}

#[test]
fn status_changes() {
    let mut db = database(&[("/a", "downloading"), ("/b", "done")]);
    set_file_status(&mut db, 1, "done", None, Some("abc"), NOW).unwrap();
    assert_eq!(db.files[0].status, "done");
    assert_eq!(db.files[0].checksum_sha256.as_deref(), Some("abc"));
    assert_eq!(db.files[0].completed_at.as_deref(), Some(NOW));
    // A finished file stays as it is.
    set_file_status(&mut db, 1, "pending", Some("x"), None, NOW).unwrap();
    set_file_status(&mut db, 2, "mystery", None, None, NOW).unwrap();
    record_error(&mut db, 2, "x");
    assert_eq!(db.files[0].status, "done");
    assert_eq!(db.files[1].status, "done");
    assert_eq!(db.files[1].retry_count, 0);

    let mut db = database(&[("/a", "downloading")]);
    assert_eq!(
        set_file_status(&mut db, 1, "mystery", None, None, NOW),
        Err(DbError::InvalidStatus)
    );
    assert_eq!(set_file_status(&mut db, 7, "mystery", None, None, NOW), Ok(()));
    assert_eq!(db.files[0].status, "downloading");
    set_file_status(&mut db, 1, "error", Some("why"), None, NOW).unwrap();
    assert_eq!(db.files[0].error_message.as_deref(), Some("why"));
    assert_eq!(db.files[0].completed_at, None);
    record_error(&mut db, 1, "again");
    record_error(&mut db, 1, "and again");
    assert_eq!(db.files[0].retry_count, 2);
    assert_eq!(db.files[0].error_message.as_deref(), Some("and again"));
}

#[test]
fn resets() {
    let all = [
        ("/a", "pending"),
        ("/b", "downloading"),
        ("/c", "done"),
        ("/d", "error"),
        ("/e", "skipped"),
    ];
    let mut db = database(&all);
    assert_eq!(reset_interrupted(&mut db, true), 1);
    let statuses: Vec<&str> = db.files.iter().map(|f| f.status.as_str()).collect();
    assert_eq!(statuses, vec!["pending", "downloading", "done", "pending", "skipped"]);

    let mut db = database(&all);
    assert_eq!(reset_interrupted(&mut db, false), 3);
    let statuses: Vec<&str> = db.files.iter().map(|f| f.status.as_str()).collect();
    assert_eq!(statuses, vec!["pending", "pending", "done", "pending", "pending"]);
    assert_eq!(reset_interrupted(&mut db, false), 0);
}

#[test]
fn counts_add_up() {
    let db = database(&[
        ("/a", "pending"),
        ("/b", "done"),
        ("/c", "pending"),
        ("/d", "downloading"),
        ("/e", "mystery"),
    ]);
    let counts = status_counts(&db);
    assert_eq!(
        counts,
        vec![
            ("done".to_owned(), 1),
            ("downloading".to_owned(), 1),
            ("mystery".to_owned(), 1),
            ("pending".to_owned(), 2)
        ]
    );
    assert_eq!(counts.iter().map(|c| c.1).sum::<i64>(), 5);
    assert_eq!(pending_count(&db), 2);
    assert_eq!(pending_count(&db), files_by_status(&db, "pending").unwrap().len() as i64);
    assert_eq!(pending_bytes(&db), Ok(3 * 42));
    assert_eq!(files_by_status(&db, "mystery").unwrap_err(), DbError::UnknownStatus);
    assert!(status_counts(&Database::new()).is_empty());
}

#[test]
fn sums_that_are_too_large() {
    let mut rows = vec![file_row(1, "/a", "pending"), file_row(2, "/b", "downloading")];
    rows[0].size_bytes = Some(i64::MAX);
    rows[1].size_bytes = None;
    let db = Database::load(rows, vec![], vec![], 2, 0, 0).unwrap();
    assert_eq!(pending_bytes(&db), Ok(i64::MAX));
    let mut rows = vec![file_row(1, "/a", "pending"), file_row(2, "/b", "downloading")];
    rows[0].size_bytes = Some(i64::MAX);
    let db = Database::load(rows, vec![], vec![], 2, 0, 0).unwrap();
    assert_eq!(pending_bytes(&db), Err(DbError::Overflow));
}

#[test]
fn listings_are_sorted_and_limited() {
    let files: Vec<(String, &str)> =
        (0..600).map(|i| (format!("/{:03}", 599 - i), "pending")).collect();
    let refs: Vec<(&str, &str)> = files.iter().map(|(p, s)| (p.as_str(), *s)).collect();
    let db = database(&refs);
    let listed = paths(&db, None, None);
    assert_eq!(listed.len(), 500);
    assert_eq!(listed[0], "/000");
    assert_eq!(listed[499], "/499");
    assert_eq!(paths(&db, Some("59"), None), {
        let mut expected: Vec<String> =
            vec!["/059", "/159", "/259", "/359", "/459", "/559"].iter().map(|s| s.to_string()).collect();
        expected.extend((590..600).map(|i| format!("/{}", i)));
        expected
    });
}

#[test]
fn filters_have_no_wildcards() {
    let files = vec![file_row(1, "/a_b.epub", "pending"), file_row(2, "/axb.epub", "pending")];
    let db = Database::load(files, vec![], vec![], 2, 0, 0).unwrap();
    assert_eq!(paths(&db, Some("a_b"), None), vec!["/a_b.epub"]);
    assert_eq!(paths(&db, Some("%"), None), Vec::<String>::new());
    assert_eq!(paths(&db, Some("A"), None), Vec::<String>::new());
    assert_eq!(paths(&db, Some("b.e"), None), vec!["/a_b.epub", "/axb.epub"]);
}

#[test]
fn filters_are_substrings() {
    let texts = [
        "", "a", "A", "abc", "aXc", "a%c", "a_c", "%", "_", "É", "é", "/Books/a.epub", "日本語", "ab\u{0}c",
    ];
    let filters = [
        "", "a", "ABC", "a_c", "a%c", "%", "_", "__", "é", "books", "本", "a%b%c", "\u{0}", "b\u{0}x", "c",
    ];
    for (i, text) in texts.iter().enumerate() {
        let mut row = file_row(1, text, "pending");
        row.remote_url = format!("u{}", i);
        let db = Database::load(vec![row], vec![], vec![], 1, 0, 0).unwrap();
        for filter in filters {
            assert_eq!(
                !list_files(&db, Some(filter), None).unwrap().is_empty(),
                text.contains(filter),
                "{:?} {:?}",
                text,
                filter
            );
        }
    }
}

#[test]
fn discoveries_agree_with_the_database_engine() {
    let conn = test_conn();
    let mut db = Database::new();
    let steps: [(&str, Option<&str>, Option<i64>, Option<&str>); 12] = [
        ("u1", Some("t1"), Some(1), None),
        ("u2", None, None, Some("done")),
        ("u1", Some("t1"), Some(2), Some("done")),
        ("u1", Some("t1"), Some(3), None),
        ("u1", Some("t2"), Some(4), Some("skipped")),
        ("u3", Some("t"), None, Some("error")),
        ("u3", None, Some(5), Some("downloading")),
        ("u3", Some("x"), Some(6), Some("done")),
        ("u3", None, Some(7), None),
        ("u2", Some("y"), Some(8), None),
        ("u4", Some("y"), Some(9), None),
        ("u4", Some("z"), Some(10), Some("done")),
    ];
    for (url, time, size, status) in steps {
        conn.execute(
            "INSERT INTO files (remote_url, remote_path, last_modified, size_bytes)
             VALUES (?1, ?2, ?3, ?4)
             ON CONFLICT(remote_url) DO UPDATE SET
                 last_modified = excluded.last_modified,
                 size_bytes    = excluded.size_bytes,
                 status        = CASE
                                    WHEN status IN ('skipped', 'error') THEN 'pending'
                                    WHEN status = 'done' AND files.last_modified != excluded.last_modified THEN 'pending'
                                    ELSE status
                                 END
             WHERE status != 'done'
                OR last_modified != excluded.last_modified",
            (url, format!("/{url}"), time, size),
        )
        .unwrap();
        let id = upsert_file(&mut db, url, &format!("/{url}"), time, size, NOW).unwrap();
        assert_eq!(id, conn.last_insert_rowid());
        if let Some(status) = status {
            conn.execute("UPDATE files SET status = ?1 WHERE remote_url = ?2", (status, url)).unwrap();
            let row = db.files.iter_mut().find(|f| f.remote_url == url).unwrap();
            row.status = status.to_owned();
        }
        let mut stmt = conn
            .prepare("SELECT id, remote_url, last_modified, size_bytes, status FROM files ORDER BY id")
            .unwrap();
        let expected: Vec<(i64, String, Option<String>, Option<i64>, String)> = stmt
            .query_map([], |r| Ok((r.get(0)?, r.get(1)?, r.get(2)?, r.get(3)?, r.get(4)?)))
            .unwrap()
            .map(|r| r.unwrap())
            .collect();
        let actual: Vec<(i64, String, Option<String>, Option<i64>, String)> = db
            .files
            .iter()
            .map(|f| {
                (
                    f.id,
                    f.remote_url.clone(),
                    f.last_modified.clone(),
                    f.size_bytes,
                    f.status.clone(),
                )
            })
            .collect();
        assert_eq!(actual, expected);
        let seq: i64 = conn
            .query_row("SELECT seq FROM sqlite_sequence WHERE name = 'files'", [], |r| r.get(0))
            .unwrap();
        assert_eq!(db.last_file_id, seq);
    }
}

#[test]
fn ids_go_on_as_the_database_engine_numbers_rows() {
    // The ids that are there, and the greatest one that was set aside.
    let cases: Vec<(Vec<i64>, i64)> = vec![
        (vec![], 0),
        (vec![], 7),
        (vec![1, 2], 2),
        (vec![-5, 0], 0),
        (vec![-5], -9),
        (vec![3, 40], 12),
        (vec![], -3),
        (vec![i64::MIN], 4),
        (vec![1], i64::MAX),
        (vec![i64::MAX], 3),
    ];
    for (ids, seq) in cases {
        let conn = Connection::open_in_memory().unwrap();
        conn.execute_batch(schema::V1_INITIAL).unwrap();
        let mut files = Vec::new();
        let mut queue = Vec::new();
        for id in &ids {
            let url = format!("u{}", id);
            conn.execute("INSERT INTO files (id, remote_url, remote_path) VALUES (?1, ?2, ?2)", (id, &url))
                .unwrap();
            conn.execute("INSERT INTO crawl_queue (id, url) VALUES (?1, ?2)", (id, &url)).unwrap();
            let mut row = file_row(*id, &url, "pending");
            row.remote_url = url.clone();
            files.push(row);
            queue.push(CrawlRow {
                id: *id,
                url,
                status: "pending".to_owned(),
                depth: 0,
                discovered_at: NOW.to_owned(),
            });
        }
        conn.execute("DELETE FROM sqlite_sequence", []).unwrap();
        for table in ["files", "crawl_queue"] {
            conn.execute("INSERT INTO sqlite_sequence (name, seq) VALUES (?1, ?2)", (table, seq)).unwrap();
        }
        let mut db = Database::load(files, queue, vec![], seq, seq, 0).unwrap();
        for url in ["new", "new", "newer"] {
            let stored = conn
                .execute(
                    "INSERT INTO files (remote_url, remote_path) VALUES (?1, ?1)
                     ON CONFLICT(remote_url) DO UPDATE SET size_bytes = 1",
                    [url],
                )
                .is_ok();
            assert_eq!(upsert_file(&mut db, url, url, None, Some(1), NOW).is_ok(), stored);
            let queued = conn.execute("INSERT OR IGNORE INTO crawl_queue (url) VALUES (?1)", [url]).is_ok();
            assert_eq!(enqueue_crawl(&mut db, url, 0, NOW).is_ok(), queued);
        }
        let mut statement = conn.prepare("SELECT id FROM files ORDER BY id").unwrap();
        let expected: Vec<i64> =
            statement.query_map([], |row| row.get(0)).unwrap().map(|id| id.unwrap()).collect();
        assert_eq!(db.files.iter().map(|f| f.id).collect::<Vec<i64>>(), expected, "{:?} {}", ids, seq);
        let mut statement = conn.prepare("SELECT id FROM crawl_queue ORDER BY id").unwrap();
        let expected: Vec<i64> =
            statement.query_map([], |row| row.get(0)).unwrap().map(|id| id.unwrap()).collect();
        assert_eq!(db.queue.iter().map(|e| e.id).collect::<Vec<i64>>(), expected, "{:?} {}", ids, seq);
    }
}

#[test]
fn changes_are_what_has_to_be_stored() {
    let mut db = database(&[("/a", "pending"), ("/b", "error"), ("/c", "done")]);
    enqueue_crawl(&mut db, "x", 0, NOW).unwrap();
    enqueue_crawl(&mut db, "y", 1, NOW).unwrap();
    let before = db.copy();
    let none = db.changes_since(&before);
    assert!(none.files.is_empty() && none.queue.is_empty() && none.folders.is_none());
    assert!(none.gone_files.is_empty() && none.gone_entries.is_empty());
    assert!(none.last_file_id.is_none() && none.last_crawl_id.is_none());

    set_file_status(&mut db, 2, "downloading", None, None, NOW).unwrap();
    let new_id = upsert_file(&mut db, "new", "/new", None, None, NOW).unwrap();
    clear_crawl_queue(&mut db);
    enqueue_crawl(&mut db, "x", 0, NOW).unwrap();
    let folder = SelectedFolder { path: "Art".to_owned(), enabled: true, size_bytes: None };
    save_selected_folders(&mut db, &vec![folder]).unwrap();
    let changes = db.changes_since(&before);
    assert_eq!(changes.files.iter().map(|f| f.id).collect::<Vec<i64>>(), vec![2, new_id]);
    assert_eq!(changes.files[0].status, "downloading");
    assert!(changes.gone_files.is_empty());
    assert_eq!(changes.gone_entries, vec![1, 2]);
    assert_eq!(changes.queue.iter().map(|e| e.id).collect::<Vec<i64>>(), vec![3]);
    assert_eq!(changes.folders.unwrap()[0].path, "Art");
    assert_eq!(changes.last_file_id, Some(new_id));
    assert_eq!(changes.last_crawl_id, Some(3));
    // And back.
    let back = before.changes_since(&db);
    assert_eq!(back.gone_files, vec![new_id]);
    assert_eq!(back.queue.len(), 2);
}

#[test]
fn crawl_queue_is_breadth_first() {
    let mut db = Database::new();
    for (url, depth) in [("root", 0), ("deep", 2), ("mid", 1), ("mid2", 1), ("root", 5)] {
        enqueue_crawl(&mut db, url, depth, NOW).unwrap();
    }
    assert_eq!(db.queue.len(), 4);
    assert_eq!(db.last_crawl_id, 5);
    let order: Vec<String> = next_crawl_entries(&db, 10).into_iter().map(|e| e.url).collect();
    assert_eq!(order, vec!["root", "mid", "mid2", "deep"]);
    assert_eq!(next_crawl_entries(&db, 2).len(), 2);
    assert!(next_crawl_entries(&db, 0).is_empty());
    mark_crawl_done(&mut db, 1);
    mark_crawl_error(&mut db, 3);
    let order: Vec<String> = next_crawl_entries(&db, 10).into_iter().map(|e| e.url).collect();
    assert_eq!(order, vec!["mid2", "deep"]);
    assert_eq!(reset_crawl_errors(&mut db), 1);
    assert_eq!(next_crawl_entries(&db, 10).len(), 3);
    assert!(has_pending_crawl(&db));
    clear_crawl_queue(&mut db);
    assert!(!has_pending_crawl(&db));
    enqueue_crawl(&mut db, "root", 0, NOW).unwrap();
    assert_eq!(db.queue[0].id, 6);
}

fn folder(path: &str, enabled: bool) -> SelectedFolder {
    SelectedFolder { path: path.to_owned(), enabled, size_bytes: Some(1) }
}

#[test]
fn selected_folders_are_saved_and_loaded() {
    let mut db = Database::new();
    assert!(!has_any_selected_folders(&db));
    save_selected_folders(&mut db, &vec![folder("b", true), folder("a", false)]).unwrap();
    assert!(has_any_selected_folders(&db));
    let loaded: Vec<(String, bool)> =
        load_selected_folders(&db).into_iter().map(|f| (f.path, f.enabled)).collect();
    assert_eq!(loaded, vec![("a".to_owned(), false), ("b".to_owned(), true)]);
    assert_eq!(db.last_insert_rowid, 2);

    let twice = vec![folder("x", true), folder("y", true), folder("x", false)];
    assert_eq!(save_selected_folders(&mut db, &twice), Err(DbError::DuplicateFolder));
    assert_eq!(load_selected_folders(&db).len(), 2);
    save_selected_folders(&mut db, &vec![]).unwrap();
    assert!(!has_any_selected_folders(&db));
}

#[test]
fn tables_that_do_not_hang_together_are_refused() {
    let entry = |id: i64, url: &str| CrawlRow {
        id,
        url: url.to_owned(),
        status: "pending".to_owned(),
        depth: 0,
        discovered_at: NOW.to_owned(),
    };
    let ok = |files, queue, folders, last_file, last_crawl| {
        Database::load(files, queue, folders, last_file, last_crawl, 0).is_some()
    };
    assert!(ok(vec![], vec![], vec![], 0, 0));
    assert!(ok(vec![], vec![], vec![], -1, 0));
    assert!(ok(vec![file_row(0, "/a", "done")], vec![], vec![], 5, 0));
    assert!(ok(vec![file_row(6, "/a", "done")], vec![], vec![], 5, 0));
    assert!(!ok(vec![file_row(2, "/a", "done"), file_row(1, "/b", "done")], vec![], vec![], 5, 0));
    assert!(!ok(vec![file_row(1, "/a", "done"), file_row(2, "/a", "done")], vec![], vec![], 5, 0));
    assert!(ok(vec![file_row(1, "/a", "done"), file_row(5, "/b", "done")], vec![], vec![], 5, 0));
    assert!(ok(vec![], vec![entry(1, "a"), entry(2, "b")], vec![], 0, 2));
    assert!(!ok(vec![], vec![entry(1, "a"), entry(2, "a")], vec![], 0, 2));
    assert!(ok(vec![], vec![entry(-1, "a"), entry(3, "b")], vec![], 0, 2));
    assert!(!ok(vec![], vec![entry(3, "a"), entry(3, "b")], vec![], 0, 5));
    assert!(!ok(vec![], vec![], vec![folder("a", true), folder("a", true)], 0, 0));
}
