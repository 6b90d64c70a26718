use elscione_sync::db::models::{set_file_status, upsert_file, FileRecord, FileStatus};
use elscione_sync::db::tables::Database;
use elscione_sync::downloader::plan::{
    judge_local_copy, next_batch, remaining_bytes, skip_unwanted, start_file, to_signed, to_unsigned, Batch,
    LocalCopy, DOWNLOAD_BATCH_SIZE,
};
use elscione_sync::downloader::task::{
    settle, FileTask, Outcome, Phase, TaskEvent, TaskStep, MAX_ATTEMPTS,
};

const NOW: &str = "2024-05-06 07:08:09";

fn list(texts: &[&str]) -> Vec<String> {
    texts.iter().map(|t| t.to_string()).collect()
}

fn database(urls: &[&str]) -> Database {
    let mut db = Database::new();
    for url in urls {
        upsert_file(&mut db, url, url, None, Some(10), NOW).unwrap();
    }
    db
}

fn statuses(db: &Database) -> Vec<&str> {
    db.files.iter().map(|f| f.status.as_str()).collect()
}

#[test]
fn unwanted_files_are_left_out() {
    let mut db = database(&["/a.epub", "/b.pdf", "/c.CBZ", "/d.pdf"]);
    set_file_status(&mut db, 4, "downloading", None, None, NOW).unwrap();
    skip_unwanted(&mut db, &list(&[]));
    assert_eq!(statuses(&db), vec!["pending", "pending", "pending", "downloading"]);
    skip_unwanted(&mut db, &list(&["epub", "cbz"]));
    assert_eq!(statuses(&db), vec!["pending", "skipped", "pending", "downloading"]);
}

#[test]
fn batches_of_pending_files() {
    let urls: Vec<String> = (0..300)
        .map(|i| format!("/{:03}.{}", i, if i < 130 { "pdf" } else { "epub" }))
        .collect();
    let refs: Vec<&str> = urls.iter().map(|u| u.as_str()).collect();
    let mut db = database(&refs);
    let allowed = list(&["epub"]);
    // The first batch holds no wanted file.
    assert!(matches!(next_batch(&mut db, &allowed), Batch::Again));
    assert_eq!(statuses(&db).iter().filter(|s| **s == "skipped").count(), DOWNLOAD_BATCH_SIZE);
    match next_batch(&mut db, &allowed) {
        Batch::Files { files } => {
            assert_eq!(files.len(), 126);
            assert_eq!(files[0].remote_url, "/130.epub");
            assert_eq!(files[125].remote_url, "/255.epub");
            assert!(files.iter().all(|f| f.status == FileStatus::Pending));
        }
        other => panic!("{:?}", other),
    }
    assert_eq!(statuses(&db).iter().filter(|s| **s == "skipped").count(), 130);

    let mut none = database(&["/a.pdf"]);
    assert!(matches!(next_batch(&mut none, &allowed), Batch::Finished));
    assert!(matches!(next_batch(&mut Database::new(), &list(&[])), Batch::Finished));
}

fn record(size_bytes: Option<i64>) -> FileRecord {
    FileRecord {
        id: 1,
        remote_url: "u".to_owned(),
        remote_path: "/u".to_owned(),
        last_modified: None,
        size_bytes,
        status: FileStatus::Pending,
    }
}

#[test]
fn bytes_that_remain() {
    let files = vec![record(Some(100)), record(None), record(Some(50)), record(Some(7))];
    assert_eq!(remaining_bytes(&files, &vec![30, 5, 60, 0]), Some(77));
    assert_eq!(remaining_bytes(&vec![], &vec![]), Some(0));
    let huge = vec![record(Some(-1)), record(Some(1))];
    assert_eq!(remaining_bytes(&huge, &vec![0, 0]), None);
    assert_eq!(remaining_bytes(&huge, &vec![1, 0]), Some(u64::MAX));
    for n in [0i64, 1, -1, i64::MIN, i64::MAX] {
        assert_eq!(to_unsigned(n), n as u64);
        assert_eq!(to_signed(n as u64), n);
    }
}

#[test]
fn local_copies() {
    assert_eq!(judge_local_copy(Some(5), Some(5), false), LocalCopy::Complete);
    assert_eq!(judge_local_copy(Some(5), Some(5), true), LocalCopy::Complete);
    assert_eq!(judge_local_copy(Some(5), Some(6), false), LocalCopy::Mismatch);
    assert_eq!(judge_local_copy(Some(5), Some(6), true), LocalCopy::Download);
    assert_eq!(judge_local_copy(None, Some(6), false), LocalCopy::Download);
    assert_eq!(judge_local_copy(Some(5), None, false), LocalCopy::Download);
}

#[test]
fn a_dry_run_skips_instead_of_downloading() {
    let mut db = database(&["/a", "/b"]);
    assert!(!start_file(&mut db, 1, true, NOW));
    assert!(start_file(&mut db, 2, false, NOW));
    assert_eq!(statuses(&db), vec!["skipped", "downloading"]);
}

#[test]
fn a_dry_run_skips_every_pending_file() {
    let urls: Vec<String> =
        (0..300).map(|i| format!("/{}.{}", i, if i % 3 == 0 { "pdf" } else { "epub" })).collect();
    let refs: Vec<&str> = urls.iter().map(|u| u.as_str()).collect();
    let mut db = database(&refs);
    set_file_status(&mut db, 7, "done", None, None, NOW).unwrap();
    set_file_status(&mut db, 8, "downloading", None, None, NOW).unwrap();
    let mut rounds = 0;
    loop {
        match next_batch(&mut db, &list(&["epub"])) {
            Batch::Files { files } => {
                for file in files {
                    assert!(!start_file(&mut db, file.id, true, NOW));
                }
            }
            Batch::Again => {}
            Batch::Finished => break,
        }
        rounds += 1;
        assert!(rounds <= 300);
    }
    for file in &db.files {
        let expected = match file.id {
            7 => "done",
            8 => "downloading",
            _ => "skipped",
        };
        assert_eq!(file.status, expected);
    }
}

fn fail(forbidden: bool) -> TaskEvent {
    TaskEvent::Failed { forbidden, message: "HTTP 500".to_owned() }
}

#[test]
fn a_failing_download_is_given_up_after_the_last_attempt() {
    let mut task = FileTask::new(60, 900);
    let mut transfers = 0;
    let mut waits = Vec::new();
    let mut backoff = 60;
    let mut step = TaskStep::AwaitSlot;
    let outcome = loop {
        step = match step {
            TaskStep::AwaitSlot => task.on_event(TaskEvent::SlotReached),
            TaskStep::Transfer => {
                transfers += 1;
                task.on_event(fail(false))
            }
            TaskStep::Wait { secs } => {
                waits.push(secs);
                backoff *= 2;
                task.on_event(TaskEvent::Waited { next_backoff_secs: backoff })
            }
            TaskStep::Finish { outcome } => break outcome,
            other => panic!("{:?}", other),
        };
    };
    assert_eq!(transfers, MAX_ATTEMPTS);
    assert_eq!(waits, vec![60, 120, 240, 480]);
    match outcome {
        Outcome::Failed { message } => assert_eq!(message, "HTTP 500"),
        other => panic!("{:?}", other),
    }
    assert!(matches!(task.on_event(TaskEvent::SlotReached), TaskStep::Nothing));
}

#[test]
fn waits_grow_up_to_the_cap() {
    // The configured wait, the cap, what is proposed after each wait, and the waits.
    let cases: Vec<(u64, u64, Vec<u64>, Vec<u64>)> = vec![
        (1000, 900, vec![2000, 4000, 8000], vec![900, 900, 900, 900]),
        (60, 200, vec![120, 240, 480], vec![60, 120, 200, 200]),
        (60, 900, vec![30, 0, 90], vec![60, 60, 60, 90]),
        (0, 0, vec![1, 2, 3], vec![0, 0, 0, 0]),
    ];
    for (initial, cap, proposed, expected) in cases {
        let mut task = FileTask::new(initial, cap);
        let mut waits = Vec::new();
        for i in 0..4 {
            task.on_event(TaskEvent::SlotReached);
            match task.on_event(fail(false)) {
                TaskStep::Wait { secs } => waits.push(secs),
                other => panic!("{:?}", other),
            }
            let next_backoff_secs = proposed.get(i).copied().unwrap_or(0);
            task.on_event(TaskEvent::Waited { next_backoff_secs });
        }
        assert_eq!(waits, expected);
    }
}

#[test]
fn a_denied_download_renews_the_clearance_once() {
    let mut task = FileTask::new(60, 900);
    assert!(matches!(task.on_event(TaskEvent::SlotReached), TaskStep::Transfer));
    assert!(matches!(task.on_event(fail(true)), TaskStep::Renew));
    assert!(matches!(task.on_event(TaskEvent::Renewed { cleared: true }), TaskStep::AwaitSlot));
    assert_eq!(task.attempts, 2);
    assert!(matches!(task.on_event(TaskEvent::SlotReached), TaskStep::Transfer));
    // A second denial is an ordinary failure.
    assert!(matches!(task.on_event(fail(true)), TaskStep::Wait { secs: 60 }));

    let mut task = FileTask::new(60, 900);
    task.on_event(TaskEvent::SlotReached);
    task.on_event(fail(true));
    assert!(matches!(
        task.on_event(TaskEvent::Renewed { cleared: false }),
        TaskStep::Wait { secs: 60 }
    ));
}

#[test]
fn a_download_ends_once() {
    let mut task = FileTask::new(1, 900);
    task.on_event(TaskEvent::SlotReached);
    match task.on_event(TaskEvent::Transferred { checksum: "abc".to_owned() }) {
        TaskStep::Finish { outcome: Outcome::Complete { checksum } } => {
            assert_eq!(checksum.as_deref(), Some("abc"))
        }
        other => panic!("{:?}", other),
    }
    assert_eq!(task.phase, Phase::Over);
    assert!(matches!(task.on_event(TaskEvent::Cancelled), TaskStep::Nothing));

    for events in [0, 1, 2] {
        let mut task = FileTask::new(1, 900);
        if events > 0 {
            task.on_event(TaskEvent::SlotReached);
        }
        if events > 1 {
            task.on_event(fail(false));
        }
        assert!(matches!(
            task.on_event(TaskEvent::Cancelled),
            TaskStep::Finish { outcome: Outcome::Interrupted }
        ));
    }
    let mut task = FileTask::new(1, 900);
    assert!(matches!(
        task.on_event(TaskEvent::Waited { next_backoff_secs: 9 }),
        TaskStep::Nothing
    ));
    assert_eq!(task, FileTask::new(1, 900));
}

#[test]
fn outcomes_are_recorded() {
    let mut db = database(&["/a", "/b", "/c", "/d"]);
    settle(&mut db, 1, &Outcome::Complete { checksum: Some("abc".to_owned()) }, NOW);
    settle(&mut db, 2, &Outcome::Skipped, NOW);
    start_file(&mut db, 3, false, NOW);
    settle(&mut db, 3, &Outcome::Interrupted, NOW);
    settle(&mut db, 4, &Outcome::Failed { message: "why".to_owned() }, NOW);
    assert_eq!(statuses(&db), vec!["done", "skipped", "pending", "error"]);
    assert_eq!(db.files[0].checksum_sha256.as_deref(), Some("abc"));
    assert_eq!(db.files[0].completed_at.as_deref(), Some(NOW));
    assert_eq!(db.files[3].error_message.as_deref(), Some("why"));
    assert_eq!(db.files[3].retry_count, 1);
    settle(&mut db, 1, &Outcome::Interrupted, NOW);
    assert_eq!(db.files[0].status, "done");
}
