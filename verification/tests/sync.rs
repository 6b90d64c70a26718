use elscione_sync::cli::SyncOpts;
use elscione_sync::config::Config;
use elscione_sync::db::models::{FileRecord, FileStatus};
use elscione_sync::db::tables::SelectedFolder;
use elscione_sync::sync::{
    apply_options, folders_to_sync, list_report, needs_selector, next_action, nothing_to_sync, reset_report,
    status_report, Stage, SyncAction,
};

fn list(texts: &[&str]) -> Vec<String> {
    texts.iter().map(|t| t.to_string()).collect()
}

fn folder(path: &str, enabled: bool) -> SelectedFolder {
    SelectedFolder { path: path.to_owned(), enabled, size_bytes: None }
}

#[test]
fn options_override_the_configuration() {
    let mut config = Config::default();
    config.sync.allowed_extensions = list(&["pdf"]);
    let dir = config.output.dir.clone();
    let plain = apply_options(config, &SyncOpts::default());
    assert_eq!(plain.output.dir, dir);
    assert_eq!(plain.concurrency.max_parallel_downloads, 2);
    assert_eq!(plain.concurrency.delay_between_requests_ms, 1500);
    assert_eq!(plain.sync.allowed_extensions, list(&["pdf"]));

    let opts = SyncOpts {
        output: Some("/mirror".to_owned()),
        concurrency: Some(7),
        delay: Some(0),
        extensions: list(&[".epub", "cbz"]),
        ..SyncOpts::default()
    };
    let changed = apply_options(plain, &opts);
    assert_eq!(changed.output.dir, "/mirror");
    assert_eq!(changed.concurrency.max_parallel_downloads, 7);
    assert_eq!(changed.concurrency.delay_between_requests_ms, 0);
    assert_eq!(changed.concurrency.crawl_delay_ms, 500);
    assert_eq!(changed.sync.allowed_extensions, list(&["epub", "cbz"]));
}

#[test]
fn folders_of_a_sync() {
    let given = SyncOpts { include_folders: list(&["X"]), ..SyncOpts::default() };
    assert!(needs_selector(false, &SyncOpts::default()));
    assert!(!needs_selector(true, &SyncOpts::default()));
    assert!(!needs_selector(false, &given));

    let saved = vec![folder("A", true), folder("B", false), folder("C", true)];
    assert_eq!(folders_to_sync(&list(&[]), &saved), list(&["A", "C"]));
    assert_eq!(folders_to_sync(&given.include_folders, &saved), list(&["X"]));

    let mut config = Config::default();
    assert!(nothing_to_sync(&list(&[]), &config));
    assert!(!nothing_to_sync(&list(&["A"]), &config));
    config.sync.include_folders = list(&["D"]);
    assert!(!nothing_to_sync(&list(&[]), &config));
}

#[test]
fn phases_of_a_sync() {
    assert_eq!(next_action(Stage::Prepared, false, false), SyncAction::Crawl);
    assert_eq!(next_action(Stage::Prepared, false, true), SyncAction::StopBeforeCrawl);
    assert_eq!(next_action(Stage::Prepared, true, false), SyncAction::VerifySession);
    assert_eq!(next_action(Stage::Prepared, true, true), SyncAction::VerifySession);
    for resume in [false, true] {
        assert_eq!(next_action(Stage::Discovered, resume, false), SyncAction::Download);
        assert_eq!(next_action(Stage::Discovered, resume, true), SyncAction::StopBeforeDownload);
        assert_eq!(next_action(Stage::Downloaded, resume, false), SyncAction::ShowStatus);
        assert_eq!(next_action(Stage::Downloaded, resume, true), SyncAction::StopAfterDownload);
    }
}

#[test]
fn status_reports() {
    let tallies = vec![("done".to_owned(), 12), ("pending".to_owned(), 3)];
    assert_eq!(
        status_report(&tallies, 419_000_000),
        "\n─── elscione-sync status ───────────────────\n  done         12\n  pending      3\n  pending size 419.0 MB\n────────────────────────────────────────────\n\n"
    );
    assert_eq!(
        status_report(&vec![], 0),
        "\n─── elscione-sync status ───────────────────\n────────────────────────────────────────────\n\n"
    );
}

#[test]
fn reset_and_list_reports() {
    assert_eq!(reset_report(4), "Reset 4 file(s) to 'pending'.\n");
    let file = |id: i64, size_bytes: Option<i64>, status: FileStatus| FileRecord {
        id,
        remote_url: String::new(),
        remote_path: format!("/Books/{id}.epub"),
        last_modified: None,
        size_bytes,
        status,
    };
    let files = vec![
        file(1, Some(999), FileStatus::Done),
        file(23, None, FileStatus::Downloading),
    ];
    let mut expected = format!("{:<10} {:<12} {:<10} PATH\n", "ID", "STATUS", "SIZE");
    expected += &format!("{:<10} {:<12} {:<10} {}\n", 1, "done", "999 B", "/Books/1.epub");
    expected += &format!("{:<10} {:<12} {:<10} {}\n", 23, "downloading", "—", "/Books/23.epub");
    expected += "(2 result(s))\n";
    assert_eq!(list_report(&files), expected);
}
