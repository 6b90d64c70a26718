use elscione_sync::cli::{
    command_needs_database, editor_arguments, editor_program, effective_command, log_filter, Commands,
    Platform, SyncOpts,
};

#[test]
fn edit_config_does_not_require_database() {
    assert!(!command_needs_database(&Some(Commands::EditConfig)));
}

#[test]
fn sync_and_inspection_commands_require_database() {
    assert!(command_needs_database(&None));
    assert!(command_needs_database(&Some(Commands::Status)));
    assert!(command_needs_database(&Some(Commands::List {
        filter: None,
        status: None,
    })));
}

#[test]
fn no_command_is_a_plain_sync() {
    match effective_command(None) {
        Commands::Sync(opts) => {
            assert!(opts.output.is_none() && opts.concurrency.is_none() && opts.delay.is_none());
            assert!(opts.include_folders.is_empty() && opts.exclude.is_empty());
            assert!(opts.extensions.is_empty() && !opts.dry_run && !opts.resume);
        }
        other => panic!("{:?}", other),
    }
    assert!(matches!(
        effective_command(Some(Commands::Reset { errors_only: true })),
        Commands::Reset { errors_only: true }
    ));
    let opts = SyncOpts { dry_run: true, ..SyncOpts::default() };
    match effective_command(Some(Commands::Sync(opts))) {
        Commands::Sync(opts) => assert!(opts.dry_run),
        other => panic!("{:?}", other),
    }
}

#[test]
fn editors_and_their_arguments() {
    assert_eq!(editor_program(Some("nano".to_owned()), Platform::MacOs), "nano");
    assert_eq!(editor_program(None, Platform::MacOs), "open");
    assert_eq!(editor_program(None, Platform::Windows), "notepad");
    assert_eq!(editor_program(None, Platform::Other), "vi");
    assert_eq!(editor_arguments("open", "/c.toml"), vec!["-t", "/c.toml"]);
    assert_eq!(editor_arguments("vi", "/c.toml"), vec!["/c.toml"]);
}

#[test]
fn log_filters() {
    assert_eq!(log_filter(true), "elscione_sync=debug,warn");
    assert_eq!(log_filter(false), "elscione_sync=info,warn");
}
