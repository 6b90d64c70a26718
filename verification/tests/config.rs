use elscione_sync::cli::Platform;
use elscione_sync::config::{
    accept, config_path_in, database_or, db_path_for_config, db_path_in, default_config_path, default_db_path,
    default_max_crawl_retries, default_max_parallel_crawls, default_true, mirror_dir_under,
    normalize_extensions, program_names, Config, ConfigError, OutputConfig,
};
use elscione_sync::paths::{from_native, join};
use std::path::Path;

#[test]
fn custom_config_uses_state_db_next_to_config_file() {
    let path = "/tmp/elscione/custom.toml";

    let db_path = db_path_for_config(Some(path));

    assert_eq!(db_path, "/tmp/elscione/state.db");
}

#[test]
fn state_db_paths_for_unusual_config_paths() {
    assert_eq!(db_path_for_config(Some("custom.toml")), "state.db");
    assert_eq!(db_path_for_config(Some("/custom.toml")), "/state.db");
    assert_eq!(db_path_for_config(Some("conf/./custom.toml/")), "conf/state.db");
    assert_eq!(db_path_for_config(Some("/")), default_db_path());
    assert_eq!(db_path_for_config(Some("")), default_db_path());
    assert_eq!(db_path_for_config(None), default_db_path());
}

#[test]
fn a_directory_has_one_state_db() {
    for dir in ["", "/", "conf", "conf/", "conf//", "/etc/./x", "."] {
        let a = db_path_for_config(Some(&join(dir, "a.toml")));
        let b = db_path_for_config(Some(&join(dir, ".b")));
        assert_eq!(a, b);
        assert_eq!(Path::new(&a), Path::new(dir).join("state.db"));
    }
    assert_eq!(database_or(None, "default.db".to_owned()), "default.db");
    assert_eq!(database_or(Some("/"), "default.db".to_owned()), "default.db");
    assert_eq!(database_or(Some("//"), "default.db".to_owned()), "default.db");
    assert_eq!(database_or(Some("a/b"), "default.db".to_owned()), "a/state.db");
    let native = from_native("C:\\dir\\config.toml", Platform::Windows);
    assert_eq!(db_path_for_config(Some(&native)), "C:/dir/state.db");
    let native = from_native("C:config.toml", Platform::Windows);
    assert_eq!(db_path_for_config(Some(&native)), "C:./state.db");
    assert_eq!(program_names(), ("com", "elscione", "elscione-sync"));
}

#[test]
fn default_places_end_with_the_expected_names() {
    let config_path = default_config_path();
    assert!(config_path.ends_with("config.toml") || config_path == "elscione-sync.toml");
    let db_path = default_db_path();
    assert!(db_path.ends_with("state.db") || db_path == "elscione-sync.db");
    assert!(OutputConfig::default().dir.ends_with("/elscione-mirror"));
}

#[test]
fn places_in_given_directories() {
    assert_eq!(
        config_path_in(Some("/home/u/.config/elscione-sync".to_owned())),
        "/home/u/.config/elscione-sync/config.toml"
    );
    assert_eq!(config_path_in(None), "elscione-sync.toml");
    assert_eq!(db_path_in(Some("/data/".to_owned())), "/data/state.db");
    assert_eq!(db_path_in(None), "elscione-sync.db");
    assert_eq!(mirror_dir_under(Some("/home/u".to_owned())), "/home/u/elscione-mirror");
    assert_eq!(mirror_dir_under(None), "./elscione-mirror");
}

#[test]
fn default_values() {
    let config = Config::default();
    assert_eq!(config.server.base_url, "https://server.elscione.com/");
    assert_eq!(config.server.user_agent, "elscione-sync/0.1.0 (personal mirror)");
    assert_eq!(config.server.cookie, None);
    assert_eq!(config.concurrency.max_parallel_downloads, 2);
    assert_eq!(config.concurrency.max_parallel_crawls, 1);
    assert_eq!(config.concurrency.delay_between_requests_ms, 1500);
    assert_eq!(config.concurrency.crawl_delay_ms, 500);
    assert_eq!(config.concurrency.max_crawl_retries, 3);
    assert_eq!(config.rate_limit.backoff_initial_secs, 60);
    assert_eq!(config.rate_limit.backoff_max_secs, 900);
    assert_eq!(f64::from_bits(config.rate_limit.backoff_multiplier_bits), 2.0);
    assert!(config.sync.include_folders.is_empty());
    assert!(config.sync.exclude_patterns.is_empty());
    assert!(config.sync.allowed_extensions.is_empty());
    assert!(config.sync.redownload_on_size_mismatch);
    assert_eq!(default_max_parallel_crawls(), 1);
    assert_eq!(default_max_crawl_retries(), 3);
    assert!(default_true());
    assert!(config.validate().is_ok());
}

#[test]
fn each_refusal_has_its_message() {
    let mut config = Config::default();
    config.concurrency.max_parallel_downloads = 0;
    config.concurrency.max_parallel_crawls = 0;
    let error = config.validate().unwrap_err();
    assert!(matches!(error, ConfigError::NoDownloads));
    assert_eq!(error.message(), "concurrency.max_parallel_downloads must be >= 1");

    config.concurrency.max_parallel_downloads = 1;
    let error = config.validate().unwrap_err();
    assert!(matches!(error, ConfigError::NoCrawls));
    assert_eq!(error.message(), "concurrency.max_parallel_crawls must be >= 1");

    config.concurrency.max_parallel_crawls = 1;
    config.rate_limit.backoff_multiplier_bits = 0.99f64.to_bits();
    let error = config.validate().unwrap_err();
    assert!(matches!(error, ConfigError::ShrinkingBackoff));
    assert_eq!(error.message(), "rate_limit.backoff_multiplier must be >= 1.0");

    config.rate_limit.backoff_multiplier_bits = 1.0f64.to_bits();
    config.server.base_url = "not a url".to_owned();
    let error = config.validate().unwrap_err();
    assert!(matches!(error, ConfigError::BaseUrl { .. }));
    assert_eq!(
        error.message(),
        "server.base_url is not a valid URL: relative URL without a base"
    );
}

#[test]
fn multipliers_are_compared_as_numbers() {
    let mut config = Config::default();
    for multiplier in [
        -1.0,
        -0.0,
        0.0,
        0.5,
        0.9999999999999999,
        1.0,
        1.0000000000000002,
        2.0,
        f64::INFINITY,
        f64::NEG_INFINITY,
        f64::NAN,
        -f64::NAN,
        f64::MIN,
        f64::MAX,
        f64::MIN_POSITIVE,
    ] {
        config.rate_limit.backoff_multiplier_bits = multiplier.to_bits();
        assert_eq!(config.validate().is_err(), multiplier < 1.0, "{}", multiplier);
    }
}

#[test]
fn reading_strips_dots_from_extensions() {
    let mut config = Config::default();
    config.sync.allowed_extensions =
        vec![".epub".to_owned(), "cbz".to_owned(), "..tar.gz".to_owned()];
    let accepted = accept(config).unwrap();
    assert_eq!(accepted.sync.allowed_extensions, vec!["epub", "cbz", "tar.gz"]);
    assert_eq!(
        normalize_extensions(&accepted.sync.allowed_extensions),
        accepted.sync.allowed_extensions
    );

    let mut config = Config::default();
    config.server.base_url = String::new();
    assert!(matches!(accept(config), Err(ConfigError::BaseUrl { .. })));
}

#[test]
fn an_address_verdict_is_taken_over() {
    let config = Config::default();
    assert!(config.validate_with(None).is_ok());
    let error = config.validate_with(Some("because".to_owned())).unwrap_err();
    assert_eq!(error.message(), "server.base_url is not a valid URL: because");
}
