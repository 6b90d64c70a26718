//! The configuration: its values, where it lies, and what it must satisfy.
use vstd::prelude::*;

use crate::db::tables::opt_text;
use crate::outside::url_error;
use crate::outside::{project_config_dir, project_data_dir, url_parse_error, user_home_dir};
use crate::paths::{
    file_name_of, is_plain_name, join, joined, law_joining_paths, law_names_share_their_directory,
    law_parents_hold_their_files, law_root_has_no_parent, law_siblings_share_their_parent, parent,
    parent_of,
};
use crate::text::{
    chars_of, is_char, law_trimming_takes_one_character, lemma_run_end, run_end, text_of, text_view,
    texts, trim_start_chars, trim_start_of,
};

verus! {

/// The configuration as a whole.
#[derive(Debug, Clone)]
pub struct Config {
    pub server: ServerConfig,
    pub output: OutputConfig,
    pub concurrency: ConcurrencyConfig,
    pub rate_limit: RateLimitConfig,
    pub sync: SyncConfig,
}

/// How the server is addressed.
#[derive(Debug, Clone)]
pub struct ServerConfig {
    pub base_url: String,
    pub user_agent: String,
    pub cookie: Option<String>,
}

/// Where the mirror lies.
#[derive(Debug, Clone)]
pub struct OutputConfig {
    pub dir: String,
}

/// How hard the server is worked.
#[derive(Debug, Clone)]
pub struct ConcurrencyConfig {
    /// Maximum number of simultaneous file downloads.
    pub max_parallel_downloads: usize,
    /// Maximum number of simultaneous directory requests.
    pub max_parallel_crawls: usize,
    /// Milliseconds between download requests.
    pub delay_between_requests_ms: u64,
    /// Milliseconds between directory requests.
    pub crawl_delay_ms: u64,
    /// Maximum number of attempts to fetch a directory.
    pub max_crawl_retries: usize,
}

/// How failed downloads are spaced.
#[derive(Debug, Clone)]
pub struct RateLimitConfig {
    /// Seconds before the first retry.
    pub backoff_initial_secs: u64,
    /// Greatest number of seconds before a retry.
    pub backoff_max_secs: u64,
    /// The factor by which the wait grows from retry to retry: the bits of an IEEE 754
    /// double-precision number.
    pub backoff_multiplier_bits: u64,
}

/// What is mirrored.
#[derive(Debug, Clone)]
pub struct SyncConfig {
    /// Top-level folders to mirror; all if empty.
    pub include_folders: Vec<String>,
    /// Patterns of paths to leave out.
    pub exclude_patterns: Vec<String>,
    /// File extensions to mirror; all if empty.
    pub allowed_extensions: Vec<String>,
    /// Whether a file is downloaded again if the local size differs.
    pub redownload_on_size_mismatch: bool,
}

// ---------------------------------------------------------------------------
// Defaults
// ---------------------------------------------------------------------------

/// The bits of the double-precision number 1.0.
pub const ONE_BITS: u64 = 0x3FF0_0000_0000_0000;

/// The bits of the double-precision number 2.0.
pub const TWO_BITS: u64 = 0x4000_0000_0000_0000;

impl Default for ServerConfig {
    fn default() -> (r: Self)
        ensures
            r.base_url@ == "https://server.elscione.com/"@,
            r.user_agent@ == "elscione-sync/0.1.0 (personal mirror)"@,
            r.cookie is None,
    {
        ServerConfig {
            base_url: "https://server.elscione.com/".to_owned(),
            user_agent: "elscione-sync/0.1.0 (personal mirror)".to_owned(),
            cookie: None,
        }
    }
}

/// The number of simultaneous directory requests where the configuration gives none.
pub fn default_max_parallel_crawls() -> (r: usize)
    ensures
        r == 1,
{
    1
}

/// The number of attempts to fetch a directory where the configuration gives none.
pub fn default_max_crawl_retries() -> (r: usize)
    ensures
        r == 3,
{
    3
}

/// The value of a switch that is on where the configuration gives none.
pub fn default_true() -> (r: bool)
    ensures
        r,
{
    true
}

impl Default for ConcurrencyConfig {
    fn default() -> (r: Self)
        ensures
            r.max_parallel_downloads == 2,
            r.max_parallel_crawls == 1,
            r.delay_between_requests_ms == 1500,
            r.crawl_delay_ms == 500,
            r.max_crawl_retries == 3,
    {
        ConcurrencyConfig {
            max_parallel_downloads: 2,
            max_parallel_crawls: default_max_parallel_crawls(),
            delay_between_requests_ms: 1500,
            crawl_delay_ms: 500,
            max_crawl_retries: default_max_crawl_retries(),
        }
    }
}

impl Default for RateLimitConfig {
    fn default() -> (r: Self)
        ensures
            r.backoff_initial_secs == 60,
            r.backoff_max_secs == 900,
            r.backoff_multiplier_bits == TWO_BITS,
    {
        RateLimitConfig {
            backoff_initial_secs: 60,
            backoff_max_secs: 900,
            backoff_multiplier_bits: TWO_BITS,
        }
    }
}

impl Default for SyncConfig {
    fn default() -> (r: Self)
        ensures
            r.include_folders@.len() == 0,
            r.exclude_patterns@.len() == 0,
            r.allowed_extensions@.len() == 0,
            r.redownload_on_size_mismatch,
    {
        SyncConfig {
            include_folders: Vec::new(),
            exclude_patterns: Vec::new(),
            allowed_extensions: Vec::new(),
            redownload_on_size_mismatch: default_true(),
        }
    }
}

/// The mirror's directory below a home directory; below the working directory without one.
pub open spec fn mirror_dir(home: Option<Seq<char>>) -> Seq<char> {
    match home {
        Some(dir) => joined(dir, "elscione-mirror"@),
        None => joined("."@, "elscione-mirror"@),
    }
}

/// The mirror's directory below a home directory.
pub fn mirror_dir_under(home: Option<String>) -> (r: String)
    ensures
        r@ == mirror_dir(text_view(home)),
{
    match home {
        Some(dir) => join(dir.as_str(), "elscione-mirror"),
        None => join(".", "elscione-mirror"),
    }
}

impl Default for OutputConfig {
    /// The mirror lies below the home directory that the platform names.
    fn default() -> (r: Self)
        ensures
            exists|home: Option<Seq<char>>| r.dir@ == #[trigger] mirror_dir(home),
    {
        let home: Option<String> = user_home_dir();
        let ghost view: Option<Seq<char>> = text_view(home);
        let dir: String = mirror_dir_under(home);
        assert(dir@ == mirror_dir(view));
        OutputConfig { dir }
    }
}

/// Whether a configuration has the default values; the mirror's directory depends on the
/// platform.
pub open spec fn is_default_config(config: Config) -> bool {
    &&& config.server.base_url@ == "https://server.elscione.com/"@
    &&& config.server.user_agent@ == "elscione-sync/0.1.0 (personal mirror)"@
    &&& config.server.cookie is None
    &&& exists|home: Option<Seq<char>>| config.output.dir@ == #[trigger] mirror_dir(home)
    &&& config.concurrency == (ConcurrencyConfig {
        max_parallel_downloads: 2,
        max_parallel_crawls: 1,
        delay_between_requests_ms: 1500,
        crawl_delay_ms: 500,
        max_crawl_retries: 3,
    })
    &&& config.rate_limit == (RateLimitConfig {
        backoff_initial_secs: 60,
        backoff_max_secs: 900,
        backoff_multiplier_bits: TWO_BITS,
    })
    &&& config.sync.include_folders@.len() == 0
    &&& config.sync.exclude_patterns@.len() == 0
    &&& config.sync.allowed_extensions@.len() == 0
    &&& config.sync.redownload_on_size_mismatch
}

impl Default for Config {
    fn default() -> (r: Self)
        ensures
            is_default_config(r),
    {
        Config {
            server: ServerConfig::default(),
            output: OutputConfig::default(),
            concurrency: ConcurrencyConfig::default(),
            rate_limit: RateLimitConfig::default(),
            sync: SyncConfig::default(),
        }
    }
}

// ---------------------------------------------------------------------------
// Places
// ---------------------------------------------------------------------------

/// The configuration file in a directory; a file in the working directory without one.
pub open spec fn config_file(dir: Option<Seq<char>>) -> Seq<char> {
    match dir {
        Some(dir) => joined(dir, "config.toml"@),
        None => "elscione-sync.toml"@,
    }
}

/// The state database in a directory; a file in the working directory without one.
pub open spec fn state_file(dir: Option<Seq<char>>) -> Seq<char> {
    match dir {
        Some(dir) => joined(dir, "state.db"@),
        None => "elscione-sync.db"@,
    }
}

/// The configuration file in a directory.
pub fn config_path_in(dir: Option<String>) -> (r: String)
    ensures
        r@ == config_file(text_view(dir)),
{
    match dir {
        Some(dir) => join(dir.as_str(), "config.toml"),
        None => "elscione-sync.toml".to_owned(),
    }
}

/// The state database in a directory.
pub fn db_path_in(dir: Option<String>) -> (r: String)
    ensures
        r@ == state_file(text_view(dir)),
{
    match dir {
        Some(dir) => join(dir.as_str(), "state.db"),
        None => "elscione-sync.db".to_owned(),
    }
}

/// Under which names the platform keeps this program's directories: qualifier, organization and
/// application.
pub fn program_names() -> (r: (&'static str, &'static str, &'static str))
    ensures
        r.0@ == "com"@,
        r.1@ == "elscione"@,
        r.2@ == "elscione-sync"@,
{
    ("com", "elscione", "elscione-sync")
}

/// The configuration file in the platform's configuration directory for this program.
pub fn default_config_path() -> (r: String)
    ensures
        exists|dir: Option<Seq<char>>| r@ == #[trigger] config_file(dir),
{
    let (qualifier, organization, application) = program_names();
    let dir: Option<String> = project_config_dir(qualifier, organization, application);
    let ghost view: Option<Seq<char>> = text_view(dir);
    let path: String = config_path_in(dir);
    assert(path@ == config_file(view));
    path
}

/// The state database in the platform's data directory for this program.
pub fn default_db_path() -> (r: String)
    ensures
        exists|dir: Option<Seq<char>>| r@ == #[trigger] state_file(dir),
{
    let (qualifier, organization, application) = program_names();
    let dir: Option<String> = project_data_dir(qualifier, organization, application);
    let ghost view: Option<Seq<char>> = text_view(dir);
    let path: String = db_path_in(dir);
    assert(path@ == state_file(view));
    path
}

/// The state database that belongs to a configuration file that was named: `state.db` beside it.
/// Where no file was named, or the named path has no parent, there is none.
pub open spec fn named_database(config_path: Option<Seq<char>>) -> Option<Seq<char>> {
    match config_path {
        Some(path) => match parent_of(path) {
            Some(dir) => Some(joined(dir, "state.db"@)),
            None => None,
        },
        None => None,
    }
}

/// The state database that belongs to a configuration file, given the default one.
pub fn database_or(config_path: Option<&str>, default: String) -> (r: String)
    ensures
        r@ == (match named_database(opt_text(config_path)) {
            Some(path) => path,
            None => default@,
        }),
{
    let dir: Option<String> = match config_path {
        Some(path) => parent(path),
        None => None,
    };
    match dir {
        Some(dir) => join(dir.as_str(), "state.db"),
        None => default,
    }
}

/// The state database that belongs to a configuration file: `state.db` beside it; the default
/// one where no file was named or the named path has no parent.
///
/// The path has `/` as its separator.
pub fn db_path_for_config(config_path: Option<&str>) -> (r: String)
    ensures
        match named_database(opt_text(config_path)) {
            Some(path) => r@ == path,
            None => exists|dir: Option<Seq<char>>| r@ == #[trigger] state_file(dir),
        },
{
    database_or(config_path, default_db_path())
}

// ---------------------------------------------------------------------------
// Reading
// ---------------------------------------------------------------------------

/// Extensions without leading dots.
pub open spec fn bare_extensions(extensions: Seq<Seq<char>>) -> Seq<Seq<char>> {
    extensions.map_values(|ext: Seq<char>| trim_start_of(ext, '.'))
}

/// The extensions without leading dots.
pub fn normalize_extensions(extensions: &Vec<String>) -> (r: Vec<String>)
    ensures
        texts(r@) == bare_extensions(texts(extensions@)),
{
    let mut out: Vec<String> = Vec::new();
    let mut i: usize = 0;
    while i < extensions.len()
        invariant
            i <= extensions@.len(),
            out@.len() == i,
            forall|k: int|
                0 <= k < i ==> (#[trigger] out@[k])@ == trim_start_of(extensions@[k]@, '.'),
        decreases extensions.len() - i,
    {
        out.push(text_of(&trim_start_chars(&chars_of(extensions[i].as_str()), '.')));
        i += 1;
    }
    assert(texts(out@) =~= bare_extensions(texts(extensions@)));
    out
}

/// Why a configuration is refused.
#[derive(Debug)]
pub enum ConfigError {
    /// No simultaneous downloads.
    NoDownloads,
    /// No simultaneous directory requests.
    NoCrawls,
    /// Waits that shrink from retry to retry.
    ShrinkingBackoff,
    /// A server address that is no URL.
    BaseUrl { reason: String },
}

/// The message of a refusal.
pub open spec fn refusal_text(error: ConfigError) -> Seq<char> {
    match error {
        ConfigError::NoDownloads => "concurrency.max_parallel_downloads must be >= 1"@,
        ConfigError::NoCrawls => "concurrency.max_parallel_crawls must be >= 1"@,
        ConfigError::ShrinkingBackoff => "rate_limit.backoff_multiplier must be >= 1.0"@,
        ConfigError::BaseUrl { reason } => "server.base_url is not a valid URL: "@ + reason@,
    }
}

impl ConfigError {
    /// The message for the user.
    pub fn message(&self) -> (r: String)
        ensures
            r@ == refusal_text(*self),
    {
        match self {
            ConfigError::NoDownloads => {
                "concurrency.max_parallel_downloads must be >= 1".to_owned()
            },
            ConfigError::NoCrawls => "concurrency.max_parallel_crawls must be >= 1".to_owned(),
            ConfigError::ShrinkingBackoff => {
                "rate_limit.backoff_multiplier must be >= 1.0".to_owned()
            },
            ConfigError::BaseUrl { reason } => {
                let mut text: String = "server.base_url is not a valid URL: ".to_owned();
                text.append(reason.as_str());
                text
            },
        }
    }
}

/// Whether the double-precision number with these bits is less than one: a positive number
/// with smaller bits, or one with the sign bit that is not "not a number".
pub open spec fn is_below_one(bits: u64) -> bool {
    bits < ONE_BITS || 0x8000_0000_0000_0000 <= bits <= 0xFFF0_0000_0000_0000
}

/// Whether a judgement on a configuration is right, given why its server address is no URL.
/// The checks come in this order, and the first one that fails gives the error.
pub open spec fn judges(
    judgement: Result<(), ConfigError>,
    config: Config,
    url_error: Option<Seq<char>>,
) -> bool {
    let downloads = config.concurrency.max_parallel_downloads >= 1;
    let crawls = config.concurrency.max_parallel_crawls >= 1;
    let backoff = !is_below_one(config.rate_limit.backoff_multiplier_bits);
    match judgement {
        Ok(_) => downloads && crawls && backoff && url_error is None,
        Err(ConfigError::NoDownloads) => !downloads,
        Err(ConfigError::NoCrawls) => downloads && !crawls,
        Err(ConfigError::ShrinkingBackoff) => downloads && crawls && !backoff,
        Err(ConfigError::BaseUrl { reason }) => downloads && crawls && backoff && url_error == Some(
            reason@,
        ),
    }
}

impl Config {
    /// Checks the configuration, given the reason why its server address is no URL.
    pub fn validate_with(&self, base_url_error: Option<String>) -> (r: Result<(), ConfigError>)
        ensures
            judges(r, *self, text_view(base_url_error)),
    {
        if self.concurrency.max_parallel_downloads < 1 {
            return Err(ConfigError::NoDownloads);
        }
        if self.concurrency.max_parallel_crawls < 1 {
            return Err(ConfigError::NoCrawls);
        }
        let bits: u64 = self.rate_limit.backoff_multiplier_bits;
        if bits < ONE_BITS || (0x8000_0000_0000_0000 <= bits && bits <= 0xFFF0_0000_0000_0000) {
            return Err(ConfigError::ShrinkingBackoff);
        }
        match base_url_error {
            Some(reason) => Err(ConfigError::BaseUrl { reason }),
            None => Ok(()),
        }
    }

    /// Checks the configuration.
    pub fn validate(&self) -> (r: Result<(), ConfigError>)
        ensures
            judges(r, *self, url_error(self.server.base_url@)),
    {
        let base_url_error: Option<String> = url_parse_error(self.server.base_url.as_str());
        self.validate_with(base_url_error)
    }
}

/// Accepts a configuration as it was read: with bare extensions, if nothing is wrong with it.
pub fn accept(config: Config) -> (r: Result<Config, ConfigError>)
    ensures
        match r {
            Ok(c) => judges(Ok(()), config, url_error(config.server.base_url@)) && c.server
                == config.server && c.output == config.output && c.concurrency
                == config.concurrency && c.rate_limit == config.rate_limit && c.sync.include_folders
                == config.sync.include_folders && c.sync.exclude_patterns
                == config.sync.exclude_patterns && texts(c.sync.allowed_extensions@)
                == bare_extensions(texts(config.sync.allowed_extensions@))
                && c.sync.redownload_on_size_mismatch == config.sync.redownload_on_size_mismatch,
            Err(e) => judges(Err(e), config, url_error(config.server.base_url@)),
        },
{
    let mut config = config;
    config.sync.allowed_extensions = normalize_extensions(&config.sync.allowed_extensions);
    match config.validate() {
        Ok(_) => Ok(config),
        Err(e) => Err(e),
    }
}

// ---------------------------------------------------------------------------
// Laws
// ---------------------------------------------------------------------------

/// The default configuration is accepted, if its server address is a URL.
pub proof fn law_default_config_is_accepted(config: Config)
    requires
        is_default_config(config),
    ensures
        judges(Ok(()), config, None),
{
}

/// Whether a configuration is accepted, and with which message it is refused, is determined.
pub proof fn law_judgement_is_determined(
    a: Result<(), ConfigError>,
    b: Result<(), ConfigError>,
    config: Config,
    url_error: Option<Seq<char>>,
)
    requires
        judges(a, config, url_error),
        judges(b, config, url_error),
    ensures
        a is Ok <==> b is Ok,
        a is Err ==> refusal_text(a->Err_0) == refusal_text(b->Err_0),
{
}

/// Extensions without leading dots stay as they are.
pub proof fn law_bare_extensions_stay(extensions: Seq<Seq<char>>)
    ensures
        bare_extensions(bare_extensions(extensions)) == bare_extensions(extensions),
{
    let bare = bare_extensions(extensions);
    assert forall|i: int| 0 <= i < extensions.len() implies trim_start_of(#[trigger] bare[i], '.')
        == bare[i] by {
        let ext = extensions[i];
        lemma_run_end(ext, 0, is_char('.'));
        assert(run_end(bare[i], 0, is_char('.')) == 0);
        assert(bare[i].skip(0) =~= bare[i]);
    }
    assert(bare_extensions(bare) =~= bare);
}

/// A directory has one state database: configuration files in it share the file `state.db` of
/// that directory, whatever their names.
pub proof fn law_directory_has_one_database(dir: Seq<char>, a: Seq<char>, b: Seq<char>)
    requires
        is_plain_name(a),
        is_plain_name(b),
    ensures
        named_database(Some(joined(dir, a))) is Some,
        named_database(Some(joined(dir, a))) == named_database(Some(joined(dir, b))),
        ({
            let database = named_database(Some(joined(dir, a)))->0;
            let expected = joined(dir, "state.db"@);
            &&& file_name_of(database) == file_name_of(expected)
            &&& parent_of(database) == parent_of(expected)
            &&& parent_of(joined(dir, a)) == Some(dir) ==> database == expected
        }),
{
    reveal_strlit("state.db");
    assert("state.db"@.len() == 8);
    assert(is_plain_name("state.db"@));
    law_names_share_their_directory(dir, a, b);
    law_names_share_their_directory(dir, a, "state.db"@);
    law_names_share_their_directory(dir, "state.db"@, a);
    law_database_lies_beside_the_config(joined(dir, a));
}

/// A path without a name has no state database of its own, so that the default one belongs to it:
/// the empty path and the root.
pub proof fn law_root_has_no_database(path: Seq<char>)
    requires
        forall|i: int| 0 <= i < path.len() ==> path[i] == '/',
    ensures
        named_database(Some(path)) is None,
{
    law_root_has_no_parent(path);
}

/// The state database lies beside the configuration file that was named.
pub proof fn law_database_lies_beside_the_config(path: Seq<char>)
    requires
        file_name_of(path) is Some,
    ensures
        named_database(Some(path)) matches Some(database) && parent_of(database) == parent_of(path)
            && file_name_of(database) == Some("state.db"@),
{
    reveal_strlit("state.db");
    let name = "state.db"@;
    assert(name.len() == 8);
    law_siblings_share_their_parent(path, name);
}

/// A configuration is refused exactly if it allows no downloads, or no directory requests, or has
/// a multiplier below one, or a server address that is no URL; the first of these gives the
/// reason.
pub proof fn law_useless_configurations_are_refused(
    judgement: Result<(), ConfigError>,
    config: Config,
    url_error: Option<Seq<char>>,
)
    requires
        judges(judgement, config, url_error),
    ensures
        judgement is Ok <==> config.concurrency.max_parallel_downloads > 0
            && config.concurrency.max_parallel_crawls > 0 && !is_below_one(
            config.rate_limit.backoff_multiplier_bits,
        ) && url_error is None,
        config.concurrency.max_parallel_downloads == 0 ==> judgement matches Err(
            ConfigError::NoDownloads,
        ),
        config.concurrency.max_parallel_downloads > 0 && config.concurrency.max_parallel_crawls
            == 0 ==> judgement matches Err(ConfigError::NoCrawls),
        config.concurrency.max_parallel_downloads > 0 && config.concurrency.max_parallel_crawls > 0
            && is_below_one(config.rate_limit.backoff_multiplier_bits) ==> judgement matches Err(
            ConfigError::ShrinkingBackoff,
        ),
{
}

/// The bits of numbers grow with the numbers up to infinity: those from zero on lie below those
/// of one, which are `0x3FF0_0000_0000_0000`, exactly if the number is less than one.  With the
/// sign bit every number is less, down to minus infinity; what lies beyond the infinities is no
/// number and not less than one.
pub proof fn law_multipliers_compare_by_their_bits(bits: u64)
    ensures
        bits <= 0x7FFF_FFFF_FFFF_FFFF ==> (is_below_one(bits) <==> bits < 0x3FF0_0000_0000_0000),
        0x8000_0000_0000_0000 <= bits <= 0xFFF0_0000_0000_0000 ==> is_below_one(bits),
        bits > 0xFFF0_0000_0000_0000 ==> !is_below_one(bits),
{
}

/// Leading dots of an extension are dropped, however many, and nothing else of it.
pub proof fn law_leading_dots_are_dropped(
    extensions: Seq<Seq<char>>,
    i: int,
    dots: Seq<char>,
    ext: Seq<char>,
)
    requires
        0 <= i < extensions.len(),
        extensions[i] == dots + ext,
        forall|k: int| 0 <= k < dots.len() ==> #[trigger] dots[k] == '.',
        ext.len() == 0 || ext[0] != '.',
    ensures
        bare_extensions(extensions).len() == extensions.len(),
        bare_extensions(extensions)[i] == ext,
{
    law_trimming_takes_one_character(dots, ext, '.');
}

/// The state database of a configuration file in a directory is the file `state.db` in it.
pub proof fn law_databases_are_named_state(parent: Seq<char>, dir: Seq<char>, name: Seq<char>)
    requires
        is_plain_name(dir),
        is_plain_name(name),
    ensures
        named_database(Some(parent + seq!['/'] + dir + seq!['/'] + name)) == Some(
            parent + seq!['/'] + dir + "/state.db"@,
        ),
        named_database(None) is None,
{
    let base = parent + seq!['/'] + dir;
    law_parents_hold_their_files(parent, dir, name);
    reveal_strlit("state.db");
    reveal_strlit("/state.db");
    assert(base.last() == dir[dir.len() - 1]);
    law_joining_paths(base, "state.db"@);
    assert(seq!['/'] + "state.db"@ =~= "/state.db"@);
    assert(base + seq!['/'] + "state.db"@ =~= base + "/state.db"@);
}

} // verus!
