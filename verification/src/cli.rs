//! What can be asked for on the command line.
use vstd::prelude::*;

use crate::text::same_text;

verus! {

/// The whole command line.
#[derive(Debug)]
pub struct Cli {
    /// Path of the configuration file; the platform's configuration directory if absent.
    pub config: Option<String>,
    /// Whether debug messages are logged.
    pub verbose: bool,
    /// The command; syncing if absent.
    pub command: Option<Commands>,
}

/// The commands.
#[derive(Debug)]
pub enum Commands {
    /// Start or resume syncing.
    Sync(SyncOpts),
    /// Open the interactive folder selector.
    Select,
    /// Show a summary of the sync progress.
    Status,
    /// Reset interrupted, failed and skipped files to pending.
    Reset {
        /// Reset failed files only.
        errors_only: bool,
    },
    /// List discovered files.
    List {
        /// Only files whose path contains this text.
        filter: Option<String>,
        /// Only files with this status.
        status: Option<String>,
    },
    /// Open the configuration file in an editor.
    EditConfig,
}

/// The options of a sync.
#[derive(Debug, Clone)]
pub struct SyncOpts {
    /// Output directory in place of the configured one.
    pub output: Option<String>,
    /// Number of parallel downloads in place of the configured one.
    pub concurrency: Option<usize>,
    /// Delay between requests in milliseconds in place of the configured one.
    pub delay: Option<u64>,
    /// Top-level folders in place of the selected ones.
    pub include_folders: Vec<String>,
    /// Exclude patterns in place of the configured ones.
    pub exclude: Vec<String>,
    /// File extensions in place of the configured ones.
    pub extensions: Vec<String>,
    /// Crawl and plan without downloading.
    pub dry_run: bool,
    /// Download pending files without crawling.
    pub resume: bool,
}

/// Whether sync options ask for nothing special.
pub open spec fn is_plain(opts: SyncOpts) -> bool {
    &&& opts.output is None
    &&& opts.concurrency is None
    &&& opts.delay is None
    &&& opts.include_folders@.len() == 0
    &&& opts.exclude@.len() == 0
    &&& opts.extensions@.len() == 0
    &&& !opts.dry_run
    &&& !opts.resume
}

impl Default for SyncOpts {
    fn default() -> (r: Self)
        ensures
            is_plain(r),
    {
        SyncOpts {
            output: None,
            concurrency: None,
            delay: None,
            include_folders: Vec::new(),
            exclude: Vec::new(),
            extensions: Vec::new(),
            dry_run: false,
            resume: false,
        }
    }
}

/// The command that is carried out: the given one, or a plain sync.
pub fn effective_command(command: Option<Commands>) -> (r: Commands)
    ensures
        match command {
            Some(c) => r == c,
            None => r matches Commands::Sync(opts) && is_plain(opts),
        },
{
    match command {
        Some(c) => c,
        None => Commands::Sync(SyncOpts::default()),
    }
}

/// Whether a command works on the state database: all do but editing the configuration.
pub fn command_needs_database(command: &Option<Commands>) -> (r: bool)
    ensures
        r == !(command matches Some(Commands::EditConfig)),
{
    match command {
        Some(Commands::EditConfig) => false,
        _ => true,
    }
}

/// The log filter: debug messages of this program on demand, else information, and warnings of
/// everything else.
pub fn log_filter(verbose: bool) -> (r: &'static str)
    ensures
        r@ == (if verbose {
            "elscione_sync=debug,warn"@
        } else {
            "elscione_sync=info,warn"@
        }),
{
    if verbose {
        "elscione_sync=debug,warn"
    } else {
        "elscione_sync=info,warn"
    }
}

/// The platforms that differ in their standard editor.
#[derive(Debug, Clone, Copy, PartialEq, Eq, Structural)]
pub enum Platform {
    MacOs,
    Windows,
    Other,
}

/// The editor that is started: the user's, or the platform's standard one.
pub open spec fn chosen_editor(user: Option<Seq<char>>, platform: Platform) -> Seq<char> {
    match user {
        Some(editor) => editor,
        None => match platform {
            Platform::MacOs => "open"@,
            Platform::Windows => "notepad"@,
            Platform::Other => "vi"@,
        },
    }
}

/// The arguments with which an editor is started on a file: `open` is told to open it as text.
pub open spec fn chosen_arguments(editor: Seq<char>, path: Seq<char>) -> Seq<Seq<char>> {
    if editor == "open"@ {
        seq!["-t"@, path]
    } else {
        seq![path]
    }
}

/// Picks the editor: the value of the user's setting, or the platform's standard one.
pub fn editor_program(user: Option<String>, platform: Platform) -> (r: String)
    ensures
        r@ == chosen_editor(
            match user {
                Some(editor) => Some(editor@),
                None => None,
            },
            platform,
        ),
{
    match user {
        Some(editor) => editor,
        None => match platform {
            Platform::MacOs => "open".to_owned(),
            Platform::Windows => "notepad".to_owned(),
            Platform::Other => "vi".to_owned(),
        },
    }
}

/// The arguments for the editor.
pub fn editor_arguments(editor: &str, path: &str) -> (r: Vec<String>)
    ensures
        r@.map_values(|s: String| s@) == chosen_arguments(editor@, path@),
{
    let mut args: Vec<String> = Vec::new();
    if same_text(editor, "open") {
        args.push("-t".to_owned());
    }
    args.push(path.to_owned());
    assert(args@.map_values(|s: String| s@) =~= chosen_arguments(editor@, path@));
    args
}

/// The user's editor is used whatever the platform, and is given the file last.
pub proof fn law_the_users_editor_is_used(
    editor: Seq<char>,
    a: Platform,
    b: Platform,
    path: Seq<char>,
)
    ensures
        chosen_editor(Some(editor), a) == editor,
        chosen_editor(None, a) == chosen_editor(None, b) <==> a == b,
        chosen_arguments(editor, path).last() == path,
        chosen_arguments(editor, path).len() == 2 <==> editor == chosen_editor(
            None,
            Platform::MacOs,
        ),
        chosen_arguments(editor, path).len() == 1 || chosen_arguments(editor, path) == seq![
            "-t"@,
            path,
        ],
{
    reveal_strlit("open");
    reveal_strlit("notepad");
    reveal_strlit("vi");
    assert("open"@[0] != "notepad"@[0] && "open"@[0] != "vi"@[0] && "notepad"@[0] != "vi"@[0]);
}

} // verus!
