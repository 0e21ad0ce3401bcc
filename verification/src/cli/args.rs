//! What the command line asks for.

use vstd::prelude::*;

verus! {

/// Where the configuration file is, unless the command line says otherwise.
pub const DEFAULT_MODULE_LOCATION: &'static str = "protofetch.toml";

/// Where the lock file is, unless the command line says otherwise.
pub const DEFAULT_LOCKFILE_LOCATION: &'static str = "protofetch.lock";

/// Where the cache is, below the user's home directory, unless the command
/// line says otherwise.
pub const DEFAULT_CACHE_DIRECTORY: &'static str = ".protofetch_cache";

/// Where the dependencies' sources are written to, unless the command line
/// says otherwise.
pub const DEFAULT_SOURCE_OUTPUT_DIRECTORY: &'static str = "dependencies";

/// Where the proto files are written to, unless the command line says
/// otherwise.
pub const DEFAULT_PROTO_OUTPUT_DIRECTORY: &'static str = "proto_src";

/// Where a configuration is set up or converted, unless the command line
/// says otherwise.
pub const DEFAULT_DIRECTORY: &'static str = ".";

/// One invocation: the command and where the files it works on are.
#[derive(Debug, PartialEq, Eq)]
pub struct CliArgs {
    pub cmd: Command,
    /// Location of the configuration file.
    pub module_location: String,
    /// Location of the lock file.
    pub lockfile_location: String,
    /// Location of the cache directory, below the user's home directory.
    pub cache_directory: String,
    /// The user to authenticate as, where a remote asks.
    pub username: Option<String>,
    /// The password to authenticate with, where a remote asks.
    pub password: Option<String>,
}

/// What to do.
#[derive(Debug, PartialEq, Eq)]
pub enum Command {
    /// Materializes the locked dependencies, locking first where the lock
    /// file is absent or `force_lock` is set.
    Fetch {
        force_lock: bool,
        /// Directory that the dependencies' sources are written to.
        source_output_directory: String,
        /// Directory that the proto files are written to.
        proto_output_directory: String,
    },
    /// Resolves the dependencies and writes the lock file.
    Lock,
    /// Sets up a new configuration in `directory`.
    Init { directory: String, name: Option<String> },
    /// Converts a protodep configuration in `directory`.
    Migrate { directory: String, name: Option<String> },
    /// Removes what was materialized.
    Clean,
    /// Empties the repository cache.
    ClearCache,
}

impl Command {
    /// `fetch` as the command line gives it when no option is set.
    pub fn fetch() -> (cmd: Command)
        ensures
            cmd matches Command::Fetch { force_lock, source_output_directory, proto_output_directory }
                && !force_lock && source_output_directory@ == DEFAULT_SOURCE_OUTPUT_DIRECTORY@
                && proto_output_directory@ == DEFAULT_PROTO_OUTPUT_DIRECTORY@,
    {
        Command::Fetch {
            force_lock: false,
            source_output_directory: DEFAULT_SOURCE_OUTPUT_DIRECTORY.to_owned(),
            proto_output_directory: DEFAULT_PROTO_OUTPUT_DIRECTORY.to_owned(),
        }
    }

    /// Whether the command resolves the dependencies anew before anything
    /// else, given whether a lock file is present: `lock` always does,
    /// `fetch` where the lock file is absent or locking is forced.
    pub fn locks_first(&self, lock_file_present: bool) -> (r: bool)
        ensures
            r == match self {
                Command::Fetch { force_lock, .. } => *force_lock || !lock_file_present,
                Command::Lock => true,
                _ => false,
            },
    {
        match self {
            Command::Fetch { force_lock, .. } => *force_lock || !lock_file_present,
            Command::Lock => true,
            _ => false,
        }
    }
}

impl CliArgs {
    /// The invocation of `cmd` with every location at its default.
    pub fn new(cmd: Command) -> (args: CliArgs)
        ensures
            args.cmd == cmd,
            args.module_location@ == DEFAULT_MODULE_LOCATION@,
            args.lockfile_location@ == DEFAULT_LOCKFILE_LOCATION@,
            args.cache_directory@ == DEFAULT_CACHE_DIRECTORY@,
            args.username.is_none(),
            args.password.is_none(),
    {
        CliArgs {
            cmd,
            module_location: DEFAULT_MODULE_LOCATION.to_owned(),
            lockfile_location: DEFAULT_LOCKFILE_LOCATION.to_owned(),
            cache_directory: DEFAULT_CACHE_DIRECTORY.to_owned(),
            username: None,
            password: None,
        }
    }
}

} // verus!
