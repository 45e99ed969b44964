//! The command-line surface, as plain data: the arguments a run takes and
//! the subcommands. Parsing the real command line happens outside; these
//! types carry the parsed values into the core.

use vstd::prelude::*;

verus! {

/// The run arguments.
pub struct Args {
    pub command: Option<Commands>,
    /// Paths to test files or directories.
    pub paths: Vec<String>,
    /// A filter pattern for test names.
    pub filter: Option<String>,
    pub verbose: bool,
    pub no_parallel: bool,
    /// The number of parallel jobs; the default is the logical CPU count.
    pub jobs: Option<usize>,
    /// Disable dependency caching: run every test.
    pub no_cache: bool,
    /// The isolation mode's name.
    pub isolation: String,
    pub markdown_help: bool,
}

/// The subcommands.
pub enum Commands {
    /// List discovered tests without running them.
    List { paths: Vec<String>, filter: Option<String> },
    /// Watch for changes and re-run affected tests.
    Watch {
        paths: Vec<String>,
        filter: Option<String>,
        verbose: bool,
        jobs: Option<usize>,
        isolation: String,
        no_cache: bool,
    },
    /// Cache management.
    Cache { action: CacheAction },
}

/// The cache subcommands.
pub enum CacheAction {
    /// Show cache statistics.
    Info,
    /// Remove all cached data.
    Clear,
}

} // verus!
