//! Configuration: the options the project file may set, and how they
//! combine with the command line.

use vstd::prelude::*;

verus! {

/// The configuration options.
pub struct Config {
    /// The greatest number of worker processes a run may use.
    pub max_workers: Option<usize>,
}

impl Default for Config {
    /// No options set.
    fn default() -> (r: Config)
        ensures
            r.max_workers is None,
    {
        Config { max_workers: None }
    }
}

impl Config {
    /// The job count a run uses: the command line wins over the
    /// configuration; neither set means the runner picks its default.
    pub fn effective_jobs(&self, cli_jobs: Option<usize>) -> (r: Option<usize>)
        ensures
            r == if cli_jobs is Some {
                cli_jobs
            } else {
                self.max_workers
            },
    {
        match cli_jobs {
            Some(n) => Some(n),
            None => self.max_workers,
        }
    }
}

} // verus!
