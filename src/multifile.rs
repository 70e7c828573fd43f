use vstd::prelude::*;

use crate::config::Config;

verus! {

/// Processes several files with one configuration.
pub struct MultiFileProcessor {
    config: Config,
}

impl MultiFileProcessor {
    /// A processor for files searched with `config`.
    pub fn new(config: Config) -> (r: Self)
        ensures
            r.config() == config,
    {
        MultiFileProcessor { config }
    }

    pub closed spec fn config(&self) -> Config {
        self.config
    }

    /// The configuration used for each file.
    pub fn get_config(&self) -> (r: &Config)
        ensures
            *r == self.config(),
    {
        &self.config
    }

    /// Whether, with `total` results so far, the limit over all files is
    /// reached; a limit of 0 is never reached.
    pub fn global_limit_reached(total: usize, global_limit: usize) -> (r: bool)
        ensures
            r == (global_limit > 0 && total >= global_limit),
    {
        global_limit > 0 && total >= global_limit
    }
}

} // verus!
