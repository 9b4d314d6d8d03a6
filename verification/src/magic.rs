//! The native signature engine's side of the scan: the scanner configuration
//! holder and the normalization of the engine's answer. The engine itself — a
//! stateful native handle that reads the file and answers with a
//! `/`-separated list of extension candidates — is a collaborator at the
//! boundary; only its answer is handled here.

use vstd::prelude::*;
use crate::app::Config;
use crate::pathname::{seq_views, split_char, split_seq};

verus! {

/// A scan driven by the native signature engine. Holds the configuration;
/// the driver walks the tree, keeps one engine instance per worker (the
/// engine is not thread-safe), and reduces per-file outcomes with the
/// pipeline in `scanner`.
#[derive(Debug)]
pub struct LibMagicScanner {
    config: Config,
}

impl LibMagicScanner {
    /// The configuration this scanner was built with.
    pub closed spec fn spec_config(&self) -> Config {
        self.config
    }

    pub fn new(config: Config) -> (r: LibMagicScanner)
        ensures
            r.spec_config() == config,
    {
        LibMagicScanner { config }
    }

    /// Read access to the configuration, for whoever drives the scan.
    pub fn config(&self) -> (r: &Config)
        ensures
            *r == self.spec_config(),
    {
        &self.config
    }
}

/// The native engine answers with one string listing its extension
/// candidates, separated by `/` (for example `"jpeg/jpg/jpe/jfif"`). This
/// splits that answer into the individual candidates; there is always at
/// least one.
pub fn split_extensions(answer: &str) -> (r: Vec<String>)
    ensures
        seq_views(r@) == split_seq(answer@, '/'),
        r@.len() >= 1,
{
    split_char(answer, '/')
}

} // verus!
