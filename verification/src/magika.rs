//! The ML classifier's side of the scan: the scanner configuration holder.
//! The classifier itself — a model-backed inference session that reads the
//! file and answers with an ordered list of extension candidates — is a
//! collaborator at the boundary; it hands the scan its candidate lists as
//! plain values.

use vstd::prelude::*;
use crate::app::Config;

verus! {

/// A scan driven by the ML classification engine. Holds the configuration;
/// the driver walks the tree, keeps one inference session per worker (the
/// session must be treated as exclusive to its worker), and reduces per-file
/// outcomes with the pipeline in `scanner`.
#[derive(Debug)]
pub struct MagikaScanner {
    config: Config,
}

impl MagikaScanner {
    /// The configuration this scanner was built with.
    pub closed spec fn spec_config(&self) -> Config {
        self.config
    }

    pub fn new(config: Config) -> (r: MagikaScanner)
        ensures
            r.spec_config() == config,
    {
        MagikaScanner { config }
    }

    /// Read access to the configuration, for whoever drives the scan.
    pub fn config(&self) -> (r: &Config)
        ensures
            *r == self.spec_config(),
    {
        &self.config
    }
}

} // verus!
