use vstd::prelude::*;

verus! {

/// Configuration of one scan: the root to walk, the engine that classifies
/// content, an optional signature database for the native engine, and the
/// traversal policy. Read-only for the scan's duration.
#[derive(Debug)]
pub struct Config {
    pub file_path: String,
    pub engine_type: EngineType,
    pub magic_file: Option<String>,
    pub recursive: bool,
    pub ignore: bool,
}

#[verifier::ext_equal]
pub ghost struct ConfigView {
    pub file_path: Seq<char>,
    pub engine_type: EngineType,
    pub magic_file: Option<Seq<char>>,
    pub recursive: bool,
    pub ignore: bool,
}

impl View for Config {
    type V = ConfigView;

    open spec fn view(&self) -> ConfigView {
        ConfigView {
            file_path: self.file_path@,
            engine_type: self.engine_type,
            magic_file: match self.magic_file {
                Some(s) => Some(s@),
                None => None,
            },
            recursive: self.recursive,
            ignore: self.ignore,
        }
    }
}

impl Clone for Config {
    fn clone(&self) -> (r: Config)
        ensures
            r@ == self@,
    {
        Config {
            file_path: self.file_path.clone(),
            engine_type: self.engine_type,
            magic_file: match &self.magic_file {
                Some(s) => Some(s.clone()),
                None => None,
            },
            recursive: self.recursive,
            ignore: self.ignore,
        }
    }
}

/// Which detection backend a scan uses.
#[derive(Debug, Clone, Copy, PartialEq, Eq, Structural)]
pub enum EngineType {
    LibMagic,
    Magika,
}

/// The application: holds the configuration that one run works from. The
/// surrounding program drives the scan and prints the summary; this type
/// only keeps the configuration together.
#[derive(Debug)]
pub struct App {
    config: Config,
}

impl App {
    /// The configuration this application was built with.
    pub closed spec fn spec_config(&self) -> Config {
        self.config
    }

    pub fn new(config: Config) -> (r: App)
        ensures
            r.spec_config() == config,
    {
        App { config }
    }

    /// Read access to the configuration, for whoever drives the run.
    pub fn config(&self) -> (r: &Config)
        ensures
            *r == self.spec_config(),
    {
        &self.config
    }
}

} // verus!
