use vstd::prelude::*;
use crate::app::Config;

verus! {

/// The command-line surface: one input path, an engine selection, an optional
/// signature database, and the traversal flags. The surrounding program fills
/// this in from the actual arguments; everything derived from it is computed
/// here.
#[derive(Debug, Clone)]
pub struct Args {
    pub path: String,
    pub engine: EngineType,
    pub magic_file: Option<String>,
    pub recursive: bool,
    pub ignore: bool,
}

/// The engine selection as it appears on the command line.
#[derive(Debug, Clone, PartialEq, Eq, Structural)]
pub enum EngineType {
    Libmagic,
    Magika,
}

impl EngineType {
    /// The name under which the engine is selected and shown.
    pub open spec fn spec_label(&self) -> Seq<char> {
        match self {
            EngineType::Libmagic => "libmagic"@,
            EngineType::Magika => "magika"@,
        }
    }

    /// The name under which the engine is selected and shown.
    pub fn label(&self) -> (r: String)
        ensures
            r@ == self.spec_label(),
    {
        match self {
            EngineType::Libmagic => String::from_str("libmagic"),
            EngineType::Magika => String::from_str("magika"),
        }
    }

    /// The configuration value this selection stands for.
    pub fn engine_type(&self) -> (r: crate::app::EngineType)
        ensures
            r == (match self {
                EngineType::Libmagic => crate::app::EngineType::LibMagic,
                EngineType::Magika => crate::app::EngineType::Magika,
            }),
    {
        match self {
            EngineType::Libmagic => crate::app::EngineType::LibMagic,
            EngineType::Magika => crate::app::EngineType::Magika,
        }
    }
}

impl Args {
    /// A signature database was named but the selected engine ignores it; the
    /// caller should warn.
    pub fn magic_file_ignored(&self) -> (r: bool)
        ensures
            r == (self.magic_file is Some && self.engine != EngineType::Libmagic),
    {
        self.magic_file.is_some() && !(self.engine == EngineType::Libmagic)
    }

    /// The scan configuration these arguments ask for.
    pub fn to_config(self) -> (r: Config)
        ensures
            r.file_path == self.path,
            r.engine_type == (match self.engine {
                EngineType::Libmagic => crate::app::EngineType::LibMagic,
                EngineType::Magika => crate::app::EngineType::Magika,
            }),
            r.magic_file == self.magic_file,
            r.recursive == self.recursive,
            r.ignore == self.ignore,
    {
        let engine_type = self.engine.engine_type();
        Config {
            file_path: self.path,
            engine_type,
            magic_file: self.magic_file,
            recursive: self.recursive,
            ignore: self.ignore,
        }
    }
}

} // verus!
