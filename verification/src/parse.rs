use vstd::prelude::*;

verus! {

/// The argument set of the older, list-driven front end: any number of input
/// files, plus the flags that steer summary output and the fix-up decision.
/// The surrounding program fills this in from the actual arguments.
#[derive(Debug, Clone)]
pub struct Args {
    pub files: Vec<String>,
    pub magic_file: Option<String>,
    pub strict: bool,
    pub recursive: bool,
    pub no_summary: bool,
    pub yes: bool,
    pub no: bool,
}

} // verus!
