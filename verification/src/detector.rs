use vstd::prelude::*;
use crate::error::Error;

verus! {

/// Capability interface of a detection backend: map a file path to the list
/// of extensions that plausibly match the file's content. The two backends
/// (the native signature matcher and the ML classifier) live outside this
/// crate and implement this at the boundary; neither is thread-safe, so one
/// instance must never serve two workers at once.
pub trait FileTypeDetector {
    fn detect(&mut self, file_path: &str) -> Result<Vec<String>, Error>;
}

} // verus!
