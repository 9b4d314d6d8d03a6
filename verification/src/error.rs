use vstd::prelude::*;

verus! {

/// Everything that can go wrong during a scan or a fix-up, with a diagnostic
/// text per variant. I/O, encoding and backend failures all reach the caller
/// through this one type.
#[derive(Debug, Clone, PartialEq, Eq)]
pub enum Error {
    /// A metadata, read or rename failure.
    Io(String),
    /// A path or a backend answer that is not valid UTF-8.
    Utf8(String),
    /// A path that holds an interior NUL byte and cannot reach a C call.
    Nul(String),
    /// A failure reported by the signature-matching backend.
    Magic(String),
    /// A failure reported by the ML classification backend.
    Magika(String),
    /// Any other failure, described by its text.
    Other(String),
}

impl Error {
    /// The diagnostic text the variant carries.
    pub open spec fn spec_message(&self) -> Seq<char> {
        match self {
            Error::Io(s) => s@,
            Error::Utf8(s) => s@,
            Error::Nul(s) => s@,
            Error::Magic(s) => s@,
            Error::Magika(s) => s@,
            Error::Other(s) => s@,
        }
    }

    /// The diagnostic text the variant carries.
    pub fn message(&self) -> (r: &String)
        ensures
            r@ == self.spec_message(),
    {
        match self {
            Error::Io(s) => s,
            Error::Utf8(s) => s,
            Error::Nul(s) => s,
            Error::Magic(s) => s,
            Error::Magika(s) => s,
            Error::Other(s) => s,
        }
    }
}

} // verus!
