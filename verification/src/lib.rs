//! Flags files whose nominal extension does not match the file type inferred
//! from their content, and plans renames that correct them.
//!
//! The crate holds the scan logic itself: eligibility filtering, the
//! case-insensitive comparison of an actual extension against a detected
//! extension set, the order-independent reduction of per-file outcomes into
//! one summary, and the computation of corrected file names. Directory
//! walking, the detection backends (a signature matcher and an ML classifier)
//! and terminal output are collaborators at the boundary: they hand this crate
//! plain values and take plain values back.

pub mod app;
pub mod cli;
pub mod detector;
pub mod error;
pub mod magic;
pub mod magika;
pub mod parse;
pub mod pathname;
pub mod scan;
pub mod scanner;

pub use app::{App, Config, EngineType};
