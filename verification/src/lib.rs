//! A line-indexed reader over text content that may grow while it is read.
//!
//! The reader keeps a cursor (how many lines it has produced) and a byte
//! position into the content. Callers hand each operation the current bytes of
//! the monitored file; all positioning logic — absolute line ranges,
//! end-relative ranges, continue-from-cursor reads and forced rewinds — is
//! verified against a mathematical model of `\n`-delimited lines.

pub mod laws;
pub mod model;
pub mod reader;

pub use reader::LogError;
pub use reader::LogReader;
