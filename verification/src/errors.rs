//! The error taxonomy of the library.  Record-level parse failures are
//! recoverable (the caller skips the record); file-level failures abort a
//! load or a write-back.
use vstd::prelude::*;

verus! {

/// Everything that can go wrong while loading, parsing or writing a history.
#[derive(Debug)]
pub enum HistoryError {
    /// A logical record did not match the history-line grammar.  Carries the
    /// offending record text.
    EntryMatchingError(String),
    /// A digit field of a record does not fit in an unsigned 64-bit integer.
    /// Carries the offending digit run.
    ParseIntError(String),
    /// A file could not be opened, created or copied.  Carries the path and
    /// the underlying cause.
    IoError(String, String),
    /// A physical line was not valid text after undoing the metafication.
    /// Carries the 1-based line number (in decimal) and a description.
    LineEncodingError(String, String),
    /// The backup copy could not be written; the destructive rewrite must
    /// not proceed.  Carries the backup path and the underlying cause.
    BackUpError(String, String),
}

} // verus!
