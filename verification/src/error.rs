//! Build-time failure taxonomy. A lookup miss is not an error: the lookup
//! functions return `None` for an unknown key.

use vstd::prelude::*;

verus! {

/// A source text could not be read into records: the first malformed row,
/// identified by its 1-based row number within the source.
#[derive(Debug)]
pub struct ParseError {
    pub row: usize,
}

/// A failure of the build pipeline. Every variant is fatal: no partial
/// dataset is ever produced.
#[derive(Debug)]
pub enum DataError {
    /// A source could not be fetched or opened, identified by name.
    SourceUnavailable { source: String },
    /// A row of a source could not be parsed into a record, identified by
    /// source name and 1-based row number.
    MalformedRecord { source: String, row: usize },
    /// The embedded binary payload does not decode to a record sequence.
    DecodeFailure,
}

} // verus!
