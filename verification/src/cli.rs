//! The command-line query: a target string, and a mode flag selecting which
//! direction to resolve.

use vstd::prelude::*;

verus! {

/// One query against the lookup service.
pub struct Cli {
    /// Either the full name or the abbreviation of a journal.
    pub input: String,
    /// When set, the input is a full name and the query asks for its
    /// abbreviation; otherwise the input is an abbreviation and the query
    /// asks for the full name.
    pub abbreviation: bool,
}

} // verus!
