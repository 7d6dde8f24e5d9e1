//! Extraction of a page-addressable index from a presentation container.
//!
//! The library classifies container entries by their internal path, pulls
//! text runs out of slide markup, resolves image relationship identifiers
//! to media filenames, and merges the per-entry results into one
//! `DocumentIndex` keyed by page number.

pub mod index;
pub mod pages;
pub mod rels;
pub mod strs;
pub mod textrun;

use vstd::prelude::*;
use vstd::string::StringExecFns;

verus! {

/// Failures that a single container entry can produce. None of them is meant
/// to abort a whole run: the caller logs the message and moves on.
#[derive(Debug)]
pub enum ExtractError {
    /// The entry's path carries no page number that fits a `u32`.
    MissingPageNumber,
    /// A relationship document is not well-formed XML; carries the entry's
    /// path and the parser's description of the malformation.
    Parse { path: String, detail: String },
}

/// The diagnostic text of an error.
pub open spec fn error_message(e: ExtractError) -> Seq<char> {
    match e {
        ExtractError::MissingPageNumber => "Can't find valid page no"@,
        ExtractError::Parse { path, detail } => "Parse error: "@ + detail@ + " in "@ + path@,
    }
}

impl ExtractError {
    /// The diagnostic text of this error.
    pub fn message(&self) -> (r: String)
        ensures
            r@ == error_message(*self),
    {
        match self {
            ExtractError::MissingPageNumber => String::from_str("Can't find valid page no"),
            ExtractError::Parse { path, detail } => {
                let mut m = String::from_str("Parse error: ");
                m.append(detail.as_str());
                m.append(" in ");
                m.append(path.as_str());
                m
            },
        }
    }
}

} // verus!
