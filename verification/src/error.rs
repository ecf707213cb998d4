//! The error that metadata extraction reports.
use vstd::prelude::*;

verus! {

/// A search failed; the message is the regex engine's.
#[derive(Debug)]
pub enum ParseError {
    Regex(String),
}

} // verus!
