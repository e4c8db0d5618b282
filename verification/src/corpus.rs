//! A query and what the compiler must do with it.
use vstd::prelude::*;

use crate::diag::Code;

verus! {

/// What the compiler must do with an entry.
#[derive(Debug, Clone, Copy, PartialEq, Eq)]
pub enum Expectation {
    /// Parses, produces a plan, and running it returns exactly these rows: a rendering,
    /// joined by `"; "`, and empty for no rows.
    Supported(&'static str),
    /// Parses, then draws exactly this code. The code and not the wording, so that a
    /// report can be reworded.
    Diagnosed(Code),
    /// Not focus; a parse error is right.
    ParseError,
}

/// One query, what must come of it, and why it is here.
#[derive(Debug, Clone, Copy)]
pub struct Entry {
    pub source: &'static str,
    pub expect: Expectation,
    pub note: &'static str,
}

/// One entry.
pub fn entry(source: &'static str, expect: Expectation, note: &'static str) -> (made: Entry)
    ensures
        made == (Entry { source, expect, note }),
{
    Entry { source, expect, note }
}

} // verus!
