//! The ways in which a conversion fails.

use vstd::prelude::*;

verus! {

/// Why a text could not be converted.
#[derive(Clone, Copy, Debug, PartialEq, Eq, Structural)]
pub enum Error {
    /// The line with this number, counted from 1, begins with `<` but not with
    /// the start of a tag: it is neither markup nor paragraph text.
    GrammarError { line: usize },
    /// A raw tag block holds a tag that is never closed: a `<` with no `>` after
    /// it.
    MalformedRawHtml,
}

} // verus!
