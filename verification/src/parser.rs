//! The error a scanner reports and the bare state of a character cursor.
use vstd::prelude::*;

verus! {

/// A cursor over the characters of a text.
pub struct Scanner {
    cursor: usize,
    characters: Vec<char>,
}

/// Why a lookahead of the scanner failed.
#[derive(Debug, Clone, Copy, PartialEq, Eq, Structural)]
pub enum Error {
    /// The text ran out, or did not go on as expected, before a match was complete.
    EndOfLine,
}

} // verus!
