//! The span of an expression in the text it was read from.

use vstd::prelude::*;
use crate::scan::context::ScanPosition;

verus! {

/// Where an expression starts and ends in its source: `start` is the
/// position of its first character, `end` the position after its last.
#[derive(Debug, Clone, Copy, PartialEq, Eq, Structural)]
pub struct ParsePosition {
    pub start: ScanPosition,
    pub end: ScanPosition,
}

impl ParsePosition {
    /// The span from `start` to `end`.
    pub open spec fn span(start: ScanPosition, end: ScanPosition) -> ParsePosition {
        ParsePosition { start, end }
    }

    /// The span from `start` to `end`.
    pub fn new(start: &ScanPosition, end: &ScanPosition) -> (position: ParsePosition)
        ensures
            position == ParsePosition::span(*start, *end),
    {
        ParsePosition { start: *start, end: *end }
    }
}

impl Default for ParsePosition {
    /// The empty span at the start of a text.
    fn default() -> (position: ParsePosition)
        ensures
            position == ParsePosition::span(ScanPosition::origin(), ScanPosition::origin()),
    {
        ParsePosition { start: ScanPosition::default(), end: ScanPosition::default() }
    }
}

} // verus!
