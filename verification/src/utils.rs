//! Small shared value types: sizes in pixels or cells, and index ranges with
//! optional bounds.

use vstd::prelude::*;

verus! {

/// A pair of non-negative integers, used both for pixel dimensions
/// (width, height) and for grid dimensions (columns, lines).
#[derive(Default, Debug, Clone, Copy, PartialEq, Eq, Structural)]
pub struct IVec2 {
    /// Horizontal component: a width, or a number of columns.
    pub x: usize,
    /// Vertical component: a height, or a number of lines.
    pub y: usize,
}

impl IVec2 {
    /// Builds the pair `(x, y)`.
    pub fn new(x: usize, y: usize) -> (r: Self)
        ensures
            r.x == x,
            r.y == y,
    {
        Self { x, y }
    }
}

/// A half-open index range whose upper bound may be omitted; an omitted
/// bound stands for the length of the collection the range is applied to.
#[derive(Debug, Clone, Copy)]
pub struct UnboundRange {
    /// The inclusive lower bound.
    pub start: usize,
    /// The exclusive upper bound, or `None` for "up to the end".
    pub end: Option<usize>,
}

impl UnboundRange {
    /// The effective exclusive upper bound once the target length is known.
    pub open spec fn spec_end(self, upper_bound: int) -> int {
        match self.end {
            Some(e) => e as int,
            None => upper_bound,
        }
    }

    /// Resolves the range against a collection of length `upper_bound`,
    /// substituting `upper_bound` for an omitted upper bound.
    pub fn into_range(self, upper_bound: usize) -> (r: core::ops::Range<usize>)
        ensures
            r.start == self.start,
            r.end == self.spec_end(upper_bound as int),
    {
        let end = match self.end {
            Some(e) => e,
            None => upper_bound,
        };
        self.start..end
    }
}

} // verus!
