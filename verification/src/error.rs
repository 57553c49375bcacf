//! The closed set of errors a sheet operation can report.

use vstd::prelude::*;
use crate::utils::IVec2;

verus! {

/// An error returned by a sheet operation.  Every failure carries the
/// diagnostic payload (bounds, sizes, counts) that identifies it.
#[derive(Debug)]
#[allow(inconsistent_fields)]
pub enum Error {
    /// The specified coordinates are out of bounds.
    OutOfBounds {
        /// The dimensions of the sheet that was addressed.
        max: IVec2,
        /// The coordinates that were requested.
        provided: IVec2,
    },
    /// Attempted to mix sprites of different pixel sizes in one sheet.
    MismatchedSpriteSize {
        /// The size every sprite must have, fixed by the first one seen.
        required: IVec2,
        /// The first size found to differ from the required one.
        provided: IVec2,
    },
    /// Attempted to build an unordered sprite sheet with no sprites; at
    /// least one sprite is needed to determine the cell size.
    EmptyUnorderedSpriteSheet,
    /// Attempted to concatenate an empty list of unordered sprite sheets.
    EmptyIterator,
    /// Attempted to push one or more sprites into a full sheet.
    SheetFull {
        /// How many of the sprites could still be placed before the sheet
        /// ran out of empty cells.
        amount_fitted: usize,
    },
    /// An index or range bound exceeds the length of the flat collection.
    IndexOutOfRange {
        /// The offending index.
        index: usize,
        /// The length it was checked against.
        max: usize,
    },
    /// A failure reported by the image codec of the surrounding application,
    /// passed through opaquely as a message.
    ImageError(String),
}

} // verus!
