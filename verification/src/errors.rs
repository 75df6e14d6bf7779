//! Error taxonomy of the codec. Every failure is fatal: the whole encode or
//! decode aborts and no partial output is usable.

use vstd::prelude::*;

verus! {

#[derive(Clone, Copy, Debug, PartialEq, Eq, Structural)]
pub enum CodecError {
    /// Encode called with a zero-length payload.
    EmptyPayload,
    /// A step's weight would push a plane cell below zero while encoding.
    LaneUnderflow,
    /// A step's weight would push a plane cell above the limit while decoding.
    LaneOverflow,
    /// The container is shorter than the magic tag.
    TooSmall,
    /// The container does not start with the magic tag.
    BadMagic,
    /// The container ends in the middle of a field.
    Truncated,
    /// The container claims dimensions other than 512 x 512.
    BadDims,
    /// The container claims a plane limit other than 2^59.
    LimitMismatch,
    /// A marker entry names a cell outside the 512 x 512 grid.
    BadCellIndex,
    /// Clearing a marker bit that is not set, or whose cell or page is absent.
    MarkerMismatch,
    /// The same step is marked at two different cells.
    StepCollision,
    /// A step in range is marked nowhere.
    StepMissing,
    /// The marker set is not empty after all steps were decoded.
    NotEmpty,
    /// A plane cell is not back at the limit after all steps were decoded.
    NotFull,
}

} // verus!
