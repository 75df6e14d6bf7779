//! Fixed canvas parameters, the step-to-cell geometry and the lane/weight
//! assignment shared by the encoder and the decoder.

use vstd::prelude::*;

verus! {

/// Canvas width in cells; never configurable.
pub const W: u32 = 512;

/// Canvas height in cells; never configurable.
pub const H: u32 = 512;

/// Total number of cells, `W * H`.
pub const PIXELS: usize = 262144;

/// Ceiling value of every plane counter: `2^59`.
pub const RG_LIMIT_EXACT: u64 = 1u64 << 59;

/// Largest payload length the container can carry: `512 * 65534` bytes.
/// The per-cell page count is stored in a 16-bit field, and a payload of
/// `n` bytes can put up to `n / 512 + 1` marker pages into one cell.
pub const MAX_PAYLOAD: usize = 33553408;

/// Lane of a step: odd steps belong to lane R (0), even steps to lane G (1).
pub open spec fn lane_of(s: int) -> int {
    if s % 2 == 1 {
        0
    } else {
        1
    }
}

/// Weight of a step: its 1-based position within its own lane's subsequence.
pub open spec fn weight_of(s: int) -> int {
    if s % 2 == 1 {
        (s + 1) / 2
    } else {
        s / 2
    }
}

/// Cell touched by step `s` of payload `p`: x is the payload byte, y is
/// `s % 512`, and the linear index is `y * 512 + x`.
pub open spec fn cell_of(p: Seq<u8>, s: int) -> int {
    (s % 512) * 512 + p[s - 1]
}

/// Lane and weight of a step, as the pair `(lane, k)` with lane 0 = R, 1 = G.
pub fn lane_k(step: u32) -> (r: (u8, u64))
    ensures
        r.0 as int == lane_of(step as int),
        r.1 as int == weight_of(step as int),
{
    if step % 2 == 1 {
        (0u8, (step / 2 + 1) as u64)
    } else {
        (1u8, (step / 2) as u64)
    }
}

/// Linear cell index of grid position `(x, y)`.
pub fn pidx_of(x: u32, y: u32) -> (r: u32)
    requires
        x < 512,
        y < 512,
    ensures
        r == y * 512 + x,
        r < PIXELS as u32,
{
    y * 512 + x
}

} // verus!
