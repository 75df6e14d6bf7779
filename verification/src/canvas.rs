//! The dual-plane canvas: two equal-length arrays of 64-bit counters, one
//! per cell, for the R and G lanes.

use crate::params::{PIXELS, RG_LIMIT_EXACT};
use vstd::prelude::*;

verus! {

#[derive(Clone, Debug)]
pub struct RGCanvas {
    pub r: Vec<u64>,
    pub g: Vec<u64>,
}

impl RGCanvas {
    /// Fresh canvas with every cell of both lanes at the limit (`full`) or
    /// at zero.
    pub fn new(full: bool) -> (c: RGCanvas)
        ensures
            c.r@.len() == PIXELS,
            c.g@.len() == PIXELS,
            forall|i: int|
                0 <= i < PIXELS ==> c.r@[i] == (if full {
                    RG_LIMIT_EXACT
                } else {
                    0u64
                }),
            forall|i: int|
                0 <= i < PIXELS ==> c.g@[i] == (if full {
                    RG_LIMIT_EXACT
                } else {
                    0u64
                }),
    {
        let init: u64 = if full {
            RG_LIMIT_EXACT
        } else {
            0
        };
        RGCanvas { r: filled(init), g: filled(init) }
    }
}

/// A vector of `PIXELS` copies of `val`.
fn filled(val: u64) -> (r: Vec<u64>)
    ensures
        r@.len() == PIXELS,
        forall|i: int| 0 <= i < PIXELS ==> r@[i] == val,
{
    let mut v: Vec<u64> = Vec::new();
    let mut i: usize = 0;
    while i < PIXELS
        invariant
            i <= PIXELS,
            v@.len() == i,
            forall|k: int| 0 <= k < i ==> v@[k] == val,
        decreases PIXELS - i,
    {
        v.push(val);
        i = i + 1;
    }
    v
}

} // verus!
