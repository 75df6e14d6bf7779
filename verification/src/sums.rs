//! Sums of step weights per cell and lane: the accounting that ties the
//! plane counters to the steps that touched them.

use crate::marks::{marked, MarksView};
use crate::params::{cell_of, lane_of, weight_of};
use vstd::arithmetic::div_mod::{lemma_fundamental_div_mod, lemma_fundamental_div_mod_converse};
use vstd::prelude::*;

verus! {

/// Step `s` of payload `p` touches cell `c` in lane `l`.
pub open spec fn hits(p: Seq<u8>, s: int, c: int, l: int) -> bool {
    1 <= s <= p.len() && cell_of(p, s) == c && lane_of(s) == l
}

/// Sum of the weights of the steps in `1..=s` of `p` that touch `(c, l)`.
pub open spec fn psum(p: Seq<u8>, s: int, c: int, l: int) -> int
    decreases s,
{
    if s <= 0 {
        0
    } else {
        psum(p, s - 1, c, l) + (if hits(p, s, c, l) {
            weight_of(s)
        } else {
            0
        })
    }
}

/// Step `s` is marked at cell `c` and belongs to lane `l`.
pub open spec fn mhits(v: MarksView, s: int, c: int, l: int) -> bool {
    1 <= s && marked(v, c, s) && lane_of(s) == l
}

/// Sum of the weights of the steps in `1..=s` marked at `c` in lane `l`.
pub open spec fn msum(v: MarksView, s: int, c: int, l: int) -> int
    decreases s,
{
    if s <= 0 {
        0
    } else {
        msum(v, s - 1, c, l) + (if mhits(v, s, c, l) {
            weight_of(s)
        } else {
            0
        })
    }
}

pub proof fn lemma_psum_le(p: Seq<u8>, s1: int, s2: int, c: int, l: int)
    requires
        s1 <= s2,
    ensures
        0 <= psum(p, s1, c, l) <= psum(p, s2, c, l),
    decreases s2,
{
    if s2 > 0 && s1 < s2 {
        lemma_psum_le(p, s1, s2 - 1, c, l);
        assert(weight_of(s2) >= 0);
    } else if s2 > 0 {
        lemma_psum_le(p, s1 - 1, s2 - 1, c, l);
        assert(weight_of(s2) >= 0);
    }
}

pub proof fn lemma_msum_le(v: MarksView, s1: int, s2: int, c: int, l: int)
    requires
        s1 <= s2,
    ensures
        0 <= msum(v, s1, c, l) <= msum(v, s2, c, l),
    decreases s2,
{
    if s2 > 0 && s1 < s2 {
        lemma_msum_le(v, s1, s2 - 1, c, l);
        assert(weight_of(s2) >= 0);
    } else if s2 > 0 {
        lemma_msum_le(v, s1 - 1, s2 - 1, c, l);
        assert(weight_of(s2) >= 0);
    }
}

pub proof fn lemma_psum_skip(p: Seq<u8>, a: int, b: int, c: int, l: int)
    requires
        0 <= a <= b,
        forall|t: int| a < t <= b ==> !hits(p, t, c, l),
    ensures
        psum(p, b, c, l) == psum(p, a, c, l),
    decreases b - a,
{
    if a < b {
        lemma_psum_skip(p, a, b - 1, c, l);
    }
}

/// Two steps that touch the same cell are congruent modulo 512, so they lie
/// at least 512 apart.
pub proof fn lemma_hits_spacing(p: Seq<u8>, t: int, s: int, c: int, l: int)
    requires
        hits(p, t, c, l),
        hits(p, s, c, l),
        t < s,
    ensures
        t <= s - 512,
{
    assert(0 <= t % 512 < 512);
    assert(0 <= s % 512 < 512);
    assert((t % 512) * 512 + p[t - 1] == (s % 512) * 512 + p[s - 1]);
    assert(t % 512 == s % 512) by (nonlinear_arith)
        requires
            (t % 512) * 512 + p[t - 1] == (s % 512) * 512 + p[s - 1],
            0 <= t % 512 < 512,
            0 <= s % 512 < 512,
            0 <= p[t - 1] < 512,
            0 <= p[s - 1] < 512,
    ;
    lemma_fundamental_div_mod(t, 512);
    lemma_fundamental_div_mod(s, 512);
    assert(s - t == 512 * (s / 512 - t / 512));
    assert(s - t >= 512) by (nonlinear_arith)
        requires
            s - t == 512 * (s / 512 - t / 512),
            s - t > 0,
    ;
}

/// The total weight a payload can place on one cell and lane: steps touching
/// one cell are spaced 512 apart and each weighs at most `(s + 1) / 2`.
pub proof fn lemma_psum_bound(p: Seq<u8>, s: int, c: int, l: int)
    requires
        0 <= s,
    ensures
        1024 * psum(p, s, c, l) <= (s + 512) * (s + 2),
    decreases s,
{
    if s <= 0 {
        assert(1024 * psum(p, s, c, l) <= (s + 512) * (s + 2)) by (nonlinear_arith)
            requires
                psum(p, s, c, l) == 0,
                s == 0,
        ;
    } else if hits(p, s, c, l) {
        let a = if s - 512 >= 0 {
            s - 512
        } else {
            0
        };
        assert forall|t: int| a < t <= s - 1 implies !hits(p, t, c, l) by {
            if hits(p, t, c, l) {
                lemma_hits_spacing(p, t, s, c, l);
            }
        }
        lemma_psum_skip(p, a, s - 1, c, l);
        lemma_psum_bound(p, a, c, l);
        assert(2 * weight_of(s) <= s + 1);
        if s - 512 >= 0 {
            assert(1024 * psum(p, s, c, l) <= (s + 512) * (s + 2)) by (nonlinear_arith)
                requires
                    psum(p, s, c, l) == psum(p, s - 512, c, l) + weight_of(s),
                    1024 * psum(p, s - 512, c, l) <= (s) * (s - 510),
                    2 * weight_of(s) <= s + 1,
                    s >= 512,
            ;
        } else {
            assert(1024 * psum(p, s, c, l) <= (s + 512) * (s + 2)) by (nonlinear_arith)
                requires
                    psum(p, s, c, l) == 0 + weight_of(s),
                    2 * weight_of(s) <= s + 1,
                    1 <= s,
            ;
        }
    } else {
        lemma_psum_bound(p, s - 1, c, l);
        lemma_psum_le(p, 0, s - 1, c, l);
        assert(1024 * psum(p, s, c, l) <= (s + 512) * (s + 2)) by (nonlinear_arith)
            requires
                psum(p, s, c, l) == psum(p, s - 1, c, l),
                1024 * psum(p, s - 1, c, l) <= (s + 511) * (s + 1),
                psum(p, s - 1, c, l) >= 0,
                s >= 1,
            ;
    }
}

/// Where the marks of `v` at cell `c` agree with the steps of `p` that touch
/// `c`, the marked sum equals the payload sum.
pub proof fn lemma_msum_eq_psum(v: MarksView, p: Seq<u8>, s: int, c: int, l: int)
    requires
        forall|t: int|
            1 <= t <= s ==> (#[trigger] marked(v, c, t) <==> (t <= p.len() && cell_of(p, t) == c)),
    ensures
        msum(v, s, c, l) == psum(p, s, c, l),
    decreases s,
{
    if s > 0 {
        lemma_msum_eq_psum(v, p, s - 1, c, l);
    }
}

/// The cell a step writes determines the step's residue and the payload byte.
pub proof fn lemma_cell_decomp(p: Seq<u8>, s: int)
    requires
        1 <= s <= p.len(),
    ensures
        cell_of(p, s) / 512 == s % 512,
        cell_of(p, s) % 512 == p[s - 1],
        0 <= cell_of(p, s) < 262144,
{
    assert(0 <= s % 512 < 512);
    lemma_fundamental_div_mod_converse(cell_of(p, s), 512, s % 512, p[s - 1] as int);
    assert((s % 512) * 512 + p[s - 1] < 262144) by (nonlinear_arith)
        requires
            0 <= s % 512 < 512,
            0 <= p[s - 1] < 512,
    ;
    assert(0 <= (s % 512) * 512) by (nonlinear_arith)
        requires
            0 <= s % 512,
    ;
}

} // verus!
