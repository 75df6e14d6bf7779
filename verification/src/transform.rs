//! The encoder ("erase") and decoder ("fill"): one linear pass over the
//! steps in descending order, with the proof that filling inverts erasing.

use crate::canvas::RGCanvas;
use crate::codec::{raw_pack, raw_unpack};
use crate::errors::CodecError;
use crate::index::{
    build_step_index_from_a, covered, has_collision, index_ok, step_has_cell,
};
use crate::markers::ABitset;
use crate::marks::{
    has_empty_cell, has_zero_page, lemma_db_clear_effect, lemma_low_bit, lemma_pages_count,
    lemma_tidy_nonempty, low_bit, marked, page_step_witness, tidy_marks, wf_marks, MarksView,
};
use crate::params::{cell_of, lane_k, pidx_of, weight_of, MAX_PAYLOAD, PIXELS, RG_LIMIT_EXACT};
use crate::sums::{
    lemma_cell_decomp, lemma_msum_eq_psum, lemma_msum_le, lemma_psum_bound, lemma_psum_le, mhits,
    msum, psum,
};
use crate::wire::{lemma_parse_pack, pack_bytes, parse_raw};
use vstd::arithmetic::div_mod::{
    lemma_div_is_ordered, lemma_fundamental_div_mod, lemma_fundamental_div_mod_converse,
};
use vstd::prelude::*;

verus! {

/// The marks an encode of payload `p` leaves: step `s` is marked exactly at
/// the cell that `s` touches.
pub open spec fn enc_marks_ok(v: MarksView, p: Seq<u8>, n: int) -> bool {
    forall|c: int, s: int|
        0 <= s ==> (#[trigger] marked(v, c, s) <==> (1 <= s <= n && c == cell_of(p, s)))
}

/// The planes an encode of `p` leaves: the limit minus the weight the
/// payload placed on each cell and lane.
pub open spec fn enc_planes_ok(rr: Seq<u64>, gg: Seq<u64>, p: Seq<u8>, n: int) -> bool {
    &&& rr.len() == PIXELS
    &&& gg.len() == PIXELS
    &&& forall|c: int|
        0 <= c < PIXELS ==> (#[trigger] rr[c]) as int == RG_LIMIT_EXACT - psum(p, n, c, 0)
    &&& forall|c: int|
        0 <= c < PIXELS ==> (#[trigger] gg[c]) as int == RG_LIMIT_EXACT - psum(p, n, c, 1)
}

/// Everything encoding a payload `p` of length `n` promises of the canvas
/// and marker set behind the container it returns.
pub open spec fn enc_state_ok(rr: Seq<u64>, gg: Seq<u64>, v: MarksView, p: Seq<u8>, n: int) -> bool {
    &&& wf_marks(v)
    &&& tidy_marks(v)
    &&& enc_marks_ok(v, p, n)
    &&& enc_planes_ok(rr, gg, p, n)
    &&& forall|i: int| 0 <= i < v.len() ==> (#[trigger] v[i]).1.len() <= 0xffff
}

/// No mark lies outside the steps `1..=n`.
pub open spec fn marks_bounded(v: MarksView, n: int) -> bool {
    forall|c: int, s: int| 0 <= s && #[trigger] marked(v, c, s) ==> 1 <= s <= n
}

/// The planes agree with the marks: adding back every marked step's weight
/// returns every cell of both lanes to the limit.
pub open spec fn fill_ok(rr: Seq<u64>, gg: Seq<u64>, v: MarksView, n: int) -> bool {
    &&& forall|c: int|
        0 <= c < PIXELS ==> (#[trigger] rr[c]) as int + msum(v, n, c, 0) == RG_LIMIT_EXACT
    &&& forall|c: int|
        0 <= c < PIXELS ==> (#[trigger] gg[c]) as int + msum(v, n, c, 1) == RG_LIMIT_EXACT
}

/// A container decodes successfully iff it parses, every step in range is
/// marked at exactly one cell, the marker set carries nothing else, and the
/// planes agree with the marks.
pub open spec fn decode_ok(raw: Seq<u8>) -> bool {
    match parse_raw(raw) {
        Option::None => false,
        Option::Some((rr, gg, v, n)) => {
            &&& index_ok(v, n as int)
            &&& tidy_marks(v)
            &&& marks_bounded(v, n as int)
            &&& fill_ok(rr, gg, v, n as int)
        },
    }
}

/// The one cell at which step `s` is marked.
pub open spec fn the_cell(v: MarksView, s: int) -> int {
    choose|c: int| marked(v, c, s)
}

/// The payload a successful decode recovers: per step, the low eight bits
/// of its cell index.
pub open spec fn decode_payload(raw: Seq<u8>) -> Seq<u8> {
    match parse_raw(raw) {
        Option::None => Seq::empty(),
        Option::Some((rr, gg, v, n)) => Seq::new(
            n as nat,
            |i: int| (the_cell(v, i + 1) % 256) as u8,
        ),
    }
}

/// Encode ("erase"): start from a full canvas, and for each step from `n`
/// down to 1 mark the step's cell and subtract the step's weight from its
/// lane. Rejects only the empty payload; the container bytes are exactly
/// the packing of the final canvas and marker set.
pub fn encode_erase(payload: &Vec<u8>) -> (r: Result<Vec<u8>, CodecError>)
    requires
        payload@.len() <= MAX_PAYLOAD,
    ensures
        payload@.len() == 0 ==> r == Err::<Vec<u8>, CodecError>(CodecError::EmptyPayload),
        payload@.len() >= 1 ==> r.is_ok() && exists|rr: Seq<u64>, gg: Seq<u64>, vv: MarksView|
            r->Ok_0@ == pack_bytes(rr, gg, vv, payload@.len() as u32) && #[trigger] enc_state_ok(
                rr,
                gg,
                vv,
                payload@,
                payload@.len() as int,
            ),
{
    let n_usize: usize = payload.len();
    if n_usize == 0 {
        return Err(CodecError::EmptyPayload);
    }
    let n: u32 = n_usize as u32;
    let ghost p: Seq<u8> = payload@;
    let mut rg = RGCanvas::new(true);
    let mut a = ABitset::new();
    let mut step: u32 = n;
    proof {
        assert forall|c: int, s: int| 0 <= s implies !marked(a@, c, s) by {}
    }
    while step >= 1
        invariant
            step <= n,
            n as int == p.len(),
            1 <= p.len() <= MAX_PAYLOAD,
            p == payload@,
            rg.r@.len() == PIXELS,
            rg.g@.len() == PIXELS,
            wf_marks(a@),
            tidy_marks(a@),
            forall|c: int, s: int|
                0 <= s ==> (#[trigger] marked(a@, c, s) <==> (step < s <= n && c == cell_of(p, s))),
            forall|c: int|
                0 <= c < PIXELS ==> (#[trigger] rg.r@[c]) as int == RG_LIMIT_EXACT - (psum(
                    p,
                    n as int,
                    c,
                    0,
                ) - psum(p, step as int, c, 0)),
            forall|c: int|
                0 <= c < PIXELS ==> (#[trigger] rg.g@[c]) as int == RG_LIMIT_EXACT - (psum(
                    p,
                    n as int,
                    c,
                    1,
                ) - psum(p, step as int, c, 1)),
        decreases step,
    {
        let s: u32 = step;
        let x: u32 = payload[(s - 1) as usize] as u32;
        let y: u32 = s % 512;
        let pidx: u32 = pidx_of(x, y);
        let ghost cell: int = pidx as int;
        proof {
            lemma_cell_decomp(p, s as int);
            assert(cell_of(p, s as int) == cell);
        }
        a.set_step(pidx, s);
        let (lane, k) = lane_k(s);
        let ghost l: int = lane as int;
        proof {
            assert(crate::sums::hits(p, s as int, cell, l));
            assert(psum(p, s as int, cell, l) == psum(p, s as int - 1, cell, l) + weight_of(
                s as int,
            ));
            lemma_psum_bound(p, n as int, cell, l);
            lemma_psum_le(p, s as int - 1, n as int, cell, l);
            lemma_psum_le(p, s as int, n as int, cell, l);
            lemma_psum_le(p, 0, s as int - 1, cell, l);
            assert(1u64 << 59 == 0x800000000000000u64) by (bit_vector);
            assert((n as int + 512) * (n as int + 2) < 1024 * (RG_LIMIT_EXACT as int))
                by (nonlinear_arith)
                requires
                    n as int <= 33553408,
                    RG_LIMIT_EXACT == 0x800000000000000u64,
            ;
        }
        if lane == 0 {
            let v = rg.r[pidx as usize];
            proof {
                assert(v as int >= weight_of(s as int));
            }
            if v < k {
                return Err(CodecError::LaneUnderflow);
            }
            rg.r[pidx as usize] = v - k;
        } else {
            let v = rg.g[pidx as usize];
            proof {
                assert(v as int >= weight_of(s as int));
            }
            if v < k {
                return Err(CodecError::LaneUnderflow);
            }
            rg.g[pidx as usize] = v - k;
        }
        proof {
            assert forall|c: int, s2: int|
                0 <= s2 implies (#[trigger] marked(a@, c, s2) <==> (step - 1 < s2 <= n && c
                == cell_of(p, s2))) by {}
            assert forall|c: int|
                0 <= c < PIXELS implies (#[trigger] rg.r@[c]) as int == RG_LIMIT_EXACT - (psum(
                p,
                n as int,
                c,
                0,
            ) - psum(p, step as int - 1, c, 0)) by {
                if !(crate::sums::hits(p, s as int, c, 0)) {
                    assert(psum(p, s as int, c, 0) == psum(p, s as int - 1, c, 0));
                }
            }
            assert forall|c: int|
                0 <= c < PIXELS implies (#[trigger] rg.g@[c]) as int == RG_LIMIT_EXACT - (psum(
                p,
                n as int,
                c,
                1,
            ) - psum(p, step as int - 1, c, 1)) by {
                if !(crate::sums::hits(p, s as int, c, 1)) {
                    assert(psum(p, s as int, c, 1) == psum(p, s as int - 1, c, 1));
                }
            }
        }
        step = step - 1;
    }
    proof {
        assert forall|c: int, s: int|
            0 <= s implies (#[trigger] marked(a@, c, s) <==> (1 <= s <= n && c == cell_of(p, s))) by {}
        assert forall|i: int| 0 <= i < a@.len() implies (#[trigger] a@[i]).1.len() <= 0xffff by {
            let v = a@;
            let c = v[i].0;
            let y2 = c / 512;
            assert forall|j: int| 0 <= j < v[i].1.len() implies #[trigger] page_step_witness(
                v[i].1,
                n as int,
                y2,
                j,
            ) by {
                let m = v[i].1[j].1;
                assert(m != 0);
                assert(m >> 0u64 != 0) by (bit_vector)
                    requires
                        m != 0,
                ;
                lemma_low_bit(m, 0);
                let b = low_bit(m, 0);
                let pg = v[i].1[j].0;
                let t = 64 * pg + b;
                lemma_fundamental_div_mod_converse(t, 64, pg, b as int);
                assert(crate::marks::pg_has(v[i].1, t));
                assert(marked(v, c, t));
                assert(1 <= t <= n && c == cell_of(p, t));
                lemma_cell_decomp(p, t);
                assert(t % 512 == c / 512);
                assert(0 <= y2 < 512) by {
                    lemma_div_is_ordered(c, 262143, 512);
                    lemma_div_is_ordered(0, c, 512);
                }
                assert(y2 % 512 == y2) by {
                    lemma_fundamental_div_mod_converse(y2, 512, 0, y2);
                }
                assert(1 <= t <= n && t % 512 == y2 % 512 && v[i].1[j].0 == t / 64);
            }
            lemma_pages_count(a@[i].1, n as int, y2);
            assert(n as int / 512 + 1 <= 0xffff) by {
                lemma_div_is_ordered(n as int, 33553408, 512);
            }
        }
    }
    let out = raw_pack(&rg, &a, n);
    proof {
        assert(psum(p, 0, 0, 0) == 0);
        assert(enc_state_ok(rg.r@, rg.g@, a@, p, n as int));
        assert(out@ == pack_bytes(rg.r@, rg.g@, a@, n));
    }
    Ok(out)
}

/// Decode ("fill"): unpack, rebuild the step index by one scan of the
/// marker set, then for each step from `n` down to 1 recover the payload
/// byte from the step's cell, clear the mark and add the weight back.
/// Succeeds iff the container is coherent: it parses, every step in range
/// is marked at exactly one cell, no other mark or dead entry exists, and
/// both planes return exactly to the limit.
pub fn decode_fill(raw: &Vec<u8>) -> (r: Result<Vec<u8>, CodecError>)
    ensures
        r.is_ok() <==> decode_ok(raw@),
        r.is_ok() ==> r->Ok_0@ == decode_payload(raw@),
        raw@.len() < 4 ==> r == Err::<Vec<u8>, CodecError>(CodecError::TooSmall),
        raw@.len() >= 4 && raw@.subrange(0, 4) != crate::wire::magic_seq() ==> r == Err::<
            Vec<u8>,
            CodecError,
        >(CodecError::BadMagic),
        raw@.len() >= 4 && raw@.subrange(0, 4) == crate::wire::magic_seq() && raw@.len() < 24 ==> r
            == Err::<Vec<u8>, CodecError>(CodecError::Truncated),
        raw@.len() >= 24 && raw@.subrange(0, 4) == crate::wire::magic_seq() && (
        crate::bytes::le32_at(raw@, 4) != 512 || crate::bytes::le32_at(raw@, 8) != 512) ==> r
            == Err::<Vec<u8>, CodecError>(CodecError::BadDims),
        raw@.len() >= 24 && raw@.subrange(0, 4) == crate::wire::magic_seq() && crate::bytes::le32_at(
            raw@,
            4,
        ) == 512 && crate::bytes::le32_at(raw@, 8) == 512 && crate::bytes::le64_at(raw@, 16)
            != RG_LIMIT_EXACT ==> r == Err::<Vec<u8>, CodecError>(CodecError::LimitMismatch),
        (match parse_raw(raw@) {
            Option::None => false,
            Option::Some((rr, gg, v, n)) => has_collision(v, n as int),
        }) ==> r == Err::<Vec<u8>, CodecError>(CodecError::StepCollision),
        (match parse_raw(raw@) {
            Option::None => false,
            Option::Some((rr, gg, v, n)) => !has_collision(v, n as int) && !covered(v, n as int),
        }) ==> r == Err::<Vec<u8>, CodecError>(CodecError::StepMissing),
{
    let (mut rg, mut a, n) = match raw_unpack(raw) {
        Ok(t) => t,
        Err(e) => {
            return Err(e);
        },
    };
    let ghost rr0: Seq<u64> = rg.r@;
    let ghost gg0: Seq<u64> = rg.g@;
    let ghost v0: MarksView = a@;
    proof {
        crate::wire::lemma_parse_some_gates(raw@);
    }
    let idx = match build_step_index_from_a(&a, n) {
        Ok(v) => v,
        Err(e) => {
            return Err(e);
        },
    };
    let mut out: Vec<u8> = filled_u8(n as usize, 0);
    let mut step: u32 = n;
    while step >= 1
        invariant
            step <= n,
            parse_raw(raw@) == Some((rr0, gg0, v0, n)),
            raw@.len() >= 24 + 16 * 262144 + 4,
            raw@.subrange(0, 4) == crate::wire::magic_seq(),
            crate::bytes::le32_at(raw@, 4) == 512,
            crate::bytes::le32_at(raw@, 8) == 512,
            crate::bytes::le64_at(raw@, 16) == RG_LIMIT_EXACT,
            out@.len() == n as int,
            rg.r@.len() == PIXELS,
            rg.g@.len() == PIXELS,
            wf_marks(v0),
            wf_marks(a@),
            idx@.len() == n as int + 1,
            index_ok(v0, n as int),
            forall|s: int| 1 <= s <= n ==> marked(v0, idx@[s] as int, s),
            forall|c: int, s: int|
                1 <= s <= n && #[trigger] marked(v0, c, s) ==> c == idx@[s] as int,
            forall|c: int, s: int|
                0 <= s ==> (#[trigger] marked(a@, c, s) <==> (marked(v0, c, s) && !(step < s
                    <= n))),
            tidy_marks(v0) ==> tidy_marks(a@),
            has_zero_page(v0) ==> has_zero_page(a@),
            has_empty_cell(v0) ==> has_empty_cell(a@),
            forall|c: int|
                0 <= c < PIXELS ==> (#[trigger] rg.r@[c]) as int == rr0[c] + (msum(
                    v0,
                    n as int,
                    c,
                    0,
                ) - msum(v0, step as int, c, 0)),
            forall|c: int|
                0 <= c < PIXELS ==> (#[trigger] rg.g@[c]) as int == gg0[c] + (msum(
                    v0,
                    n as int,
                    c,
                    1,
                ) - msum(v0, step as int, c, 1)),
            forall|i: int| step <= i < n ==> (#[trigger] out@[i]) == (idx@[i + 1] as int % 256) as u8,
        decreases step,
    {
        let s: u32 = step;
        let pidx_u32: u32 = idx[s as usize];
        let ghost cell: int = pidx_u32 as int;
        proof {
            assert(marked(v0, cell, s as int));
            let iw = choose|i: int|
                0 <= i < v0.len() && (#[trigger] v0[i]).0 == cell && crate::marks::pg_has(
                    v0[i].1,
                    s as int,
                );
            assert(0 <= cell < PIXELS as int);
            assert(marked(a@, cell, s as int));
        }
        let x: u8 = (pidx_u32 % 256) as u8;
        out[(s - 1) as usize] = x;
        let ghost a_pre: MarksView = a@;
        let res = a.clear_step(pidx_u32, s);
        if res.is_err() {
            proof {
                assert(false);
            }
            return Err(CodecError::MarkerMismatch);
        }
        proof {
            lemma_db_clear_effect(a_pre, cell, s as int);
        }
        let (lane, k) = lane_k(s);
        let ghost l: int = lane as int;
        proof {
            assert(mhits(v0, s as int, cell, l));
            assert(msum(v0, s as int, cell, l) == msum(v0, s as int - 1, cell, l) + weight_of(
                s as int,
            ));
            lemma_msum_le(v0, 0, s as int - 1, cell, l);
            lemma_msum_le(v0, s as int, n as int, cell, l);
            assert(1u64 << 59 == 0x800000000000000u64) by (bit_vector);
            assert(weight_of(s as int) <= 0x80000000);
        }
        if lane == 0 {
            let v = rg.r[pidx_u32 as usize];
            if v > RG_LIMIT_EXACT - k {
                proof {
                    if decode_ok(raw@) {
                        assert(rr0[cell] as int + msum(v0, n as int, cell, 0) == RG_LIMIT_EXACT);
                        assert(v as int + k as int == RG_LIMIT_EXACT - msum(
                            v0,
                            s as int - 1,
                            cell,
                            0,
                        ));
                        assert(false);
                    }
                }
                return Err(CodecError::LaneOverflow);
            }
            rg.r[pidx_u32 as usize] = v + k;
        } else {
            let v = rg.g[pidx_u32 as usize];
            if v > RG_LIMIT_EXACT - k {
                proof {
                    if decode_ok(raw@) {
                        assert(gg0[cell] as int + msum(v0, n as int, cell, 1) == RG_LIMIT_EXACT);
                        assert(v as int + k as int == RG_LIMIT_EXACT - msum(
                            v0,
                            s as int - 1,
                            cell,
                            1,
                        ));
                        assert(false);
                    }
                }
                return Err(CodecError::LaneOverflow);
            }
            rg.g[pidx_u32 as usize] = v + k;
        }
        proof {
            assert forall|c: int, s2: int|
                0 <= s2 implies (#[trigger] marked(a@, c, s2) <==> (marked(v0, c, s2) && !(step - 1
                < s2 <= n))) by {
                assert(a@ == crate::marks::db_clear(a_pre, cell, s as int));
                assert(marked(a@, c, s2) <==> (marked(a_pre, c, s2) && !(c == cell && s2
                    == s as int)));
                assert(marked(a_pre, c, s2) <==> (marked(v0, c, s2) && !(step < s2 <= n)));
                if s2 == s as int && marked(v0, c, s2) {
                    assert(c == idx@[s2] as int);
                }
            }
            assert forall|c: int|
                0 <= c < PIXELS implies (#[trigger] rg.r@[c]) as int == rr0[c] + (msum(
                v0,
                n as int,
                c,
                0,
            ) - msum(v0, step as int - 1, c, 0)) by {
                if !mhits(v0, s as int, c, 0) {
                    assert(msum(v0, s as int, c, 0) == msum(v0, s as int - 1, c, 0));
                } else {
                    assert(marked(v0, c, s as int));
                    assert(c == cell);
                }
            }
            assert forall|c: int|
                0 <= c < PIXELS implies (#[trigger] rg.g@[c]) as int == gg0[c] + (msum(
                v0,
                n as int,
                c,
                1,
            ) - msum(v0, step as int - 1, c, 1)) by {
                if !mhits(v0, s as int, c, 1) {
                    assert(msum(v0, s as int, c, 1) == msum(v0, s as int - 1, c, 1));
                } else {
                    assert(marked(v0, c, s as int));
                    assert(c == cell);
                }
            }
        }
        step = step - 1;
    }
    if !a.is_empty() {
        proof {
            if decode_ok(raw@) {
                assert(tidy_marks(v0));
                assert forall|c: int, s: int| 0 <= s implies !marked(a@, c, s) by {
                    if marked(a@, c, s) {
                        assert(marked(v0, c, s));
                        assert(1 <= s <= n);
                    }
                }
                lemma_tidy_nonempty(a@);
                assert(false);
            }
        }
        return Err(CodecError::NotEmpty);
    }
    let mut c: usize = 0;
    while c < PIXELS
        invariant
            c <= PIXELS,
            parse_raw(raw@) == Some((rr0, gg0, v0, n)),
            raw@.len() >= 24 + 16 * 262144 + 4,
            raw@.subrange(0, 4) == crate::wire::magic_seq(),
            crate::bytes::le32_at(raw@, 4) == 512,
            crate::bytes::le32_at(raw@, 8) == 512,
            crate::bytes::le64_at(raw@, 16) == RG_LIMIT_EXACT,
            out@.len() == n as int,
            rg.r@.len() == PIXELS,
            rg.g@.len() == PIXELS,
            a@.len() == 0,
            wf_marks(v0),
            idx@.len() == n as int + 1,
            index_ok(v0, n as int),
            forall|s: int| 1 <= s <= n ==> marked(v0, idx@[s] as int, s),
            forall|c2: int, s: int|
                1 <= s <= n && #[trigger] marked(v0, c2, s) ==> c2 == idx@[s] as int,
            forall|c2: int, s: int|
                0 <= s ==> (#[trigger] marked(a@, c2, s) <==> (marked(v0, c2, s) && !(0 < s <= n))),
            tidy_marks(v0) ==> tidy_marks(a@),
            has_zero_page(v0) ==> has_zero_page(a@),
            has_empty_cell(v0) ==> has_empty_cell(a@),
            forall|c2: int|
                0 <= c2 < PIXELS ==> (#[trigger] rg.r@[c2]) as int == rr0[c2] + msum(
                    v0,
                    n as int,
                    c2,
                    0,
                ),
            forall|c2: int|
                0 <= c2 < PIXELS ==> (#[trigger] rg.g@[c2]) as int == gg0[c2] + msum(
                    v0,
                    n as int,
                    c2,
                    1,
                ),
            forall|i: int| 0 <= i < n ==> (#[trigger] out@[i]) == (idx@[i + 1] as int % 256) as u8,
            forall|c2: int|
                0 <= c2 < c ==> (#[trigger] rg.r@[c2]) == RG_LIMIT_EXACT && rg.g@[c2]
                    == RG_LIMIT_EXACT,
        decreases PIXELS - c,
    {
        if rg.r[c] != RG_LIMIT_EXACT || rg.g[c] != RG_LIMIT_EXACT {
            proof {
                if decode_ok(raw@) {
                    assert(rr0[c as int] as int + msum(v0, n as int, c as int, 0)
                        == RG_LIMIT_EXACT);
                    assert(gg0[c as int] as int + msum(v0, n as int, c as int, 1)
                        == RG_LIMIT_EXACT);
                    assert(false);
                }
            }
            return Err(CodecError::NotFull);
        }
        proof {
            assert(rg.r@[c as int] == RG_LIMIT_EXACT && rg.g@[c as int] == RG_LIMIT_EXACT);
            assert forall|c2: int|
                0 <= c2 < c + 1 implies (#[trigger] rg.r@[c2]) == RG_LIMIT_EXACT && rg.g@[c2]
                    == RG_LIMIT_EXACT by {}
        }
        c = c + 1;
    }
    proof {
        assert(!has_zero_page(v0) && !has_empty_cell(v0)) by {
            if has_zero_page(v0) {
                assert(has_zero_page(a@));
            }
            if has_empty_cell(v0) {
                assert(has_empty_cell(a@));
            }
        }
        assert(tidy_marks(v0)) by {
            assert forall|i: int| 0 <= i < v0.len() implies (#[trigger] v0[i]).1.len() >= 1 by {
                if v0[i].1.len() == 0 {
                    assert(has_empty_cell(v0));
                }
            }
            assert forall|i: int, j: int|
                0 <= i < v0.len() && 0 <= j < v0[i].1.len() implies (#[trigger] v0[i].1[j]).1
                != 0 by {
                if v0[i].1[j].1 == 0 {
                    assert(has_zero_page(v0));
                }
            }
        }
        assert(marks_bounded(v0, n as int)) by {
            assert forall|c2: int, s: int|
                0 <= s && #[trigger] marked(v0, c2, s) implies 1 <= s <= n by {
                if !(0 < s <= n) {
                    assert(marked(a@, c2, s));
                }
            }
        }
        assert forall|c2: int|
            0 <= c2 < PIXELS implies (#[trigger] rr0[c2]) as int + msum(v0, n as int, c2, 0)
            == RG_LIMIT_EXACT by {
            assert(rg.r@[c2] == RG_LIMIT_EXACT);
        }
        assert forall|c2: int|
            0 <= c2 < PIXELS implies (#[trigger] gg0[c2]) as int + msum(v0, n as int, c2, 1)
            == RG_LIMIT_EXACT by {
            assert(rg.r@[c2] == RG_LIMIT_EXACT);
            assert(rg.g@[c2] == RG_LIMIT_EXACT);
        }
        assert(fill_ok(rr0, gg0, v0, n as int));
        assert(decode_ok(raw@));
        assert forall|i: int| 0 <= i < n implies out@[i] == (#[trigger] the_cell(
            v0,
            i + 1,
        ) % 256) as u8 by {
            assert(marked(v0, idx@[i + 1] as int, i + 1));
            let cc = the_cell(v0, i + 1);
            assert(marked(v0, cc, i + 1));
            assert(cc == idx@[i + 1] as int);
        }
        assert(out@ =~= decode_payload(raw@));
    }
    Ok(out)
}

/// Filling inverts erasing: any container whose canvas and marker set are
/// what encoding a non-empty payload produces decodes successfully, and
/// recovers that payload byte for byte.
#[verifier::rlimit(100)]
pub proof fn lemma_round_trip(p: Seq<u8>, rr: Seq<u64>, gg: Seq<u64>, vv: MarksView)
    requires
        1 <= p.len() <= MAX_PAYLOAD,
        enc_state_ok(rr, gg, vv, p, p.len() as int),
    ensures
        decode_ok(pack_bytes(rr, gg, vv, p.len() as u32)),
        decode_payload(pack_bytes(rr, gg, vv, p.len() as u32)) == p,
{
    let n = p.len() as int;
    let raw = pack_bytes(rr, gg, vv, p.len() as u32);
    lemma_parse_pack(rr, gg, vv, p.len() as u32);
    assert(parse_raw(raw) == Some((rr, gg, vv, p.len() as u32)));
    assert(covered(vv, n)) by {
        assert forall|s: int| 1 <= s <= n implies #[trigger] step_has_cell(vv, s) by {
            assert(marked(vv, cell_of(p, s), s));
        }
    }
    assert(!has_collision(vv, n)) by {
        if has_collision(vv, n) {
            let (s, c1, c2) = choose|s: int, c1: int, c2: int|
                1 <= s <= n && c1 != c2 && #[trigger] marked(vv, c1, s) && #[trigger] marked(
                    vv,
                    c2,
                    s,
                );
            assert(c1 == cell_of(p, s) && c2 == cell_of(p, s));
        }
    }
    assert(marks_bounded(vv, n)) by {
        assert forall|c: int, s: int|
            0 <= s && #[trigger] marked(vv, c, s) implies 1 <= s <= n by {}
    }
    assert(fill_ok(rr, gg, vv, n)) by {
        assert forall|c: int|
            0 <= c < PIXELS implies (#[trigger] rr[c]) as int + msum(vv, n, c, 0)
            == RG_LIMIT_EXACT by {
            assert forall|t: int|
                1 <= t <= n implies (#[trigger] marked(vv, c, t) <==> (t <= p.len() && cell_of(
                p,
                t,
            ) == c)) by {}
            lemma_msum_eq_psum(vv, p, n, c, 0);
        }
        assert forall|c: int|
            0 <= c < PIXELS implies (#[trigger] gg[c]) as int + msum(vv, n, c, 1)
            == RG_LIMIT_EXACT by {
            assert forall|t: int|
                1 <= t <= n implies (#[trigger] marked(vv, c, t) <==> (t <= p.len() && cell_of(
                p,
                t,
            ) == c)) by {}
            lemma_msum_eq_psum(vv, p, n, c, 1);
        }
    }
    assert(decode_ok(raw));
    assert forall|i: int| 0 <= i < n implies decode_payload(raw)[i] == p[i] by {
        let s = i + 1;
        let c = cell_of(p, s);
        assert(marked(vv, c, s));
        let cc = the_cell(vv, s);
        assert(marked(vv, cc, s));
        assert(cc == c);
        lemma_cell_decomp(p, s);
        lemma_fundamental_div_mod(c, 512);
        assert(c == 512 * (c / 512) + p[s - 1]);
        lemma_fundamental_div_mod_converse(c, 256, 2 * (c / 512), p[s - 1] as int);
        assert(c % 256 == p[s - 1]);
    }
    assert(decode_payload(raw) =~= p);
}

/// Two encodings of one payload, however the container lays out its
/// entries, decode to the same bytes: the recovered payload depends only on
/// the payload encoded.
pub proof fn lemma_decode_deterministic(
    p: Seq<u8>,
    rr1: Seq<u64>,
    gg1: Seq<u64>,
    vv1: MarksView,
    rr2: Seq<u64>,
    gg2: Seq<u64>,
    vv2: MarksView,
)
    requires
        1 <= p.len() <= MAX_PAYLOAD,
        enc_state_ok(rr1, gg1, vv1, p, p.len() as int),
        enc_state_ok(rr2, gg2, vv2, p, p.len() as int),
    ensures
        decode_payload(pack_bytes(rr1, gg1, vv1, p.len() as u32)) == decode_payload(
            pack_bytes(rr2, gg2, vv2, p.len() as u32),
        ),
{
    lemma_round_trip(p, rr1, gg1, vv1);
    lemma_round_trip(p, rr2, gg2, vv2);
}

fn filled_u8(len: usize, val: u8) -> (r: Vec<u8>)
    ensures
        r@.len() == len,
        forall|i: int| 0 <= i < len ==> r@[i] == val,
{
    let mut v: Vec<u8> = Vec::new();
    let mut i: usize = 0;
    while i < len
        invariant
            i <= len,
            v@.len() == i,
            forall|k: int| 0 <= k < i ==> v@[k] == val,
        decreases len - i,
    {
        v.push(val);
        i = i + 1;
    }
    v
}

} // verus!
