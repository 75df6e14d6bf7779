//! Abstract model of the sparse step marker set: cells in strictly ascending
//! order, each cell holding marker pages in strictly ascending order, each
//! page a 64-bit mask with one bit per step.

use crate::params::PIXELS;
use vstd::arithmetic::div_mod::{
    lemma_div_denominator, lemma_div_is_ordered, lemma_fundamental_div_mod,
    lemma_fundamental_div_mod_converse,
};
use vstd::prelude::*;

verus! {

/// Pages of one cell: `(page index, mask)` pairs.
pub type PagesView = Seq<(int, u64)>;

/// The whole marker set: `(cell index, pages)` pairs.
pub type MarksView = Seq<(int, PagesView)>;

/// Bit `b` of `mask` is set.
pub open spec fn bit_set(mask: u64, b: u64) -> bool {
    (mask >> b) & 1 == 1
}

/// Keys of a key-value sequence are strictly ascending.
pub open spec fn kv_sorted<T>(s: Seq<(int, T)>) -> bool {
    forall|i: int, j: int| 0 <= i < j < s.len() ==> (#[trigger] s[i]).0 < (#[trigger] s[j]).0
}

/// Index of the first entry whose key is not below `k`.
pub open spec fn kv_lb<T>(s: Seq<(int, T)>, k: int) -> int
    decreases s.len(),
{
    if s.len() == 0 {
        0
    } else if s[0].0 < k {
        1 + kv_lb(s.drop_first(), k)
    } else {
        0
    }
}

pub proof fn lemma_kv_lb<T>(s: Seq<(int, T)>, k: int)
    requires
        kv_sorted(s),
    ensures
        0 <= kv_lb(s, k) <= s.len(),
        forall|i: int| 0 <= i < kv_lb(s, k) ==> (#[trigger] s[i]).0 < k,
        forall|i: int| kv_lb(s, k) <= i < s.len() ==> (#[trigger] s[i]).0 >= k,
    decreases s.len(),
{
    if s.len() == 0 {
    } else if s[0].0 < k {
        let t = s.drop_first();
        assert(forall|i: int| 0 <= i < t.len() ==> t[i] == s[i + 1]);
        assert(kv_sorted(t));
        lemma_kv_lb(t, k);
        assert forall|i: int| 0 <= i < kv_lb(s, k) implies (#[trigger] s[i]).0 < k by {
            if i > 0 {
                assert(t[i - 1].0 < k);
            }
        }
        assert forall|i: int| kv_lb(s, k) <= i < s.len() implies (#[trigger] s[i]).0 >= k by {
            assert(t[i - 1].0 >= k);
        }
    } else {
        assert forall|i: int| kv_lb(s, k) <= i < s.len() implies (#[trigger] s[i]).0 >= k by {
            if i > 0 {
                assert(s[0].0 < s[i].0);
            }
        }
    }
}

/// A strictly sorted sequence has at most one entry per key; any position
/// with the lower-bound split properties equals `kv_lb`.
pub proof fn lemma_kv_lb_unique<T>(s: Seq<(int, T)>, k: int, pos: int)
    requires
        kv_sorted(s),
        0 <= pos <= s.len(),
        forall|i: int| 0 <= i < pos ==> (#[trigger] s[i]).0 < k,
        forall|i: int| pos <= i < s.len() ==> (#[trigger] s[i]).0 >= k,
    ensures
        pos == kv_lb(s, k),
{
    lemma_kv_lb(s, k);
    let lb = kv_lb(s, k);
    if pos < lb {
        assert(s[pos].0 < k);
        assert(s[pos].0 >= k);
    }
    if lb < pos {
        assert(s[lb].0 < k);
        assert(s[lb].0 >= k);
    }
}

/// Step `s` has its bit set somewhere in the page sequence `ps`.
pub open spec fn pg_has(ps: PagesView, s: int) -> bool {
    exists|j: int|
        0 <= j < ps.len() && (#[trigger] ps[j]).0 == s / 64 && bit_set(ps[j].1, (s % 64) as u64)
}

/// Step `s` is marked at cell `c`.
pub open spec fn marked(v: MarksView, c: int, s: int) -> bool {
    exists|i: int| 0 <= i < v.len() && (#[trigger] v[i]).0 == c && pg_has(v[i].1, s)
}

pub open spec fn cells_in_range(v: MarksView) -> bool {
    forall|i: int| 0 <= i < v.len() ==> 0 <= (#[trigger] v[i]).0 < PIXELS as int
}

pub open spec fn pages_in_range(ps: PagesView) -> bool {
    forall|j: int| 0 <= j < ps.len() ==> 0 <= (#[trigger] ps[j]).0 < 0x1_0000_0000
}

/// Structural well-formedness: canonical ordering, in-range keys.
pub open spec fn wf_marks(v: MarksView) -> bool {
    &&& kv_sorted(v)
    &&& cells_in_range(v)
    &&& forall|i: int| 0 <= i < v.len() ==> kv_sorted((#[trigger] v[i]).1)
    &&& forall|i: int| 0 <= i < v.len() ==> pages_in_range((#[trigger] v[i]).1)
}

/// No structurally dead entries: every cell has a page, every mask a bit.
/// Marker sets built by marking are tidy; a decoded container need not be.
pub open spec fn tidy_marks(v: MarksView) -> bool {
    &&& forall|i: int| 0 <= i < v.len() ==> (#[trigger] v[i]).1.len() >= 1
    &&& forall|i: int, j: int|
        0 <= i < v.len() && 0 <= j < v[i].1.len() ==> (#[trigger] v[i].1[j]).1 != 0
}

/// Some page mask is zero (possible only in a corrupted container).
pub open spec fn has_zero_page(v: MarksView) -> bool {
    exists|i: int, j: int| 0 <= i < v.len() && 0 <= j < v[i].1.len() && (#[trigger] v[i].1[j]).1 == 0
}

/// Some cell has no pages at all (possible only in a corrupted container).
pub open spec fn has_empty_cell(v: MarksView) -> bool {
    exists|i: int| 0 <= i < v.len() && (#[trigger] v[i]).1.len() == 0
}

pub open spec fn pg_set(ps: PagesView, p: int, b: u64) -> PagesView {
    let j = kv_lb(ps, p);
    if j < ps.len() && ps[j].0 == p {
        ps.update(j, (p, ps[j].1 | (1u64 << b)))
    } else {
        ps.insert(j, (p, 1u64 << b))
    }
}

/// Set the bit of step `s` at cell `c`, creating entries on demand.
pub open spec fn db_set(v: MarksView, c: int, s: int) -> MarksView {
    let i = kv_lb(v, c);
    if i < v.len() && v[i].0 == c {
        v.update(i, (c, pg_set(v[i].1, s / 64, (s % 64) as u64)))
    } else {
        v.insert(i, (c, seq![(s / 64, 1u64 << ((s % 64) as u64))]))
    }
}

pub open spec fn pg_clear(ps: PagesView, p: int, b: u64) -> PagesView {
    let j = kv_lb(ps, p);
    let m2 = ps[j].1 & !(1u64 << b);
    if m2 == 0 {
        ps.remove(j)
    } else {
        ps.update(j, (p, m2))
    }
}

/// Clear the bit of step `s` at cell `c`, removing a page that goes to zero
/// and a cell that loses its last page.
pub open spec fn db_clear(v: MarksView, c: int, s: int) -> MarksView {
    let i = kv_lb(v, c);
    let ps2 = pg_clear(v[i].1, s / 64, (s % 64) as u64);
    if ps2.len() == 0 {
        v.remove(i)
    } else {
        v.update(i, (c, ps2))
    }
}

/// Insert-or-replace a whole page record (container parsing: a repeated
/// page index keeps the last mask read).
pub open spec fn pg_put(ps: PagesView, p: int, m: u64) -> PagesView {
    let j = kv_lb(ps, p);
    if j < ps.len() && ps[j].0 == p {
        ps.update(j, (p, m))
    } else {
        ps.insert(j, (p, m))
    }
}

/// Insert-or-replace a whole cell record (container parsing: a repeated
/// cell index keeps the last pages read).
pub open spec fn db_put(v: MarksView, c: int, ps: PagesView) -> MarksView {
    let i = kv_lb(v, c);
    if i < v.len() && v[i].0 == c {
        v.update(i, (c, ps))
    } else {
        v.insert(i, (c, ps))
    }
}

pub proof fn lemma_bit_or(m: u64, b: u64, b2: u64)
    by (bit_vector)
    requires
        b < 64,
        b2 < 64,
    ensures
        bit_set(m | (1u64 << b), b2) <==> (bit_set(m, b2) || b2 == b),
        m | (1u64 << b) != 0,
{
}

pub proof fn lemma_bit_clear(m: u64, b: u64, b2: u64)
    by (bit_vector)
    requires
        b < 64,
        b2 < 64,
    ensures
        bit_set(m & !(1u64 << b), b2) <==> (bit_set(m, b2) && b2 != b),
{
}

pub proof fn lemma_bit_single(b: u64, b2: u64)
    by (bit_vector)
    requires
        b < 64,
        b2 < 64,
    ensures
        bit_set(1u64 << b, b2) <==> b2 == b,
        1u64 << b != 0,
{
}

/// Position of the lowest set bit of `m` at or above `b`.
pub open spec fn low_bit(m: u64, b: u64) -> u64
    decreases 64 - b,
{
    if bit_set(m, b) || b >= 63 {
        b
    } else {
        low_bit(m, (b + 1) as u64)
    }
}

pub proof fn lemma_low_bit(m: u64, b: u64)
    requires
        b < 64,
        m >> b != 0,
    ensures
        low_bit(m, b) < 64,
        bit_set(m, low_bit(m, b)),
    decreases 64 - b,
{
    if bit_set(m, b) {
    } else if b == 63 {
        assert(bit_set(m, 63)) by (bit_vector)
            requires
                m >> 63u64 != 0,
        ;
    } else {
        assert(m >> ((b + 1) as u64) != 0) by (bit_vector)
            requires
                b < 63 && m >> b != 0 && !bit_set(m, b),
        ;
        lemma_low_bit(m, (b + 1) as u64);
    }
}

pub proof fn lemma_mask_zero(m: u64)
    ensures
        (m == 0) <==> (forall|b: u64| b < 64 ==> !bit_set(m, b)),
{
    if m == 0 {
        assert(forall|b: u64| b < 64 ==> !bit_set(m, b)) by (bit_vector)
            requires
                m == 0,
        ;
    } else {
        assert(m >> 0u64 != 0) by (bit_vector)
            requires
                m != 0,
        ;
        lemma_low_bit(m, 0);
        assert(!(forall|b: u64| b < 64 ==> !bit_set(m, b)));
    }
}

pub proof fn lemma_pg_set_effect(ps: PagesView, p: int, b: u64)
    requires
        kv_sorted(ps),
        pages_in_range(ps),
        0 <= p < 0x1_0000_0000,
        b < 64,
    ensures
        kv_sorted(pg_set(ps, p, b)),
        pages_in_range(pg_set(ps, p, b)),
        pg_set(ps, p, b).len() >= 1,
        ps.len() <= pg_set(ps, p, b).len() <= ps.len() + 1,
        (forall|j: int| 0 <= j < ps.len() ==> (#[trigger] ps[j]).1 != 0) ==> (forall|j: int|
            0 <= j < pg_set(ps, p, b).len() ==> (#[trigger] pg_set(ps, p, b)[j]).1 != 0),
        forall|s2: int|
            0 <= s2 ==> (pg_has(pg_set(ps, p, b), s2) <==> (pg_has(ps, s2) || (s2 / 64 == p && (
            s2 % 64) as u64 == b))),
{
    lemma_kv_lb(ps, p);
    let j0 = kv_lb(ps, p);
    let ps2 = pg_set(ps, p, b);
    if j0 < ps.len() && ps[j0].0 == p {
        assert(ps2 == ps.update(j0, (p, ps[j0].1 | (1u64 << b))));
        lemma_bit_or(ps[j0].1, b, b);
        assert forall|j: int| 0 <= j < ps.len() && j != j0 implies (#[trigger] ps[j]).0 != p by {
            if j > j0 {
                assert(ps[j0].0 < ps[j].0);
            }
        }
        assert forall|s2: int| 0 <= s2 implies (pg_has(ps2, s2) <==> (pg_has(ps, s2) || (s2 / 64
            == p && (s2 % 64) as u64 == b))) by {
            let q = s2 / 64;
            let r = (s2 % 64) as u64;
            lemma_step_split(s2, s2);
            lemma_bit_or(ps[j0].1, b, r);
            if q == p {
                if pg_has(ps2, s2) {
                    let j = choose|j: int|
                        0 <= j < ps2.len() && (#[trigger] ps2[j]).0 == q && bit_set(ps2[j].1, r);
                    assert(j == j0);
                    if bit_set(ps[j0].1, r) {
                        assert(pg_has(ps, s2));
                    }
                }
                if pg_has(ps, s2) {
                    let j = choose|j: int|
                        0 <= j < ps.len() && (#[trigger] ps[j]).0 == q && bit_set(ps[j].1, r);
                    assert(j == j0);
                    assert(bit_set(ps2[j0].1, r));
                    assert(pg_has(ps2, s2));
                }
                if r == b {
                    assert(bit_set(ps2[j0].1, r));
                    assert(pg_has(ps2, s2));
                }
            } else {
                if pg_has(ps2, s2) {
                    let j = choose|j: int|
                        0 <= j < ps2.len() && (#[trigger] ps2[j]).0 == q && bit_set(ps2[j].1, r);
                    assert(j != j0);
                    assert(ps[j] == ps2[j]);
                    assert(pg_has(ps, s2));
                }
                if pg_has(ps, s2) {
                    let j = choose|j: int|
                        0 <= j < ps.len() && (#[trigger] ps[j]).0 == q && bit_set(ps[j].1, r);
                    assert(j != j0);
                    assert(ps2[j] == ps[j]);
                    assert(pg_has(ps2, s2));
                }
            }
        }
    } else {
        assert forall|j: int| 0 <= j < ps.len() implies (#[trigger] ps[j]).0 != p by {
            if j >= j0 && ps[j].0 == p {
                assert(ps[j0].0 >= p);
                if j > j0 {
                    assert(ps[j0].0 < ps[j].0);
                }
            }
        }
        ps.insert_ensures(j0, (p, 1u64 << b));
        lemma_bit_single(b, b);
        assert forall|i: int, j: int| 0 <= i < j < ps2.len() implies (#[trigger] ps2[i]).0 < (
        #[trigger] ps2[j]).0 by {
            if i < j0 && j == j0 {
                assert(ps2[i] == ps[i]);
            } else if i == j0 && j > j0 {
                assert(ps2[j] == ps[j - 1]);
                assert(ps[j - 1].0 >= p);
            } else if i < j0 && j > j0 {
                assert(ps2[i] == ps[i]);
                assert(ps2[j] == ps[j - 1]);
            } else if i > j0 {
                assert(ps2[i] == ps[i - 1]);
                assert(ps2[j] == ps[j - 1]);
            }
        }
        assert forall|j: int| 0 <= j < ps2.len() implies 0 <= (#[trigger] ps2[j]).0
            < 0x1_0000_0000 by {
            if j < j0 {
                assert(ps2[j] == ps[j]);
            } else if j > j0 {
                assert(ps2[j] == ps[j - 1]);
            }
        }
        assert forall|s2: int| 0 <= s2 implies (pg_has(ps2, s2) <==> (pg_has(ps, s2) || (s2 / 64
            == p && (s2 % 64) as u64 == b))) by {
            let q = s2 / 64;
            let r = (s2 % 64) as u64;
            lemma_step_split(s2, s2);
            lemma_bit_single(b, r);
            if q == p {
                assert(!pg_has(ps, s2));
                if pg_has(ps2, s2) {
                    let j = choose|j: int|
                        0 <= j < ps2.len() && (#[trigger] ps2[j]).0 == q && bit_set(ps2[j].1, r);
                    if j < j0 {
                        assert(ps2[j] == ps[j]);
                    } else if j > j0 {
                        assert(ps2[j] == ps[j - 1]);
                    }
                    assert(j == j0);
                    assert(r == b);
                }
                if r == b {
                    assert(ps2[j0] == (p, 1u64 << b));
                    assert(bit_set(ps2[j0].1, r));
                    assert(pg_has(ps2, s2));
                }
            } else {
                if pg_has(ps2, s2) {
                    let j = choose|j: int|
                        0 <= j < ps2.len() && (#[trigger] ps2[j]).0 == q && bit_set(ps2[j].1, r);
                    assert(j != j0);
                    if j < j0 {
                        assert(ps2[j] == ps[j]);
                        assert(pg_has(ps, s2));
                    } else {
                        assert(ps2[j] == ps[j - 1]);
                        assert(pg_has(ps, s2));
                    }
                }
                if pg_has(ps, s2) {
                    let j = choose|j: int|
                        0 <= j < ps.len() && (#[trigger] ps[j]).0 == q && bit_set(ps[j].1, r);
                    if j < j0 {
                        assert(ps2[j] == ps[j]);
                        assert(pg_has(ps2, s2));
                    } else {
                        assert(ps2[j + 1] == ps[j]);
                        assert(pg_has(ps2, s2));
                    }
                }
            }
        }
        assert forall|j: int|
            (forall|j3: int| 0 <= j3 < ps.len() ==> (#[trigger] ps[j3]).1 != 0) && 0 <= j
                < ps2.len() implies (#[trigger] ps2[j]).1 != 0 by {
            if j < j0 {
                assert(ps2[j] == ps[j]);
            } else if j > j0 {
                assert(ps2[j] == ps[j - 1]);
            }
        }
    }
}

#[verifier::rlimit(80)]
pub proof fn lemma_db_set_effect(v: MarksView, c: int, s: int)
    requires
        wf_marks(v),
        0 <= c < PIXELS as int,
        0 <= s <= u32::MAX as int,
    ensures
        wf_marks(db_set(v, c, s)),
        tidy_marks(v) ==> tidy_marks(db_set(v, c, s)),
        v.len() <= db_set(v, c, s).len() <= v.len() + 1,
        forall|c2: int, s2: int|
            0 <= s2 ==> (marked(db_set(v, c, s), c2, s2) <==> (marked(v, c2, s2) || (c2 == c && s2
                == s))),
{
    lemma_kv_lb(v, c);
    let i0 = kv_lb(v, c);
    let v2 = db_set(v, c, s);
    let p = s / 64;
    let b = (s % 64) as u64;
    lemma_step_split(s, s);
    assert(p < 0x1_0000_0000) by {
        lemma_div_is_ordered(s, u32::MAX as int, 64);
    }
    if i0 < v.len() && v[i0].0 == c {
        let ps = v[i0].1;
        let ps2 = pg_set(ps, p, b);
        lemma_pg_set_effect(ps, p, b);
        assert(v2 == v.update(i0, (c, ps2)));
        assert forall|i: int| 0 <= i < v.len() && i != i0 implies (#[trigger] v[i]).0 != c by {
            if i > i0 {
                assert(v[i0].0 < v[i].0);
            }
        }
        assert forall|c2: int, s2: int| 0 <= s2 implies (marked(v2, c2, s2) <==> (marked(v, c2, s2)
            || (c2 == c && s2 == s))) by {
            lemma_step_split(s, s2);
            if c2 == c {
                if marked(v2, c2, s2) {
                    let i = choose|i: int|
                        0 <= i < v2.len() && (#[trigger] v2[i]).0 == c2 && pg_has(v2[i].1, s2);
                    assert(i == i0);
                    assert(pg_has(ps2, s2));
                    if pg_has(ps, s2) {
                        assert(marked(v, c2, s2));
                    } else {
                        assert(s2 / 64 == p && (s2 % 64) as u64 == b);
                        assert(s2 == s);
                    }
                }
                if marked(v, c2, s2) {
                    let i = choose|i: int|
                        0 <= i < v.len() && (#[trigger] v[i]).0 == c2 && pg_has(v[i].1, s2);
                    assert(i == i0);
                    assert(pg_has(ps2, s2));
                    assert(v2[i0] == (c, ps2));
                    assert(marked(v2, c2, s2));
                }
                if s2 == s {
                    assert(pg_has(ps2, s2));
                    assert(v2[i0] == (c, ps2));
                    assert(marked(v2, c2, s2));
                }
            } else {
                if marked(v2, c2, s2) {
                    let i = choose|i: int|
                        0 <= i < v2.len() && (#[trigger] v2[i]).0 == c2 && pg_has(v2[i].1, s2);
                    assert(i != i0);
                    assert(v2[i] == v[i]);
                    assert(marked(v, c2, s2));
                }
                if marked(v, c2, s2) {
                    let i = choose|i: int|
                        0 <= i < v.len() && (#[trigger] v[i]).0 == c2 && pg_has(v[i].1, s2);
                    assert(i != i0);
                    assert(v2[i] == v[i]);
                    assert(marked(v2, c2, s2));
                }
            }
        }
    } else {
        let ps2: PagesView = seq![(p, 1u64 << b)];
        lemma_bit_single(b, b);
        assert forall|i: int| 0 <= i < v.len() implies (#[trigger] v[i]).0 != c by {
            if i >= i0 && v[i].0 == c {
                assert(v[i0].0 >= c);
                if i > i0 {
                    assert(v[i0].0 < v[i].0);
                }
            }
        }
        v.insert_ensures(i0, (c, ps2));
        assert(v2 == v.insert(i0, (c, ps2)));
        assert(kv_sorted(ps2));
        assert(pages_in_range(ps2));
        assert forall|i: int, j: int| 0 <= i < j < v2.len() implies (#[trigger] v2[i]).0 < (
        #[trigger] v2[j]).0 by {
            if i < i0 && j == i0 {
                assert(v2[i] == v[i]);
            } else if i == i0 && j > i0 {
                assert(v2[j] == v[j - 1]);
                assert(v[j - 1].0 >= c);
            } else if i < i0 && j > i0 {
                assert(v2[i] == v[i]);
                assert(v2[j] == v[j - 1]);
            } else if i > i0 {
                assert(v2[i] == v[i - 1]);
                assert(v2[j] == v[j - 1]);
            }
        }
        assert forall|i: int| 0 <= i < v2.len() && i != i0 implies v2[i] == (if i < i0 {
            v[i]
        } else {
            v[i - 1]
        }) by {}
        assert forall|c2: int, s2: int| 0 <= s2 implies (marked(v2, c2, s2) <==> (marked(v, c2, s2)
            || (c2 == c && s2 == s))) by {
            lemma_step_split(s, s2);
            if c2 == c {
                assert(!marked(v, c2, s2));
                if marked(v2, c2, s2) {
                    let i = choose|i: int|
                        0 <= i < v2.len() && (#[trigger] v2[i]).0 == c2 && pg_has(v2[i].1, s2);
                    assert(i == i0);
                    assert(pg_has(ps2, s2));
                    let j = choose|j: int|
                        0 <= j < ps2.len() && (#[trigger] ps2[j]).0 == s2 / 64 && bit_set(
                            ps2[j].1,
                            (s2 % 64) as u64,
                        );
                    assert(j == 0);
                    lemma_bit_single(b, (s2 % 64) as u64);
                    assert(s2 == s);
                }
                if s2 == s {
                    assert(bit_set(ps2[0].1, (s % 64) as u64));
                    assert(pg_has(ps2, s2));
                    assert(v2[i0].0 == c2);
                    assert(marked(v2, c2, s2));
                }
            } else {
                if marked(v2, c2, s2) {
                    let i = choose|i: int|
                        0 <= i < v2.len() && (#[trigger] v2[i]).0 == c2 && pg_has(v2[i].1, s2);
                    assert(i != i0);
                    assert(marked(v, c2, s2));
                }
                if marked(v, c2, s2) {
                    let i = choose|i: int|
                        0 <= i < v.len() && (#[trigger] v[i]).0 == c2 && pg_has(v[i].1, s2);
                    if i < i0 {
                        assert(v2[i] == v[i]);
                        assert(marked(v2, c2, s2));
                    } else {
                        assert(v2[i + 1] == v[i]);
                        assert(marked(v2, c2, s2));
                    }
                }
            }
        }
        assert(tidy_marks(v) ==> tidy_marks(v2)) by {
            if tidy_marks(v) {
                assert forall|i: int| 0 <= i < v2.len() implies (#[trigger] v2[i]).1.len() >= 1 by {
                    if i != i0 {
                        assert(v2[i] == (if i < i0 {
                            v[i]
                        } else {
                            v[i - 1]
                        }));
                    }
                }
                assert forall|i: int, j: int|
                    0 <= i < v2.len() && 0 <= j < v2[i].1.len() implies (#[trigger] v2[i].1[j]).1
                    != 0 by {
                    if i != i0 {
                        assert(v2[i] == (if i < i0 {
                            v[i]
                        } else {
                            v[i - 1]
                        }));
                    }
                }
            }
        }
    }
}

#[verifier::rlimit(80)]
pub proof fn lemma_pg_clear_effect(ps: PagesView, s: int)
    requires
        kv_sorted(ps),
        pages_in_range(ps),
        0 <= s,
        pg_has(ps, s),
    ensures
        kv_sorted(pg_clear(ps, s / 64, (s % 64) as u64)),
        pages_in_range(pg_clear(ps, s / 64, (s % 64) as u64)),
        ps.len() - 1 <= pg_clear(ps, s / 64, (s % 64) as u64).len() <= ps.len(),
        (forall|j: int| 0 <= j < ps.len() ==> (#[trigger] ps[j]).1 != 0) ==> (forall|j: int|
            0 <= j < pg_clear(ps, s / 64, (s % 64) as u64).len() ==> (#[trigger] pg_clear(
                ps,
                s / 64,
                (s % 64) as u64,
            )[j]).1 != 0),
        (exists|j: int| 0 <= j < ps.len() && (#[trigger] ps[j]).1 == 0) ==> (exists|j: int|
            0 <= j < pg_clear(ps, s / 64, (s % 64) as u64).len() && (#[trigger] pg_clear(
                ps,
                s / 64,
                (s % 64) as u64,
            )[j]).1 == 0),
        forall|s2: int|
            0 <= s2 ==> (pg_has(pg_clear(ps, s / 64, (s % 64) as u64), s2) <==> (pg_has(ps, s2)
                && s2 != s)),
{
    let p = s / 64;
    let b = (s % 64) as u64;
    lemma_step_split(s, s);
    lemma_kv_lb(ps, p);
    let j0 = kv_lb(ps, p);
    let jw = choose|j: int|
        0 <= j < ps.len() && (#[trigger] ps[j]).0 == p && bit_set(ps[j].1, b);
    assert(jw >= j0);
    if jw > j0 {
        assert(ps[j0].0 < ps[jw].0);
    }
    assert(jw == j0);
    let m = ps[j0].1;
    let m2 = m & !(1u64 << b);
    let ps2 = pg_clear(ps, p, b);
    assert(m != 0) by {
        assert(bit_set(m, b) ==> m != 0) by (bit_vector);
    }
    assert forall|j: int| 0 <= j < ps.len() && j != j0 implies (#[trigger] ps[j]).0 != p by {
        if j > j0 {
            assert(ps[j0].0 < ps[j].0);
        }
    }
    if m2 == 0 {
        assert(ps2 == ps.remove(j0));
        ps.remove_ensures(j0);
        lemma_mask_zero(m2);
        assert forall|i: int, j: int| 0 <= i < j < ps2.len() implies (#[trigger] ps2[i]).0 < (
        #[trigger] ps2[j]).0 by {
            assert(ps2[i] == (if i < j0 {
                ps[i]
            } else {
                ps[i + 1]
            }));
            assert(ps2[j] == (if j < j0 {
                ps[j]
            } else {
                ps[j + 1]
            }));
        }
        assert forall|j: int| 0 <= j < ps2.len() implies 0 <= (#[trigger] ps2[j]).0
            < 0x1_0000_0000 by {
            assert(ps2[j] == (if j < j0 {
                ps[j]
            } else {
                ps[j + 1]
            }));
        }
        assert forall|s2: int| 0 <= s2 implies (pg_has(ps2, s2) <==> (pg_has(ps, s2) && s2
            != s)) by {
            let q = s2 / 64;
            let r = (s2 % 64) as u64;
            lemma_step_split(s, s2);
            lemma_bit_clear(m, b, r);
            if pg_has(ps2, s2) {
                let j = choose|j: int|
                    0 <= j < ps2.len() && (#[trigger] ps2[j]).0 == q && bit_set(ps2[j].1, r);
                assert(ps2[j] == (if j < j0 {
                    ps[j]
                } else {
                    ps[j + 1]
                }));
                assert(pg_has(ps, s2));
                assert(q != p);
                assert(s2 != s);
            }
            if pg_has(ps, s2) && s2 != s {
                let j = choose|j: int|
                    0 <= j < ps.len() && (#[trigger] ps[j]).0 == q && bit_set(ps[j].1, r);
                if j == j0 {
                    assert(q == p);
                    assert(bit_set(m, r));
                    assert(r != b ==> bit_set(m2, r));
                    assert(!bit_set(m2, r));
                    assert(r == b);
                    assert(s2 == s);
                } else {
                    if j < j0 {
                        assert(ps2[j] == ps[j]);
                        assert(pg_has(ps2, s2));
                    } else {
                        assert(ps2[j - 1] == ps[j]);
                        assert(pg_has(ps2, s2));
                    }
                }
            }
        }
        if exists|j2: int| 0 <= j2 < ps.len() && (#[trigger] ps[j2]).1 == 0 {
            let j = choose|j2: int| 0 <= j2 < ps.len() && (#[trigger] ps[j2]).1 == 0;
            assert(j != j0);
            if j < j0 {
                assert(ps2[j] == ps[j]);
            } else {
                assert(ps2[j - 1] == ps[j]);
            }
            assert(exists|j3: int| 0 <= j3 < ps2.len() && (#[trigger] ps2[j3]).1 == 0);
        }
        assert forall|j: int|
            (forall|j3: int| 0 <= j3 < ps.len() ==> (#[trigger] ps[j3]).1 != 0) && 0 <= j
                < ps2.len() implies (#[trigger] ps2[j]).1 != 0 by {
            assert(ps2[j] == (if j < j0 {
                ps[j]
            } else {
                ps[j + 1]
            }));
        }
    } else {
        assert(ps2 == ps.update(j0, (p, m2)));
        assert forall|s2: int| 0 <= s2 implies (pg_has(ps2, s2) <==> (pg_has(ps, s2) && s2
            != s)) by {
            let q = s2 / 64;
            let r = (s2 % 64) as u64;
            lemma_step_split(s, s2);
            lemma_bit_clear(m, b, r);
            if q == p {
                if pg_has(ps2, s2) {
                    let j = choose|j: int|
                        0 <= j < ps2.len() && (#[trigger] ps2[j]).0 == q && bit_set(ps2[j].1, r);
                    assert(j == j0);
                    assert(bit_set(m2, r));
                    assert(bit_set(m, r) && r != b);
                    assert(pg_has(ps, s2));
                    assert(s2 != s);
                }
                if pg_has(ps, s2) && s2 != s {
                    let j = choose|j: int|
                        0 <= j < ps.len() && (#[trigger] ps[j]).0 == q && bit_set(ps[j].1, r);
                    assert(j == j0);
                    assert(r != b);
                    assert(bit_set(m2, r));
                    assert(ps2[j0] == (p, m2));
                    assert(pg_has(ps2, s2));
                }
            } else {
                if pg_has(ps2, s2) {
                    let j = choose|j: int|
                        0 <= j < ps2.len() && (#[trigger] ps2[j]).0 == q && bit_set(ps2[j].1, r);
                    assert(j != j0);
                    assert(ps2[j] == ps[j]);
                    assert(pg_has(ps, s2));
                    assert(s2 != s);
                }
                if pg_has(ps, s2) && s2 != s {
                    let j = choose|j: int|
                        0 <= j < ps.len() && (#[trigger] ps[j]).0 == q && bit_set(ps[j].1, r);
                    assert(j != j0);
                    assert(ps2[j] == ps[j]);
                    assert(pg_has(ps2, s2));
                }
            }
        }
        if exists|j2: int| 0 <= j2 < ps.len() && (#[trigger] ps[j2]).1 == 0 {
            let j = choose|j2: int| 0 <= j2 < ps.len() && (#[trigger] ps[j2]).1 == 0;
            assert(j != j0);
            assert(ps2[j] == ps[j]);
            assert(exists|j3: int| 0 <= j3 < ps2.len() && (#[trigger] ps2[j3]).1 == 0);
        }
    }
}

#[verifier::rlimit(80)]
pub proof fn lemma_db_clear_effect(v: MarksView, c: int, s: int)
    requires
        wf_marks(v),
        marked(v, c, s),
        0 <= s,
    ensures
        wf_marks(db_clear(v, c, s)),
        tidy_marks(v) ==> tidy_marks(db_clear(v, c, s)),
        v.len() - 1 <= db_clear(v, c, s).len() <= v.len(),
        forall|c2: int, s2: int|
            0 <= s2 ==> (marked(db_clear(v, c, s), c2, s2) <==> (marked(v, c2, s2) && !(c2 == c
                && s2 == s))),
        has_zero_page(v) ==> has_zero_page(db_clear(v, c, s)),
        has_empty_cell(v) ==> has_empty_cell(db_clear(v, c, s)),
{
    lemma_kv_lb(v, c);
    let i0 = kv_lb(v, c);
    let iw = choose|i: int| 0 <= i < v.len() && (#[trigger] v[i]).0 == c && pg_has(v[i].1, s);
    assert(iw >= i0);
    if iw > i0 {
        assert(v[i0].0 < v[iw].0);
    }
    assert(iw == i0);
    assert forall|i: int| 0 <= i < v.len() && i != i0 implies (#[trigger] v[i]).0 != c by {
        if i > i0 {
            assert(v[i0].0 < v[i].0);
        }
    }
    let ps = v[i0].1;
    lemma_pg_clear_effect(ps, s);
    let ps2 = pg_clear(ps, s / 64, (s % 64) as u64);
    let v2 = db_clear(v, c, s);
    if ps2.len() == 0 {
        assert(v2 == v.remove(i0));
        v.remove_ensures(i0);
        assert forall|i: int| 0 <= i < v2.len() implies v2[i] == (if i < i0 {
            v[i]
        } else {
            v[i + 1]
        }) by {}
        assert forall|i: int, j: int| 0 <= i < j < v2.len() implies (#[trigger] v2[i]).0 < (
        #[trigger] v2[j]).0 by {
            assert(v2[i] == (if i < i0 {
                v[i]
            } else {
                v[i + 1]
            }));
            assert(v2[j] == (if j < i0 {
                v[j]
            } else {
                v[j + 1]
            }));
        }
        assert forall|c2: int, s2: int| 0 <= s2 implies (marked(v2, c2, s2) <==> (marked(v, c2, s2)
            && !(c2 == c && s2 == s))) by {
            if marked(v2, c2, s2) {
                let i = choose|i: int|
                    0 <= i < v2.len() && (#[trigger] v2[i]).0 == c2 && pg_has(v2[i].1, s2);
                assert(v2[i] == (if i < i0 {
                    v[i]
                } else {
                    v[i + 1]
                }));
                assert(marked(v, c2, s2));
                assert(c2 != c);
            }
            if marked(v, c2, s2) && !(c2 == c && s2 == s) {
                let i = choose|i: int|
                    0 <= i < v.len() && (#[trigger] v[i]).0 == c2 && pg_has(v[i].1, s2);
                if i == i0 {
                    assert(c2 == c);
                    assert(pg_has(ps, s2) && s2 != s);
                    assert(pg_has(ps2, s2));
                    assert(false);
                } else if i < i0 {
                    assert(v2[i] == v[i]);
                    assert(marked(v2, c2, s2));
                } else {
                    assert(v2[i - 1] == v[i]);
                    assert(marked(v2, c2, s2));
                }
            }
        }
        if has_zero_page(v) {
            let (iz, jz) = choose|iz: int, jz: int|
                0 <= iz < v.len() && 0 <= jz < v[iz].1.len() && (#[trigger] v[iz].1[jz]).1 == 0;
            assert(iz != i0) by {
                if iz == i0 {
                    assert(exists|j: int| 0 <= j < ps.len() && (#[trigger] ps[j]).1 == 0);
                    assert(exists|j: int| 0 <= j < ps2.len() && (#[trigger] ps2[j]).1 == 0);
                }
            }
            if iz < i0 {
                assert(v2[iz] == v[iz]);
                assert(v2[iz].1[jz].1 == 0);
            } else {
                assert(v2[iz - 1] == v[iz]);
                assert(v2[iz - 1].1[jz].1 == 0);
            }
            assert(has_zero_page(v2));
        }
        if has_empty_cell(v) {
            let ie = choose|ie: int| 0 <= ie < v.len() && (#[trigger] v[ie]).1.len() == 0;
            assert(ie != i0);
            if ie < i0 {
                assert(v2[ie] == v[ie]);
            } else {
                assert(v2[ie - 1] == v[ie]);
            }
            assert(has_empty_cell(v2));
        }
    } else {
        assert(v2 == v.update(i0, (c, ps2)));
        assert forall|c2: int, s2: int| 0 <= s2 implies (marked(v2, c2, s2) <==> (marked(v, c2, s2)
            && !(c2 == c && s2 == s))) by {
            if marked(v2, c2, s2) {
                let i = choose|i: int|
                    0 <= i < v2.len() && (#[trigger] v2[i]).0 == c2 && pg_has(v2[i].1, s2);
                if i == i0 {
                    assert(pg_has(ps2, s2));
                    assert(pg_has(ps, s2) && s2 != s);
                    assert(marked(v, c2, s2));
                } else {
                    assert(v2[i] == v[i]);
                    assert(marked(v, c2, s2));
                    assert(c2 != c);
                }
            }
            if marked(v, c2, s2) && !(c2 == c && s2 == s) {
                let i = choose|i: int|
                    0 <= i < v.len() && (#[trigger] v[i]).0 == c2 && pg_has(v[i].1, s2);
                if i == i0 {
                    assert(pg_has(ps2, s2));
                    assert(v2[i0] == (c, ps2));
                    assert(marked(v2, c2, s2));
                } else {
                    assert(v2[i] == v[i]);
                    assert(marked(v2, c2, s2));
                }
            }
        }
        if has_zero_page(v) {
            let (iz, jz) = choose|iz: int, jz: int|
                0 <= iz < v.len() && 0 <= jz < v[iz].1.len() && (#[trigger] v[iz].1[jz]).1 == 0;
            if iz == i0 {
                assert(exists|j: int| 0 <= j < ps.len() && (#[trigger] ps[j]).1 == 0);
                let jz2 = choose|j: int| 0 <= j < ps2.len() && (#[trigger] ps2[j]).1 == 0;
                assert(v2[i0].1[jz2].1 == 0);
            } else {
                assert(v2[iz] == v[iz]);
                assert(v2[iz].1[jz].1 == 0);
            }
            assert(has_zero_page(v2));
        }
        if has_empty_cell(v) {
            let ie = choose|ie: int| 0 <= ie < v.len() && (#[trigger] v[ie]).1.len() == 0;
            assert(ie != i0);
            assert(v2[ie] == v[ie]);
            assert(has_empty_cell(v2));
        }
    }
}

/// A tidy, well-formed, non-empty marker set holds at least one mark.
pub proof fn lemma_tidy_nonempty(v: MarksView)
    requires
        wf_marks(v),
        tidy_marks(v),
        v.len() > 0,
    ensures
        exists|c: int, s: int| 0 <= s && #[trigger] marked(v, c, s),
{
    let ps = v[0].1;
    let m = ps[0].1;
    assert(m != 0);
    assert(m >> 0u64 != 0) by (bit_vector)
        requires
            m != 0,
    ;
    lemma_low_bit(m, 0);
    let b = low_bit(m, 0);
    let p = ps[0].0;
    let s = 64 * p + b;
    lemma_fundamental_div_mod_converse(s, 64, p, b as int);
    assert(ps[0].0 == s / 64 && bit_set(ps[0].1, (s % 64) as u64));
    assert(pg_has(ps, s));
    assert(marked(v, v[0].0, s));
}

/// A strictly sorted key sequence with keys in `[0, bound)` has at most
/// `bound` entries.
pub proof fn lemma_kv_len_le<T>(s: Seq<(int, T)>, bound: int)
    requires
        kv_sorted(s),
        0 <= bound,
        forall|i: int| 0 <= i < s.len() ==> 0 <= (#[trigger] s[i]).0 < bound,
    ensures
        s.len() <= bound,
{
    if s.len() > bound {
        lemma_kv_index_ge(s, s.len() - 1);
        assert(s[s.len() - 1].0 >= s[0].0 + s.len() - 1);
    }
}

pub proof fn lemma_kv_index_ge<T>(s: Seq<(int, T)>, i: int)
    requires
        kv_sorted(s),
        0 <= i < s.len(),
    ensures
        (#[trigger] s[i]).0 >= s[0].0 + i,
    decreases i,
{
    if i > 0 {
        lemma_kv_index_ge(s, i - 1);
        assert(s[i - 1].0 < s[i].0);
    }
}

/// Pages that all carry some step of one congruence class modulo 512, with
/// steps bounded by `n`, are spaced at least 8 apart, so one cell holds at
/// most `n / 512 + 1` of them.
/// Page `j` of `ps` carries some step `t` of the class `y mod 512`, `t <= n`.
pub open spec fn page_step_witness(ps: PagesView, n: int, y: int, j: int) -> bool {
    exists|t: int| 1 <= t <= n && t % 512 == y % 512 && ps[j].0 == #[trigger] (t / 64)
}

pub proof fn lemma_pages_count(ps: PagesView, n: int, y: int)
    requires
        kv_sorted(ps),
        n >= 1,
        forall|j: int| 0 <= j < ps.len() ==> #[trigger] page_step_witness(ps, n, y, j),
    ensures
        ps.len() <= n / 512 + 1,
{
    if ps.len() >= 2 {
        let last = ps.len() - 1;
        lemma_pg_gap_growth(ps, n, y, last);
        assert(page_step_witness(ps, n, y, last));
        let t2 = choose|t: int| 1 <= t <= n && t % 512 == y % 512 && ps[last].0 == #[trigger] (t / 64);
        lemma_div_is_ordered(t2, n, 64);
        assert(page_step_witness(ps, n, y, 0));
        let t0 = choose|t: int| 1 <= t <= n && t % 512 == y % 512 && ps[0].0 == #[trigger] (t / 64);
        assert(t0 / 64 >= 0) by {
            lemma_div_is_ordered(0, t0, 64);
        }
        assert(8 * last <= n / 64);
        assert(last <= (n / 64) / 8) by {
            lemma_div_is_ordered(8 * last, n / 64, 8);
            assert((8 * last) / 8 == last) by (nonlinear_arith);
        }
        lemma_div_denominator(n, 64, 8);
    }
}

pub proof fn lemma_pg_gap_growth(ps: PagesView, n: int, y: int, j: int)
    requires
        kv_sorted(ps),
        n >= 1,
        0 <= j < ps.len(),
        forall|j2: int| 0 <= j2 < ps.len() ==> #[trigger] page_step_witness(ps, n, y, j2),
    ensures
        (#[trigger] ps[j]).0 >= ps[0].0 + 8 * j,
    decreases j,
{
    if j > 0 {
        lemma_pg_gap_growth(ps, n, y, j - 1);
        assert(page_step_witness(ps, n, y, j - 1));
        assert(page_step_witness(ps, n, y, j));
        let t1 = choose|t: int| 1 <= t <= n && t % 512 == y % 512 && ps[j - 1].0 == #[trigger] (t / 64);
        let t2 = choose|t: int| 1 <= t <= n && t % 512 == y % 512 && ps[j].0 == #[trigger] (t / 64);
        assert(ps[j - 1].0 < ps[j].0);
        if t1 >= t2 {
            lemma_div_is_ordered(t2, t1, 64);
            assert(false);
        }
        lemma_fundamental_div_mod(t1, 512);
        lemma_fundamental_div_mod(t2, 512);
        assert(t2 >= t1 + 512) by (nonlinear_arith)
            requires
                t1 < t2,
                t1 == 512 * (t1 / 512) + (y % 512),
                t2 == 512 * (t2 / 512) + (y % 512),
        ;
        lemma_fundamental_div_mod(t1, 64);
        let q1 = t1 / 64;
        let r1 = t1 % 64;
        assert((64 * (q1 + 8) + r1) / 64 == q1 + 8) by {
            lemma_fundamental_div_mod_converse(64 * (q1 + 8) + r1, 64, q1 + 8, r1);
        }
        lemma_div_is_ordered(64 * (q1 + 8) + r1, t2, 64);
        assert(ps[j].0 >= ps[j - 1].0 + 8);
    }
}

pub proof fn lemma_pg_put_sorted(ps: PagesView, p: int, m: u64)
    requires
        kv_sorted(ps),
        pages_in_range(ps),
        0 <= p < 0x1_0000_0000,
    ensures
        kv_sorted(pg_put(ps, p, m)),
        pages_in_range(pg_put(ps, p, m)),
{
    lemma_kv_lb(ps, p);
    let j0 = kv_lb(ps, p);
    let ps2 = pg_put(ps, p, m);
    if j0 < ps.len() && ps[j0].0 == p {
    } else {
        ps.insert_ensures(j0, (p, m));
        assert forall|i: int, j: int| 0 <= i < j < ps2.len() implies (#[trigger] ps2[i]).0 < (
        #[trigger] ps2[j]).0 by {
            if i < j0 && j == j0 {
                assert(ps2[i] == ps[i]);
            } else if i == j0 && j > j0 {
                assert(ps2[j] == ps[j - 1]);
                assert(ps[j - 1].0 >= p);
                assert(ps[j - 1].0 != p) by {
                    if j - 1 > j0 {
                        assert(ps[j0].0 < ps[j - 1].0);
                        assert(ps[j0].0 >= p);
                    }
                }
            } else if i < j0 && j > j0 {
                assert(ps2[i] == ps[i]);
                assert(ps2[j] == ps[j - 1]);
            } else if i > j0 {
                assert(ps2[i] == ps[i - 1]);
                assert(ps2[j] == ps[j - 1]);
            }
        }
        assert forall|j: int| 0 <= j < ps2.len() implies 0 <= (#[trigger] ps2[j]).0
            < 0x1_0000_0000 by {
            if j < j0 {
                assert(ps2[j] == ps[j]);
            } else if j > j0 {
                assert(ps2[j] == ps[j - 1]);
            }
        }
    }
}

pub proof fn lemma_db_put_wf(v: MarksView, c: int, ps: PagesView)
    requires
        wf_marks(v),
        kv_sorted(ps),
        pages_in_range(ps),
        0 <= c < PIXELS as int,
    ensures
        wf_marks(db_put(v, c, ps)),
{
    lemma_kv_lb(v, c);
    let i0 = kv_lb(v, c);
    let v2 = db_put(v, c, ps);
    if i0 < v.len() && v[i0].0 == c {
        assert forall|i: int| 0 <= i < v2.len() implies kv_sorted((#[trigger] v2[i]).1)
            && pages_in_range(v2[i].1) && 0 <= v2[i].0 < PIXELS as int by {
            if i != i0 {
                assert(v2[i] == v[i]);
            }
        }
    } else {
        v.insert_ensures(i0, (c, ps));
        assert forall|i: int, j: int| 0 <= i < j < v2.len() implies (#[trigger] v2[i]).0 < (
        #[trigger] v2[j]).0 by {
            if i < i0 && j == i0 {
                assert(v2[i] == v[i]);
            } else if i == i0 && j > i0 {
                assert(v2[j] == v[j - 1]);
                assert(v[j - 1].0 >= c);
                assert(v[j - 1].0 != c) by {
                    if j - 1 > i0 {
                        assert(v[i0].0 < v[j - 1].0);
                        assert(v[i0].0 >= c);
                    }
                }
            } else if i < i0 && j > i0 {
                assert(v2[i] == v[i]);
                assert(v2[j] == v[j - 1]);
            } else if i > i0 {
                assert(v2[i] == v[i - 1]);
                assert(v2[j] == v[j - 1]);
            }
        }
        assert forall|i: int| 0 <= i < v2.len() implies kv_sorted((#[trigger] v2[i]).1)
            && pages_in_range(v2[i].1) && 0 <= v2[i].0 < PIXELS as int by {
            if i < i0 {
                assert(v2[i] == v[i]);
            } else if i > i0 {
                assert(v2[i] == v[i - 1]);
            }
        }
    }
}

/// A step is its page and bit position, uniquely.
pub proof fn lemma_step_split(s: int, s2: int)
    requires
        0 <= s,
        0 <= s2,
    ensures
        (s2 / 64 == s / 64 && s2 % 64 == s % 64) <==> s2 == s,
        0 <= s % 64 < 64,
        0 <= s / 64,
{
    lemma_fundamental_div_mod(s, 64);
    lemma_fundamental_div_mod(s2, 64);
}

} // verus!
