//! The step-index builder: one linear scan of the marker set recovers, for
//! every step, the cell it touched. This is the only way the decoder learns
//! the step-to-cell mapping, which the container does not store directly.

use crate::errors::CodecError;
use crate::markers::ABitset;
use crate::marks::{bit_set, marked, wf_marks, MarksView};
use vstd::arithmetic::div_mod::{lemma_fundamental_div_mod, lemma_fundamental_div_mod_converse};
use vstd::prelude::*;

verus! {

/// Step `s` lies in the page `(page, mask)` and within `1..=n`.
pub open spec fn in_page(page: int, mask: u64, n: int, s: int) -> bool {
    1 <= s <= n && s / 64 == page && bit_set(mask, (s % 64) as u64)
}

/// Step `s` is marked at cell `c` by a position strictly before `(cell_i, page_j)`
/// in the scan order.
pub open spec fn scanned2(v: MarksView, cell_i: int, page_j: int, c: int, s: int) -> bool {
    exists|i: int, j: int|
        0 <= i < v.len() && 0 <= j < v[i].1.len() && (#[trigger] v[i].1[j]).0 == s / 64 && bit_set(
            v[i].1[j].1,
            (s % 64) as u64,
        ) && v[i].0 == c && (i < cell_i || (i == cell_i && j < page_j))
}

pub open spec fn scanned_any(v: MarksView, cell_i: int, page_j: int, s: int) -> bool {
    exists|c: int| #[trigger] scanned2(v, cell_i, page_j, c, s)
}

/// Two different cells both mark one step in `1..=n`.
pub open spec fn has_collision(v: MarksView, n: int) -> bool {
    exists|s: int, c1: int, c2: int|
        1 <= s <= n && c1 != c2 && #[trigger] marked(v, c1, s) && #[trigger] marked(v, c2, s)
}

pub open spec fn step_has_cell(v: MarksView, s: int) -> bool {
    exists|c: int| #[trigger] marked(v, c, s)
}

/// Every step in `1..=n` is marked somewhere.
pub open spec fn covered(v: MarksView, n: int) -> bool {
    forall|s: int| 1 <= s <= n ==> #[trigger] step_has_cell(v, s)
}

/// Every step in `1..=n` is marked at exactly one cell.
pub open spec fn index_ok(v: MarksView, n: int) -> bool {
    covered(v, n) && !has_collision(v, n)
}

proof fn lemma_scanned_step_page(v: MarksView, cell_i: int, page_j: int, c: int, s: int)
    requires
        0 <= cell_i < v.len(),
        0 <= page_j < v[cell_i].1.len(),
        0 <= s,
    ensures
        scanned2(v, cell_i, page_j + 1, c, s) <==> (scanned2(v, cell_i, page_j, c, s) || (c
            == v[cell_i].0 && v[cell_i].1[page_j].0 == s / 64 && bit_set(
            v[cell_i].1[page_j].1,
            (s % 64) as u64,
        ))),
{
    if scanned2(v, cell_i, page_j + 1, c, s) {
        let (i, j) = choose|i: int, j: int|
            0 <= i < v.len() && 0 <= j < v[i].1.len() && (#[trigger] v[i].1[j]).0 == s / 64
                && bit_set(v[i].1[j].1, (s % 64) as u64) && v[i].0 == c && (i < cell_i || (i
                == cell_i && j < page_j + 1));
        if i < cell_i || (i == cell_i && j < page_j) {
            assert(scanned2(v, cell_i, page_j, c, s));
        } else {
            assert(i == cell_i && j == page_j);
        }
    }
    if scanned2(v, cell_i, page_j, c, s) {
        let (i, j) = choose|i: int, j: int|
            0 <= i < v.len() && 0 <= j < v[i].1.len() && (#[trigger] v[i].1[j]).0 == s / 64
                && bit_set(v[i].1[j].1, (s % 64) as u64) && v[i].0 == c && (i < cell_i || (i
                == cell_i && j < page_j));
        assert(scanned2(v, cell_i, page_j + 1, c, s));
    }
    if c == v[cell_i].0 && v[cell_i].1[page_j].0 == s / 64 && bit_set(
        v[cell_i].1[page_j].1,
        (s % 64) as u64,
    ) {
        assert(scanned2(v, cell_i, page_j + 1, c, s));
    }
}

proof fn lemma_scanned_next_cell(v: MarksView, cell_i: int, c: int, s: int)
    requires
        0 <= cell_i < v.len(),
    ensures
        scanned2(v, cell_i + 1, 0, c, s) <==> scanned2(v, cell_i, v[cell_i].1.len() as int, c, s),
{
    if scanned2(v, cell_i + 1, 0, c, s) {
        let (i, j) = choose|i: int, j: int|
            0 <= i < v.len() && 0 <= j < v[i].1.len() && (#[trigger] v[i].1[j]).0 == s / 64
                && bit_set(v[i].1[j].1, (s % 64) as u64) && v[i].0 == c && (i < cell_i + 1 || (i
                == cell_i + 1 && j < 0));
        assert(i < cell_i || (i == cell_i && j < v[cell_i].1.len()));
        assert(scanned2(v, cell_i, v[cell_i].1.len() as int, c, s));
    }
    if scanned2(v, cell_i, v[cell_i].1.len() as int, c, s) {
        let (i, j) = choose|i: int, j: int|
            0 <= i < v.len() && 0 <= j < v[i].1.len() && (#[trigger] v[i].1[j]).0 == s / 64
                && bit_set(v[i].1[j].1, (s % 64) as u64) && v[i].0 == c && (i < cell_i || (i
                == cell_i && j < v[cell_i].1.len()));
        assert(scanned2(v, cell_i + 1, 0, c, s));
    }
}

proof fn lemma_scanned_end(v: MarksView, c: int, s: int)
    ensures
        scanned2(v, v.len() as int, 0, c, s) <==> marked(v, c, s),
{
    if scanned2(v, v.len() as int, 0, c, s) {
        let (i, j) = choose|i: int, j: int|
            0 <= i < v.len() && 0 <= j < v[i].1.len() && (#[trigger] v[i].1[j]).0 == s / 64
                && bit_set(v[i].1[j].1, (s % 64) as u64) && v[i].0 == c && (i < v.len() || (i
                == v.len() && j < 0));
        assert(crate::marks::pg_has(v[i].1, s));
        assert(marked(v, c, s));
    }
    if marked(v, c, s) {
        let i = choose|i: int|
            0 <= i < v.len() && (#[trigger] v[i]).0 == c && crate::marks::pg_has(v[i].1, s);
        let j = choose|j: int|
            0 <= j < v[i].1.len() && (#[trigger] v[i].1[j]).0 == s / 64 && bit_set(
                v[i].1[j].1,
                (s % 64) as u64,
            );
        assert(scanned2(v, v.len() as int, 0, c, s));
    }
}

fn filled_u32(len_minus_one: u32, val: u32) -> (r: Vec<u32>)
    ensures
        r@.len() == len_minus_one as int + 1,
        forall|i: int| 0 <= i < r@.len() ==> r@[i] == val,
{
    let mut v: Vec<u32> = Vec::new();
    let mut i: u64 = 0;
    while i <= len_minus_one as u64
        invariant
            i <= len_minus_one as u64 + 1,
            v@.len() == i,
            forall|k: int| 0 <= k < i ==> v@[k] == val,
        decreases len_minus_one as u64 + 1 - i,
    {
        v.push(val);
        i = i + 1;
    }
    v
}

fn filled_bool(len_minus_one: u32, val: bool) -> (r: Vec<bool>)
    ensures
        r@.len() == len_minus_one as int + 1,
        forall|i: int| 0 <= i < r@.len() ==> r@[i] == val,
{
    let mut v: Vec<bool> = Vec::new();
    let mut i: u64 = 0;
    while i <= len_minus_one as u64
        invariant
            i <= len_minus_one as u64 + 1,
            v@.len() == i,
            forall|k: int| 0 <= k < i ==> v@[k] == val,
        decreases len_minus_one as u64 + 1 - i,
    {
        v.push(val);
        i = i + 1;
    }
    v
}

/// Record the steps of one page: for every set bit whose step lies in
/// `1..=n`, mark it seen and record the cell; fail iff a step of this page
/// was already seen.
fn scan_page(
    seen: &mut Vec<bool>,
    idx: &mut Vec<u32>,
    pidx: u32,
    page: u32,
    mask: u64,
    n: u32,
) -> (r: Result<(), CodecError>)
    requires
        old(seen)@.len() == n as int + 1,
        old(idx)@.len() == n as int + 1,
    ensures
        final(seen)@.len() == n as int + 1,
        final(idx)@.len() == n as int + 1,
        r.is_ok() <==> !(exists|s: int|
            1 <= s <= n && #[trigger] in_page(page as int, mask, n as int, s) && old(seen)@[s]),
        r.is_err() ==> r == Err::<(), CodecError>(CodecError::StepCollision),
        r.is_ok() ==> forall|s: int|
            0 <= s <= n ==> (final(seen)@[s] == (old(seen)@[s] || in_page(
                page as int,
                mask,
                n as int,
                s,
            ))),
        r.is_ok() ==> forall|s: int|
            0 <= s <= n ==> (final(idx)@[s] == if in_page(page as int, mask, n as int, s) {
                pidx
            } else {
                old(idx)@[s]
            }),
{
    let mut b: u32 = 0;
    while b < 64
        invariant
            b <= 64,
            seen@.len() == n as int + 1,
            idx@.len() == n as int + 1,
            forall|s: int|
                0 <= s <= n ==> (seen@[s] == (old(seen)@[s] || (in_page(
                    page as int,
                    mask,
                    n as int,
                    s,
                ) && s % 64 < b))),
            forall|s: int|
                0 <= s <= n ==> (idx@[s] == if in_page(page as int, mask, n as int, s) && s % 64
                    < b {
                    pidx
                } else {
                    old(idx)@[s]
                }),
            forall|s: int|
                1 <= s <= n && #[trigger] in_page(page as int, mask, n as int, s) && s % 64 < b
                    ==> !old(seen)@[s],
        decreases 64 - b,
    {
        if (mask >> (b as u64)) & 1 == 1 {
            let step64: u64 = (page as u64) * 64 + (b as u64);
            proof {
                lemma_fundamental_div_mod_converse(step64 as int, 64, page as int, b as int);
            }
            if step64 >= 1 && step64 <= n as u64 {
                let step: u32 = step64 as u32;
                proof {
                    assert(in_page(page as int, mask, n as int, step as int));
                    assert(step as int % 64 == b as int);
                }
                if seen[step as usize] {
                    proof {
                        assert(!(in_page(page as int, mask, n as int, step as int) && step as int
                            % 64 < b));
                        assert(old(seen)@[step as int]);
                    }
                    return Err(CodecError::StepCollision);
                }
                seen[step as usize] = true;
                idx[step as usize] = pidx;
                proof {
                    assert forall|s: int|
                        0 <= s <= n implies (seen@[s] == (old(seen)@[s] || (in_page(
                        page as int,
                        mask,
                        n as int,
                        s,
                    ) && s % 64 < b + 1))) by {
                        if s != step as int && in_page(page as int, mask, n as int, s) && s % 64
                            == b {
                            lemma_fundamental_div_mod(s, 64);
                        }
                    }
                    assert forall|s: int|
                        0 <= s <= n implies (idx@[s] == if in_page(page as int, mask, n as int, s)
                        && s % 64 < b + 1 {
                        pidx
                    } else {
                        old(idx)@[s]
                    }) by {
                        if s != step as int && in_page(page as int, mask, n as int, s) && s % 64
                            == b {
                            lemma_fundamental_div_mod(s, 64);
                        }
                    }
                }
            } else {
                proof {
                    assert forall|s: int|
                        0 <= s <= n && in_page(page as int, mask, n as int, s) implies s % 64
                        != b by {
                        if s % 64 == b {
                            lemma_fundamental_div_mod(s, 64);
                        }
                    }
                }
            }
        } else {
            proof {
                assert forall|s: int|
                    0 <= s <= n && in_page(page as int, mask, n as int, s) implies s % 64 != b by {
                    if s % 64 == b {
                        assert(bit_set(mask, b as u64));
                    }
                }
            }
        }
        b = b + 1;
    }
    proof {
        assert forall|s: int|
            0 <= s <= n && in_page(page as int, mask, n as int, s) implies s % 64 < 64 by {
            lemma_fundamental_div_mod(s, 64);
        }
    }
    Ok(())
}

/// Build the step-to-cell index by scanning the marker set exactly once.
/// Succeeds iff every step in `1..=n` is marked at exactly one cell; a step
/// marked at two cells is a collision, a step marked nowhere is missing.
pub fn build_step_index_from_a(a: &ABitset, n: u32) -> (r: Result<Vec<u32>, CodecError>)
    requires
        wf_marks(a@),
    ensures
        r.is_ok() <==> index_ok(a@, n as int),
        (r == Err::<Vec<u32>, CodecError>(CodecError::StepCollision)) <==> has_collision(
            a@,
            n as int,
        ),
        (r == Err::<Vec<u32>, CodecError>(CodecError::StepMissing)) <==> (!has_collision(
            a@,
            n as int,
        ) && !covered(a@, n as int)),
        r.is_ok() ==> {
            let v = r->Ok_0;
            &&& v@.len() == n as int + 1
            &&& forall|s: int| 1 <= s <= n ==> marked(a@, v@[s] as int, s)
            &&& forall|c: int, s: int|
                1 <= s <= n && #[trigger] marked(a@, c, s) ==> c == v@[s] as int
        },
{
    let ghost v: MarksView = a@;
    let mut idx: Vec<u32> = filled_u32(n, 0);
    let mut seen: Vec<bool> = filled_bool(n, false);
    proof {
        assert forall|s: int| 1 <= s <= n implies !scanned_any(v, 0, 0, s) by {
            if scanned_any(v, 0, 0, s) {
                let c = choose|c: int| #[trigger] scanned2(v, 0, 0, c, s);
                let (i1, j1) = choose|i1: int, j1: int|
                    0 <= i1 < v.len() && 0 <= j1 < v[i1].1.len() && (#[trigger] v[i1].1[j1]).0 == s
                        / 64 && bit_set(v[i1].1[j1].1, (s % 64) as u64) && v[i1].0 == c && (i1 < 0
                        || (i1 == 0 && j1 < 0));
            }
        }
        assert forall|c: int, s: int|
            1 <= s <= n && #[trigger] scanned2(v, 0, 0, c, s) implies false by {
            let (i1, j1) = choose|i1: int, j1: int|
                0 <= i1 < v.len() && 0 <= j1 < v[i1].1.len() && (#[trigger] v[i1].1[j1]).0 == s / 64
                    && bit_set(v[i1].1[j1].1, (s % 64) as u64) && v[i1].0 == c && (i1 < 0 || (i1
                    == 0 && j1 < 0));
        }
    }
    let mut i: usize = 0;
    while i < a.db.len()
        invariant
            i <= a.db@.len(),
            v == a@,
            wf_marks(v),
            v.len() == a.db@.len(),
            seen@.len() == n as int + 1,
            idx@.len() == n as int + 1,
            forall|s: int|
                1 <= s <= n ==> (seen@[s] <==> #[trigger] scanned_any(v, i as int, 0, s)),
            forall|c: int, s: int|
                1 <= s <= n && #[trigger] scanned2(v, i as int, 0, c, s) ==> seen@[s] && idx@[s] as int
                    == c,
        decreases a.db@.len() - i,
    {
        let pidx: u32 = a.db[i].pidx;
        proof {
            assert(v[i as int].0 == pidx as int);
        }
        let mut j: usize = 0;
        while j < a.db[i].pages.len()
            invariant
                i < a.db@.len(),
                j <= a.db@[i as int].pages@.len(),
                v == a@,
                wf_marks(v),
                v.len() == a.db@.len(),
                pidx == a.db@[i as int].pidx,
                seen@.len() == n as int + 1,
                idx@.len() == n as int + 1,
                forall|s: int|
                    1 <= s <= n ==> (seen@[s] <==> #[trigger] scanned_any(v, i as int, j as int, s)),
                forall|c: int, s: int|
                    1 <= s <= n && #[trigger] scanned2(v, i as int, j as int, c, s) ==> seen@[s]
                        && idx@[s] as int == c,
            decreases a.db@[i as int].pages@.len() - j,
        {
            let page: u32 = a.db[i].pages[j].page;
            let mask: u64 = a.db[i].pages[j].mask;
            proof {
                assert(v[i as int].1[j as int] == (page as int, mask));
            }
            let ghost seen0 = seen@;
            let ghost idx0 = idx@;
            let res = scan_page(&mut seen, &mut idx, pidx, page, mask, n);
            if res.is_err() {
                proof {
                    let s0 = choose|s: int|
                        1 <= s <= n && #[trigger] in_page(page as int, mask, n as int, s)
                            && seen0[s];
                    assert(scanned_any(v, i as int, j as int, s0));
                    let c1 = choose|c: int| #[trigger] scanned2(v, i as int, j as int, c, s0);
                    let (i1, j1) = choose|i1: int, j1: int|
                        0 <= i1 < v.len() && 0 <= j1 < v[i1].1.len() && (#[trigger] v[i1].1[j1]).0
                            == s0 / 64 && bit_set(v[i1].1[j1].1, (s0 % 64) as u64) && v[i1].0 == c1
                            && (i1 < i as int || (i1 == i as int && j1 < j as int));
                    if i1 == i as int {
                        assert(v[i1].1[j1].0 < v[i as int].1[j as int].0);
                        assert(false);
                    } else {
                        assert(v[i1].0 < v[i as int].0);
                        assert(marked(v, c1, s0));
                        assert(v[i as int].1[j as int].0 == s0 / 64 && bit_set(
                            v[i as int].1[j as int].1,
                            (s0 % 64) as u64,
                        ));
                        assert(crate::marks::pg_has(v[i as int].1, s0));
                        assert(marked(v, pidx as int, s0));
                        assert(has_collision(v, n as int));
                    }
                }
                return Err(CodecError::StepCollision);
            }
            proof {
                assert forall|s: int|
                    1 <= s <= n implies (seen@[s] <==> #[trigger] scanned_any(
                    v,
                    i as int,
                    j as int + 1,
                    s,
                )) by {
                    lemma_scanned_step_page(v, i as int, j as int, pidx as int, s);
                    if seen@[s] {
                        if seen0[s] {
                            assert(scanned_any(v, i as int, j as int, s));
                            let c1 = choose|c: int|
                                #[trigger] scanned2(v, i as int, j as int, c, s);
                            lemma_scanned_step_page(v, i as int, j as int, c1, s);
                            assert(scanned2(v, i as int, j as int + 1, c1, s));
                            assert(scanned_any(v, i as int, j as int + 1, s));
                        } else {
                            assert(in_page(page as int, mask, n as int, s));
                            assert(scanned2(v, i as int, j as int + 1, pidx as int, s));
                            assert(scanned_any(v, i as int, j as int + 1, s));
                        }
                    }
                    if scanned_any(v, i as int, j as int + 1, s) {
                        let c1 = choose|c: int|
                            #[trigger] scanned2(v, i as int, j as int + 1, c, s);
                        lemma_scanned_step_page(v, i as int, j as int, c1, s);
                        if scanned2(v, i as int, j as int, c1, s) {
                            assert(scanned_any(v, i as int, j as int, s));
                            assert(seen0[s]);
                            assert(seen@[s]);
                        } else {
                            assert(c1 == v[i as int].0 && v[i as int].1[j as int].0 == s / 64
                                && bit_set(v[i as int].1[j as int].1, (s % 64) as u64));
                            assert(in_page(page as int, mask, n as int, s));
                            assert(seen@[s]);
                        }
                    }
                }
                assert forall|c: int, s: int|
                    1 <= s <= n && #[trigger] scanned2(v, i as int, j as int + 1, c, s) implies seen@[s]
                    && idx@[s] as int == c by {
                    lemma_scanned_step_page(v, i as int, j as int, c, s);
                    if scanned2(v, i as int, j as int, c, s) {
                        assert(seen0[s] && idx0[s] as int == c);
                        assert(scanned_any(v, i as int, j as int, s));
                        if in_page(page as int, mask, n as int, s) {
                            assert(false);
                        }
                        assert(idx@[s] == idx0[s]);
                    } else {
                        assert(c == v[i as int].0);
                        assert(in_page(page as int, mask, n as int, s));
                        assert(idx@[s] == pidx);
                    }
                }
            }
            j = j + 1;
        }
        proof {
            assert forall|s: int|
                1 <= s <= n implies (seen@[s] <==> #[trigger] scanned_any(
                v,
                i as int + 1,
                0,
                s,
            )) by {
                if seen@[s] {
                    assert(scanned_any(v, i as int, v[i as int].1.len() as int, s));
                    let c1 = choose|c: int|
                        #[trigger] scanned2(v, i as int, v[i as int].1.len() as int, c, s);
                    lemma_scanned_next_cell(v, i as int, c1, s);
                    assert(scanned2(v, i as int + 1, 0, c1, s));
                    assert(scanned_any(v, i as int + 1, 0, s));
                }
                if scanned_any(v, i as int + 1, 0, s) {
                    let c1 = choose|c: int| #[trigger] scanned2(v, i as int + 1, 0, c, s);
                    lemma_scanned_next_cell(v, i as int, c1, s);
                    assert(scanned2(v, i as int, v[i as int].1.len() as int, c1, s));
                    assert(scanned_any(v, i as int, v[i as int].1.len() as int, s));
                }
            }
            assert forall|c: int, s: int|
                1 <= s <= n && #[trigger] scanned2(v, i as int + 1, 0, c, s) implies seen@[s]
                && idx@[s] as int == c by {
                lemma_scanned_next_cell(v, i as int, c, s);
            }
        }
        i = i + 1;
    }
    proof {
        assert forall|c: int, s: int|
            1 <= s <= n && #[trigger] marked(v, c, s) implies seen@[s] && idx@[s] as int == c by {
            lemma_scanned_end(v, c, s);
            assert(scanned2(v, v.len() as int, 0, c, s));
        }
        assert(!has_collision(v, n as int)) by {
            if has_collision(v, n as int) {
                let (s, c1, c2) = choose|s: int, c1: int, c2: int|
                    1 <= s <= n && c1 != c2 && #[trigger] marked(v, c1, s) && #[trigger] marked(
                        v,
                        c2,
                        s,
                    );
                assert(idx@[s] as int == c1 && idx@[s] as int == c2);
            }
        }
        assert forall|k: int| 1 <= k <= n && seen@[k] implies #[trigger] step_has_cell(a@, k)
            && marked(a@, idx@[k] as int, k) by {
            assert(scanned_any(v, v.len() as int, 0, k));
            let c1 = choose|c: int| #[trigger] scanned2(v, v.len() as int, 0, c, k);
            lemma_scanned_end(v, c1, k);
            assert(marked(v, c1, k));
        }
    }
    let mut s: u64 = 1;
    while s <= n as u64
        invariant
            1 <= s <= n as u64 + 1,
            seen@.len() == n as int + 1,
            idx@.len() == n as int + 1,
            forall|k: int| 1 <= k < s ==> seen@[k],
            forall|k: int|
                1 <= k <= n && seen@[k] ==> #[trigger] step_has_cell(a@, k) && marked(
                    a@,
                    idx@[k] as int,
                    k,
                ),
            forall|c: int, k: int|
                1 <= k <= n && #[trigger] marked(a@, c, k) ==> seen@[k] && idx@[k] as int == c,
            !has_collision(a@, n as int),
        decreases n as u64 + 1 - s,
    {
        if !seen[s as usize] {
            proof {
                assert(!step_has_cell(a@, s as int)) by {
                    if step_has_cell(a@, s as int) {
                        let c = choose|c: int| #[trigger] marked(a@, c, s as int);
                        assert(seen@[s as int]);
                    }
                }
                assert(!covered(a@, n as int));
            }
            return Err(CodecError::StepMissing);
        }
        s = s + 1;
    }
    proof {
        assert forall|k: int| 1 <= k <= n implies #[trigger] step_has_cell(a@, k) by {
            assert(seen@[k]);
        }
        assert(covered(a@, n as int));
        assert forall|k: int| 1 <= k <= n implies marked(a@, idx@[k] as int, k) by {
            assert(step_has_cell(a@, k));
        }
    }
    Ok(idx)
}

} // verus!
