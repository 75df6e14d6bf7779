//! The sparse step marker set, stored canonically: cells in ascending order,
//! pages in ascending order within each cell.

use crate::errors::CodecError;
use crate::marks::{
    bit_set, db_clear, db_set, kv_sorted, lemma_db_clear_effect, lemma_db_set_effect,
    lemma_kv_lb_unique, marked, pg_set, tidy_marks, wf_marks, MarksView, PagesView,
};
use crate::params::PIXELS;
use vstd::prelude::*;

verus! {

#[derive(Clone, Copy, Debug)]
pub struct PageRec {
    pub page: u32,
    pub mask: u64,
}

#[derive(Clone, Debug)]
pub struct CellRec {
    pub pidx: u32,
    pub pages: Vec<PageRec>,
}

/// Sparse per-cell record of which steps have touched each cell.
#[derive(Clone, Debug)]
pub struct ABitset {
    pub db: Vec<CellRec>,
}

pub open spec fn pages_view(ps: Seq<PageRec>) -> PagesView {
    ps.map_values(|p: PageRec| (p.page as int, p.mask))
}

pub open spec fn db_view(db: Seq<CellRec>) -> MarksView {
    db.map_values(|c: CellRec| (c.pidx as int, pages_view(c.pages@)))
}

impl View for ABitset {
    type V = MarksView;

    open spec fn view(&self) -> MarksView {
        db_view(self.db@)
    }
}

proof fn lemma_raw_sorted(db: Seq<CellRec>)
    requires
        kv_sorted(db_view(db)),
    ensures
        forall|i: int, j: int|
            0 <= i < j < db.len() ==> (#[trigger] db[i]).pidx < (#[trigger] db[j]).pidx,
{
    assert forall|i: int, j: int|
        0 <= i < j < db.len() implies (#[trigger] db[i]).pidx < (#[trigger] db[j]).pidx by {
        assert(db_view(db)[i].0 < db_view(db)[j].0);
    }
}

proof fn lemma_raw_pg_sorted(ps: Seq<PageRec>)
    requires
        kv_sorted(pages_view(ps)),
    ensures
        forall|i: int, j: int|
            0 <= i < j < ps.len() ==> (#[trigger] ps[i]).page < (#[trigger] ps[j]).page,
{
    assert forall|i: int, j: int|
        0 <= i < j < ps.len() implies (#[trigger] ps[i]).page < (#[trigger] ps[j]).page by {
        assert(pages_view(ps)[i].0 < pages_view(ps)[j].0);
    }
}

fn find_cell(db: &Vec<CellRec>, key: u32) -> (r: (bool, usize))
    requires
        forall|i: int, j: int|
            0 <= i < j < db@.len() ==> (#[trigger] db@[i]).pidx < (#[trigger] db@[j]).pidx,
    ensures
        r.1 <= db@.len(),
        forall|i: int| 0 <= i < r.1 ==> (#[trigger] db@[i]).pidx < key,
        forall|i: int| r.1 <= i < db@.len() ==> (#[trigger] db@[i]).pidx >= key,
        r.0 <==> (r.1 < db@.len() && db@[r.1 as int].pidx == key),
{
    let mut lo: usize = 0;
    let mut hi: usize = db.len();
    while lo < hi
        invariant
            lo <= hi <= db@.len(),
            forall|i: int| 0 <= i < lo ==> (#[trigger] db@[i]).pidx < key,
            forall|i: int| hi <= i < db@.len() ==> (#[trigger] db@[i]).pidx >= key,
            forall|i: int, j: int|
                0 <= i < j < db@.len() ==> (#[trigger] db@[i]).pidx < (#[trigger] db@[j]).pidx,
        decreases hi - lo,
    {
        let mid = lo + (hi - lo) / 2;
        if db[mid].pidx < key {
            assert forall|i: int| 0 <= i < mid + 1 implies (#[trigger] db@[i]).pidx < key by {
                if i < mid {
                    assert(db@[i].pidx < db@[mid as int].pidx);
                }
            }
            lo = mid + 1;
        } else {
            assert forall|i: int| mid <= i < db@.len() implies (#[trigger] db@[i]).pidx >= key by {
                if i > mid {
                    assert(db@[mid as int].pidx < db@[i].pidx);
                }
            }
            hi = mid;
        }
    }
    if lo < db.len() {
        (db[lo].pidx == key, lo)
    } else {
        (false, lo)
    }
}

fn find_page(ps: &Vec<PageRec>, key: u32) -> (r: (bool, usize))
    requires
        forall|i: int, j: int|
            0 <= i < j < ps@.len() ==> (#[trigger] ps@[i]).page < (#[trigger] ps@[j]).page,
    ensures
        r.1 <= ps@.len(),
        forall|i: int| 0 <= i < r.1 ==> (#[trigger] ps@[i]).page < key,
        forall|i: int| r.1 <= i < ps@.len() ==> (#[trigger] ps@[i]).page >= key,
        r.0 <==> (r.1 < ps@.len() && ps@[r.1 as int].page == key),
{
    let mut lo: usize = 0;
    let mut hi: usize = ps.len();
    while lo < hi
        invariant
            lo <= hi <= ps@.len(),
            forall|i: int| 0 <= i < lo ==> (#[trigger] ps@[i]).page < key,
            forall|i: int| hi <= i < ps@.len() ==> (#[trigger] ps@[i]).page >= key,
            forall|i: int, j: int|
                0 <= i < j < ps@.len() ==> (#[trigger] ps@[i]).page < (#[trigger] ps@[j]).page,
        decreases hi - lo,
    {
        let mid = lo + (hi - lo) / 2;
        if ps[mid].page < key {
            assert forall|i: int| 0 <= i < mid + 1 implies (#[trigger] ps@[i]).page < key by {
                if i < mid {
                    assert(ps@[i].page < ps@[mid as int].page);
                }
            }
            lo = mid + 1;
        } else {
            assert forall|i: int| mid <= i < ps@.len() implies (#[trigger] ps@[i]).page >= key by {
                if i > mid {
                    assert(ps@[mid as int].page < ps@[i].page);
                }
            }
            hi = mid;
        }
    }
    if lo < ps.len() {
        (ps[lo].page == key, lo)
    } else {
        (false, lo)
    }
}

impl ABitset {
    /// Fresh, empty marker set.
    pub fn new() -> (a: ABitset)
        ensures
            a@.len() == 0,
            wf_marks(a@),
            tidy_marks(a@),
    {
        ABitset { db: Vec::new() }
    }

    /// True iff no cell entries remain.
    pub fn is_empty(&self) -> (r: bool)
        ensures
            r <==> self@.len() == 0,
    {
        self.db.len() == 0
    }

    /// Set the bit for `step` within the pages of cell `pidx`, creating the
    /// cell and page entries on demand.
    pub fn set_step(&mut self, pidx: u32, step: u32)
        requires
            wf_marks(old(self)@),
            pidx < PIXELS as u32,
        ensures
            wf_marks(final(self)@),
            final(self)@ == db_set(old(self)@, pidx as int, step as int),
            tidy_marks(old(self)@) ==> tidy_marks(final(self)@),
            forall|c2: int, s2: int|
                0 <= s2 ==> (marked(final(self)@, c2, s2) <==> (marked(old(self)@, c2, s2) || (c2
                    == pidx as int && s2 == step as int))),
    {
        proof {
            lemma_db_set_effect(self@, pidx as int, step as int);
            lemma_raw_sorted(self.db@);
        }
        let ghost v0: MarksView = self@;
        let page: u32 = step / 64;
        let bit: u32 = step % 64;
        let m: u64 = 1u64 << (bit as u64);
        let (found, i) = find_cell(&self.db, pidx);
        proof {
            assert forall|k: int| 0 <= k < i as int implies (#[trigger] v0[k]).0 < pidx as int by {
                assert(v0[k].0 == self.db@[k].pidx as int);
            }
            assert forall|k: int| i as int <= k < v0.len() implies (#[trigger] v0[k]).0
                >= pidx as int by {
                assert(v0[k].0 == self.db@[k].pidx as int);
            }
            lemma_kv_lb_unique(v0, pidx as int, i as int);
        }
        if found {
            let ghost ps0: PagesView = v0[i as int].1;
            proof {
                lemma_raw_pg_sorted(self.db@[i as int].pages@);
            }
            let (pfound, j) = find_page(&self.db[i].pages, page);
            proof {
                let raw = self.db@[i as int].pages@;
                assert forall|k: int| 0 <= k < j as int implies (#[trigger] ps0[k]).0
                    < page as int by {
                    assert(ps0[k].0 == raw[k].page as int);
                }
                assert forall|k: int| j as int <= k < ps0.len() implies (#[trigger] ps0[k]).0
                    >= page as int by {
                    assert(ps0[k].0 == raw[k].page as int);
                }
                lemma_kv_lb_unique(ps0, page as int, j as int);
            }
            let mut cell = self.db.remove(i);
            if pfound {
                let old_mask = cell.pages[j].mask;
                cell.pages[j] = PageRec { page, mask: old_mask | m };
            } else {
                cell.pages.insert(j, PageRec { page, mask: m });
            }
            self.db.insert(i, cell);
            proof {
                let p = (step as int) / 64;
                let b = ((step as int) % 64) as u64;
                assert(pages_view(self.db@[i as int].pages@) =~~= pg_set(ps0, p, b));
                assert(self@ =~~= db_set(v0, pidx as int, step as int));
            }
        } else {
            let mut pages: Vec<PageRec> = Vec::new();
            pages.push(PageRec { page, mask: m });
            self.db.insert(i, CellRec { pidx, pages });
            proof {
                assert(self@ =~~= db_set(v0, pidx as int, step as int));
            }
        }
    }

    /// Clear the bit for `step` within cell `pidx`. Fails with the marker
    /// consistency error iff the cell, the page or the bit is absent; on
    /// clearing the last bit of a page the page entry is removed, and on
    /// removing the last page of a cell the cell entry is removed.
    pub fn clear_step(&mut self, pidx: u32, step: u32) -> (r: Result<(), CodecError>)
        requires
            wf_marks(old(self)@),
        ensures
            wf_marks(final(self)@),
            marked(old(self)@, pidx as int, step as int) ==> r == Ok::<(), CodecError>(())
                && final(self)@ == db_clear(old(self)@, pidx as int, step as int),
            !marked(old(self)@, pidx as int, step as int) ==> r == Err::<(), CodecError>(
                CodecError::MarkerMismatch,
            ) && final(self)@ == old(self)@,
    {
        proof {
            lemma_raw_sorted(self.db@);
        }
        let ghost v0: MarksView = self@;
        let page: u32 = step / 64;
        let bit: u32 = step % 64;
        let m: u64 = 1u64 << (bit as u64);
        let (found, i) = find_cell(&self.db, pidx);
        proof {
            assert forall|k: int| 0 <= k < i as int implies (#[trigger] v0[k]).0 < pidx as int by {
                assert(v0[k].0 == self.db@[k].pidx as int);
            }
            assert forall|k: int| i as int <= k < v0.len() implies (#[trigger] v0[k]).0
                >= pidx as int by {
                assert(v0[k].0 == self.db@[k].pidx as int);
            }
            lemma_kv_lb_unique(v0, pidx as int, i as int);
        }
        if !found {
            proof {
                if marked(v0, pidx as int, step as int) {
                    let iw = choose|iw: int|
                        0 <= iw < v0.len() && (#[trigger] v0[iw]).0 == pidx as int && crate::marks::pg_has(
                            v0[iw].1,
                            step as int,
                        );
                    assert(v0[iw].0 == self.db@[iw].pidx as int);
                }
            }
            return Err(CodecError::MarkerMismatch);
        }
        let ghost ps0: PagesView = v0[i as int].1;
        proof {
            lemma_raw_pg_sorted(self.db@[i as int].pages@);
        }
        let (pfound, j) = find_page(&self.db[i].pages, page);
        proof {
            let raw = self.db@[i as int].pages@;
            assert forall|k: int| 0 <= k < j as int implies (#[trigger] ps0[k]).0 < page as int by {
                assert(ps0[k].0 == raw[k].page as int);
            }
            assert forall|k: int| j as int <= k < ps0.len() implies (#[trigger] ps0[k]).0
                >= page as int by {
                assert(ps0[k].0 == raw[k].page as int);
            }
            lemma_kv_lb_unique(ps0, page as int, j as int);
        }
        if !pfound {
            proof {
                if marked(v0, pidx as int, step as int) {
                    let iw = choose|iw: int|
                        0 <= iw < v0.len() && (#[trigger] v0[iw]).0 == pidx as int && crate::marks::pg_has(
                            v0[iw].1,
                            step as int,
                        );
                    assert(iw == i as int);
                    let jw = choose|jw: int|
                        0 <= jw < ps0.len() && (#[trigger] ps0[jw]).0 == (step as int) / 64
                            && bit_set(ps0[jw].1, ((step as int) % 64) as u64);
                    assert(ps0[jw].0 == self.db@[i as int].pages@[jw].page as int);
                }
            }
            return Err(CodecError::MarkerMismatch);
        }
        let word = self.db[i].pages[j].mask;
        if (word >> (bit as u64)) & 1 == 0 {
            proof {
                if marked(v0, pidx as int, step as int) {
                    let iw = choose|iw: int|
                        0 <= iw < v0.len() && (#[trigger] v0[iw]).0 == pidx as int && crate::marks::pg_has(
                            v0[iw].1,
                            step as int,
                        );
                    assert(iw == i as int);
                    let jw = choose|jw: int|
                        0 <= jw < ps0.len() && (#[trigger] ps0[jw]).0 == (step as int) / 64
                            && bit_set(ps0[jw].1, ((step as int) % 64) as u64);
                    assert(jw == j as int);
                }
            }
            return Err(CodecError::MarkerMismatch);
        }
        proof {
            assert((word >> (bit as u64)) & 1 == 1) by (bit_vector)
                requires
                    (word >> (bit as u64)) & 1 != 0,
            ;
            assert(ps0[j as int].0 == (step as int) / 64 && bit_set(
                ps0[j as int].1,
                ((step as int) % 64) as u64,
            ));
            assert(crate::marks::pg_has(ps0, step as int));
            assert(v0[i as int].0 == pidx as int);
            assert(marked(v0, pidx as int, step as int));
            lemma_db_clear_effect(v0, pidx as int, step as int);
        }
        let w2 = word & !m;
        let mut cell = self.db.remove(i);
        if w2 == 0 {
            cell.pages.remove(j);
            if cell.pages.len() == 0 {
                proof {
                    assert(self@ =~~= db_clear(v0, pidx as int, step as int));
                }
            } else {
                self.db.insert(i, cell);
                proof {
                    assert(pages_view(self.db@[i as int].pages@) =~~= crate::marks::pg_clear(
                        ps0,
                        (step as int) / 64,
                        ((step as int) % 64) as u64,
                    ));
                    assert(self@ =~~= db_clear(v0, pidx as int, step as int));
                }
            }
        } else {
            cell.pages[j] = PageRec { page, mask: w2 };
            self.db.insert(i, cell);
            proof {
                assert(pages_view(self.db@[i as int].pages@) =~~= crate::marks::pg_clear(
                    ps0,
                    (step as int) / 64,
                    ((step as int) % 64) as u64,
                ));
                assert(self@ =~~= db_clear(v0, pidx as int, step as int));
            }
        }
        Ok(())
    }
}

/// Insert-or-replace one page record, keeping the pages sorted (container
/// parsing: a repeated page index keeps the last mask read).
pub(crate) fn put_page(pages: &mut Vec<PageRec>, page: u32, mask: u64)
    requires
        kv_sorted(pages_view(old(pages)@)),
    ensures
        pages_view(final(pages)@) == crate::marks::pg_put(
            pages_view(old(pages)@),
            page as int,
            mask,
        ),
        kv_sorted(pages_view(final(pages)@)),
{
    proof {
        lemma_raw_pg_sorted(pages@);
        crate::marks::lemma_pg_put_sorted(pages_view(pages@), page as int, mask);
        assert forall|j: int| 0 <= j < pages@.len() implies 0 <= (#[trigger] pages_view(
            pages@,
        )[j]).0 < 0x1_0000_0000 by {
            assert(pages_view(pages@)[j].0 == pages@[j].page as int);
        }
    }
    let ghost ps0: PagesView = pages_view(pages@);
    let (pfound, j) = find_page(pages, page);
    proof {
        assert forall|k: int| 0 <= k < j as int implies (#[trigger] ps0[k]).0 < page as int by {
            assert(ps0[k].0 == pages@[k].page as int);
        }
        assert forall|k: int| j as int <= k < ps0.len() implies (#[trigger] ps0[k]).0
            >= page as int by {
            assert(ps0[k].0 == pages@[k].page as int);
        }
        lemma_kv_lb_unique(ps0, page as int, j as int);
    }
    if pfound {
        pages[j] = PageRec { page, mask };
        proof {
            assert(pages_view(pages@) =~~= crate::marks::pg_put(ps0, page as int, mask));
        }
    } else {
        pages.insert(j, PageRec { page, mask });
        proof {
            assert(pages_view(pages@) =~~= crate::marks::pg_put(ps0, page as int, mask));
        }
    }
}

/// Insert-or-replace one whole cell record, keeping the cells sorted
/// (container parsing: a repeated cell index keeps the last pages read).
pub(crate) fn put_cell(a: &mut ABitset, pidx: u32, pages: Vec<PageRec>)
    requires
        wf_marks(old(a)@),
        kv_sorted(pages_view(pages@)),
        pidx < PIXELS as u32,
    ensures
        final(a)@ == crate::marks::db_put(old(a)@, pidx as int, pages_view(pages@)),
        wf_marks(final(a)@),
{
    proof {
        lemma_raw_sorted(a.db@);
        assert forall|j: int| 0 <= j < pages@.len() implies 0 <= (#[trigger] pages_view(
            pages@,
        )[j]).0 < 0x1_0000_0000 by {
            assert(pages_view(pages@)[j].0 == pages@[j].page as int);
        }
        crate::marks::lemma_db_put_wf(a@, pidx as int, pages_view(pages@));
    }
    let ghost v0: MarksView = a@;
    let (found, i) = find_cell(&a.db, pidx);
    proof {
        assert forall|k: int| 0 <= k < i as int implies (#[trigger] v0[k]).0 < pidx as int by {
            assert(v0[k].0 == a.db@[k].pidx as int);
        }
        assert forall|k: int| i as int <= k < v0.len() implies (#[trigger] v0[k]).0
            >= pidx as int by {
            assert(v0[k].0 == a.db@[k].pidx as int);
        }
        lemma_kv_lb_unique(v0, pidx as int, i as int);
    }
    if found {
        a.db[i] = CellRec { pidx, pages };
        proof {
            assert(a@ =~~= crate::marks::db_put(v0, pidx as int, pages_view(a.db@[i as int].pages@)));
        }
    } else {
        a.db.insert(i, CellRec { pidx, pages });
        proof {
            assert(a@ =~~= crate::marks::db_put(v0, pidx as int, pages_view(a.db@[i as int].pages@)));
        }
    }
}

} // verus!
