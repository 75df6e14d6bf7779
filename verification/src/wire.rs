//! The container's byte layout as a mathematical model: what packing writes
//! and what parsing reads, with the proof that parsing inverts packing.

use crate::bytes::{
    le16_at, le32_at, le64_at, lemma_le16_of, lemma_le32_of, lemma_le64_of, u16_le, u32_le, u64_le,
};
use crate::marks::{
    db_put, kv_sorted, lemma_kv_lb_unique, lemma_kv_len_le, pages_in_range, pg_put, wf_marks,
    MarksView, PagesView,
};
use crate::params::RG_LIMIT_EXACT;
use vstd::prelude::*;

verus! {

/// The four magic bytes that open every container.
pub open spec fn magic_seq() -> Seq<u8> {
    seq![0x43u8, 0x56u8, 0x50u8, 0x31u8]
}

pub open spec fn plane_bytes(vals: Seq<u64>) -> Seq<u8>
    decreases vals.len(),
{
    if vals.len() == 0 {
        Seq::empty()
    } else {
        u64_le(vals[0]) + plane_bytes(vals.drop_first())
    }
}

pub open spec fn pages_bytes(ps: PagesView) -> Seq<u8>
    decreases ps.len(),
{
    if ps.len() == 0 {
        Seq::empty()
    } else {
        u32_le(ps[0].0 as u32) + u64_le(ps[0].1) + pages_bytes(ps.drop_first())
    }
}

pub open spec fn entries_bytes(v: MarksView) -> Seq<u8>
    decreases v.len(),
{
    if v.len() == 0 {
        Seq::empty()
    } else {
        u32_le(v[0].0 as u32) + u16_le(v[0].1.len() as u16) + pages_bytes(v[0].1) + entries_bytes(
            v.drop_first(),
        )
    }
}

pub open spec fn header_bytes(n: u32) -> Seq<u8> {
    magic_seq() + u32_le(512) + u32_le(512) + u32_le(n) + u64_le(RG_LIMIT_EXACT)
}

/// The exact bytes of the container holding planes `r` and `g`, marker set
/// `v` and step count `n`.
pub open spec fn pack_bytes(r: Seq<u64>, g: Seq<u64>, v: MarksView, n: u32) -> Seq<u8> {
    header_bytes(n) + plane_bytes(r) + plane_bytes(g) + u32_le(v.len() as u32) + entries_bytes(v)
}

pub open spec fn parse_u64s(s: Seq<u8>, off: int, cnt: int) -> Seq<u64>
    decreases cnt,
{
    if cnt <= 0 {
        Seq::empty()
    } else {
        seq![le64_at(s, off)] + parse_u64s(s, off + 8, cnt - 1)
    }
}

pub open spec fn parse_pages(s: Seq<u8>, off: int, cnt: int, acc: PagesView) -> PagesView
    decreases cnt,
{
    if cnt <= 0 {
        acc
    } else {
        parse_pages(s, off + 12, cnt - 1, pg_put(acc, le32_at(s, off) as int, le64_at(s, off + 4)))
    }
}

pub open spec fn parse_entries(s: Seq<u8>, off: int, cnt: int, acc: MarksView) -> Option<
    (MarksView, int),
>
    decreases cnt,
{
    if cnt <= 0 {
        Some((acc, off))
    } else if off + 6 > s.len() {
        None
    } else {
        let pidx = le32_at(s, off);
        let pcnt = le16_at(s, off + 4) as int;
        if pidx >= 262144 {
            None
        } else if off + 6 + 12 * pcnt > s.len() {
            None
        } else {
            let ps = parse_pages(s, off + 6, pcnt, Seq::empty());
            parse_entries(s, off + 6 + 12 * pcnt, cnt - 1, db_put(acc, pidx as int, ps))
        }
    }
}

/// The whole container, parsed: `None` is a format error.
pub open spec fn parse_raw(s: Seq<u8>) -> Option<(Seq<u64>, Seq<u64>, MarksView, u32)> {
    if s.len() < 4 {
        None
    } else if s.subrange(0, 4) != magic_seq() {
        None
    } else if s.len() < 24 {
        None
    } else if le32_at(s, 4) != 512 || le32_at(s, 8) != 512 {
        None
    } else if le64_at(s, 16) != RG_LIMIT_EXACT {
        None
    } else if s.len() < 24 + 16 * 262144 + 4 {
        None
    } else {
        let n = le32_at(s, 12);
        let r = parse_u64s(s, 24, 262144);
        let g = parse_u64s(s, (24 + 8 * 262144) as int, 262144);
        let ec = le32_at(s, (24 + 16 * 262144) as int) as int;
        match parse_entries(s, (24 + 16 * 262144 + 4) as int, ec, Seq::empty()) {
            None => None,
            Some((v, end)) => Some((r, g, v, n)),
        }
    }
}

pub proof fn lemma_plane_bytes_len(vals: Seq<u64>)
    ensures
        plane_bytes(vals).len() == 8 * vals.len(),
    decreases vals.len(),
{
    if vals.len() > 0 {
        lemma_plane_bytes_len(vals.drop_first());
    }
}

pub proof fn lemma_pages_bytes_len(ps: PagesView)
    ensures
        pages_bytes(ps).len() == 12 * ps.len(),
    decreases ps.len(),
{
    if ps.len() > 0 {
        lemma_pages_bytes_len(ps.drop_first());
    }
}

pub proof fn lemma_entries_bytes_len(v: MarksView)
    ensures
        entries_bytes(v).len() >= 0,
    decreases v.len(),
{
}

pub proof fn lemma_plane_bytes_snoc(x: Seq<u64>, v: u64)
    ensures
        plane_bytes(x.push(v)) == plane_bytes(x) + u64_le(v),
    decreases x.len(),
{
    let t = x.push(v).drop_first();
    if x.len() == 0 {
        assert(t =~= x);
        assert(plane_bytes(x.push(v)) == u64_le(x.push(v)[0]) + plane_bytes(t));
        assert(x.push(v)[0] == v);
        assert(plane_bytes(x.push(v)) =~= plane_bytes(x) + u64_le(v));
    } else {
        assert(t =~= x.drop_first().push(v));
        lemma_plane_bytes_snoc(x.drop_first(), v);
        assert(plane_bytes(x.push(v)) == u64_le(x.push(v)[0]) + plane_bytes(t));
        assert(x.push(v)[0] == x[0]);
        assert(plane_bytes(x.push(v)) =~= plane_bytes(x) + u64_le(v));
    }
}

pub proof fn lemma_pages_bytes_snoc(x: PagesView, e: (int, u64))
    ensures
        pages_bytes(x.push(e)) == pages_bytes(x) + (u32_le(e.0 as u32) + u64_le(e.1)),
    decreases x.len(),
{
    let t = x.push(e).drop_first();
    if x.len() == 0 {
        assert(t =~= x);
        assert(pages_bytes(x.push(e)) == u32_le(x.push(e)[0].0 as u32) + u64_le(x.push(e)[0].1)
            + pages_bytes(t));
        assert(x.push(e)[0] == e);
        assert(pages_bytes(x.push(e)) =~= pages_bytes(x) + (u32_le(e.0 as u32) + u64_le(e.1)));
    } else {
        assert(t =~= x.drop_first().push(e));
        lemma_pages_bytes_snoc(x.drop_first(), e);
        assert(pages_bytes(x.push(e)) == u32_le(x.push(e)[0].0 as u32) + u64_le(x.push(e)[0].1)
            + pages_bytes(t));
        assert(x.push(e)[0] == x[0]);
        assert(pages_bytes(x.push(e)) =~= pages_bytes(x) + (u32_le(e.0 as u32) + u64_le(e.1)));
    }
}

pub proof fn lemma_entries_bytes_snoc(x: MarksView, e: (int, PagesView))
    ensures
        entries_bytes(x.push(e)) == entries_bytes(x) + (u32_le(e.0 as u32) + u16_le(
            e.1.len() as u16,
        ) + pages_bytes(e.1)),
    decreases x.len(),
{
    let t = x.push(e).drop_first();
    if x.len() == 0 {
        assert(t =~= x);
        assert(entries_bytes(x.push(e)) == u32_le(x.push(e)[0].0 as u32) + u16_le(
            x.push(e)[0].1.len() as u16,
        ) + pages_bytes(x.push(e)[0].1) + entries_bytes(t));
        assert(x.push(e)[0] == e);
        assert(entries_bytes(x.push(e)) =~= entries_bytes(x) + (u32_le(e.0 as u32) + u16_le(
            e.1.len() as u16,
        ) + pages_bytes(e.1)));
    } else {
        assert(t =~= x.drop_first().push(e));
        lemma_entries_bytes_snoc(x.drop_first(), e);
        assert(entries_bytes(x.push(e)) == u32_le(x.push(e)[0].0 as u32) + u16_le(
            x.push(e)[0].1.len() as u16,
        ) + pages_bytes(x.push(e)[0].1) + entries_bytes(t));
        assert(x.push(e)[0] == x[0]);
        assert(entries_bytes(x.push(e)) =~= entries_bytes(x) + (u32_le(e.0 as u32) + u16_le(
            e.1.len() as u16,
        ) + pages_bytes(e.1)));
    }
}

pub proof fn lemma_parse_u64s_snoc(s: Seq<u8>, off: int, c: int)
    requires
        0 <= c,
    ensures
        parse_u64s(s, off, c + 1) == parse_u64s(s, off, c).push(le64_at(s, off + 8 * c)),
    decreases c,
{
    if c == 0 {
        assert(parse_u64s(s, off + 8, 0) =~= Seq::<u64>::empty());
        assert(parse_u64s(s, off, 0) =~= Seq::<u64>::empty());
        assert(parse_u64s(s, off, 1) =~= parse_u64s(s, off, 0).push(le64_at(s, off)));
    } else {
        lemma_parse_u64s_snoc(s, off + 8, c - 1);
        assert(parse_u64s(s, off, c + 1) =~= parse_u64s(s, off, c).push(le64_at(s, off + 8 * c)));
    }
}

/// A container that parses passed every header gate.
pub proof fn lemma_parse_some_gates(s: Seq<u8>)
    requires
        parse_raw(s).is_some(),
    ensures
        s.len() >= 24 + 16 * 262144 + 4,
        s.subrange(0, 4) == magic_seq(),
        le32_at(s, 4) == 512,
        le32_at(s, 8) == 512,
        le64_at(s, 16) == RG_LIMIT_EXACT,
{
}

/// Putting a key above every key of a sorted accumulator appends.
pub proof fn lemma_pg_put_append(acc: PagesView, p: int, m: u64)
    requires
        kv_sorted(acc),
        forall|j: int| 0 <= j < acc.len() ==> (#[trigger] acc[j]).0 < p,
    ensures
        pg_put(acc, p, m) == acc.push((p, m)),
{
    lemma_kv_lb_unique(acc, p, acc.len() as int);
    acc.insert_ensures(acc.len() as int, (p, m));
    assert(pg_put(acc, p, m) =~= acc.push((p, m)));
}

pub proof fn lemma_db_put_append(acc: MarksView, c: int, ps: PagesView)
    requires
        kv_sorted(acc),
        forall|j: int| 0 <= j < acc.len() ==> (#[trigger] acc[j]).0 < c,
    ensures
        db_put(acc, c, ps) == acc.push((c, ps)),
{
    lemma_kv_lb_unique(acc, c, acc.len() as int);
    acc.insert_ensures(acc.len() as int, (c, ps));
    assert(db_put(acc, c, ps) =~= acc.push((c, ps)));
}

pub proof fn lemma_parse_u64s_inv(pre: Seq<u8>, vals: Seq<u64>, suf: Seq<u8>)
    ensures
        parse_u64s(pre + plane_bytes(vals) + suf, pre.len() as int, vals.len() as int) == vals,
    decreases vals.len(),
{
    let s = pre + plane_bytes(vals) + suf;
    if vals.len() == 0 {
        assert(parse_u64s(s, pre.len() as int, 0) =~= vals);
    } else {
        let v0 = vals[0];
        let rest = vals.drop_first();
        lemma_plane_bytes_len(vals);
        assert forall|k: int| 0 <= k < 8 implies s[pre.len() + k] == #[trigger] u64_le(v0)[k] by {
            assert(plane_bytes(vals)[k] == u64_le(v0)[k]);
        }
        lemma_le64_of(s, pre.len() as int, v0);
        let pre2 = pre + u64_le(v0);
        assert(s =~= pre2 + plane_bytes(rest) + suf);
        lemma_parse_u64s_inv(pre2, rest, suf);
        assert(parse_u64s(s, pre.len() as int, vals.len() as int) =~= vals);
    }
}

pub proof fn lemma_parse_pages_inv(pre: Seq<u8>, ps: PagesView, suf: Seq<u8>, acc: PagesView)
    requires
        kv_sorted(ps),
        pages_in_range(ps),
        kv_sorted(acc),
        forall|j: int, k: int|
            0 <= j < acc.len() && 0 <= k < ps.len() ==> (#[trigger] acc[j]).0 < (#[trigger] ps[k]).0,
    ensures
        parse_pages(pre + pages_bytes(ps) + suf, pre.len() as int, ps.len() as int, acc) == acc
            + ps,
    decreases ps.len(),
{
    let s = pre + pages_bytes(ps) + suf;
    if ps.len() == 0 {
        assert(parse_pages(s, pre.len() as int, 0, acc) =~= acc + ps);
    } else {
        let (p0, m0) = ps[0];
        let rest = ps.drop_first();
        lemma_pages_bytes_len(ps);
        assert forall|k: int| 0 <= k < 4 implies s[pre.len() + k] == #[trigger] u32_le(p0 as u32)[k] by {
            assert(pages_bytes(ps)[k] == u32_le(p0 as u32)[k]);
        }
        assert forall|k: int| 0 <= k < 8 implies s[pre.len() + 4 + k] == #[trigger] u64_le(m0)[k] by {
            assert(pages_bytes(ps)[4 + k] == (u32_le(p0 as u32) + u64_le(m0) + pages_bytes(rest))[4
                + k]);
        }
        lemma_le32_of(s, pre.len() as int, p0 as u32);
        lemma_le64_of(s, pre.len() as int + 4, m0);
        assert(le32_at(s, pre.len() as int) as int == p0);
        assert forall|j: int| 0 <= j < acc.len() implies (#[trigger] acc[j]).0 < p0 by {
            assert(acc[j].0 < ps[0].0);
        }
        lemma_pg_put_append(acc, p0, m0);
        let acc2 = acc.push((p0, m0));
        let pre2 = pre + u32_le(p0 as u32) + u64_le(m0);
        assert(s =~= pre2 + pages_bytes(rest) + suf);
        assert(kv_sorted(acc2) && forall|j: int, k: int|
            0 <= j < acc2.len() && 0 <= k < rest.len() ==> (#[trigger] acc2[j]).0 < (
            #[trigger] rest[k]).0) by {
            assert(forall|k: int| 0 <= k < rest.len() ==> rest[k] == ps[k + 1]);
            assert forall|j: int, k: int|
                0 <= j < acc2.len() && 0 <= k < rest.len() implies (#[trigger] acc2[j]).0 < (
            #[trigger] rest[k]).0 by {
                assert(rest[k] == ps[k + 1]);
                if j < acc.len() {
                    assert(acc2[j] == acc[j]);
                } else {
                    assert(acc2[j] == (p0, m0));
                    assert(ps[0].0 < ps[k + 1].0);
                }
            }
            assert forall|i: int, j: int| 0 <= i < j < acc2.len() implies (#[trigger] acc2[i]).0 < (
            #[trigger] acc2[j]).0 by {
                if j < acc.len() {
                    assert(acc2[i] == acc[i] && acc2[j] == acc[j]);
                } else {
                    assert(acc2[j] == (p0, m0));
                    assert(acc2[i] == acc[i]);
                }
            }
        }
        assert(kv_sorted(rest) && pages_in_range(rest)) by {
            assert(forall|k: int| 0 <= k < rest.len() ==> rest[k] == ps[k + 1]);
        }
        lemma_parse_pages_inv(pre2, rest, suf, acc2);
        assert(acc2 + rest =~= acc + ps);
        assert(parse_pages(s, pre.len() as int, ps.len() as int, acc) == parse_pages(
            s,
            pre.len() as int + 12,
            ps.len() - 1,
            pg_put(acc, le32_at(s, pre.len() as int) as int, le64_at(s, pre.len() as int + 4)),
        ));
    }
}

#[verifier::rlimit(100)]
pub proof fn lemma_parse_entries_inv(pre: Seq<u8>, v: MarksView, suf: Seq<u8>, acc: MarksView)
    requires
        wf_marks(v),
        forall|i: int| 0 <= i < v.len() ==> (#[trigger] v[i]).1.len() <= 0xffff,
        kv_sorted(acc),
        forall|j: int, k: int|
            0 <= j < acc.len() && 0 <= k < v.len() ==> (#[trigger] acc[j]).0 < (#[trigger] v[k]).0,
    ensures
        parse_entries(pre + entries_bytes(v) + suf, pre.len() as int, v.len() as int, acc) == Some(
            ((acc + v), pre.len() as int + entries_bytes(v).len()),
        ),
    decreases v.len(),
{
    let s = pre + entries_bytes(v) + suf;
    if v.len() == 0 {
        assert(acc + v =~= acc);
    } else {
        let (c0, ps0) = v[0];
        let rest = v.drop_first();
        lemma_pages_bytes_len(ps0);
        let ebytes = u32_le(c0 as u32) + u16_le(ps0.len() as u16) + pages_bytes(ps0);
        assert(entries_bytes(v) == ebytes + entries_bytes(rest));
        assert(ebytes.len() == 6 + 12 * ps0.len());
        assert forall|k: int| 0 <= k < 4 implies s[pre.len() + k] == #[trigger] u32_le(c0 as u32)[k] by {
            assert(entries_bytes(v)[k] == u32_le(c0 as u32)[k]);
        }
        assert(s[pre.len() as int + 4] == u16_le(ps0.len() as u16)[0] && s[pre.len() as int + 5] == u16_le(
            ps0.len() as u16,
        )[1]) by {
            assert(entries_bytes(v)[4] == u16_le(ps0.len() as u16)[0]);
            assert(entries_bytes(v)[5] == u16_le(ps0.len() as u16)[1]);
        }
        lemma_le32_of(s, pre.len() as int, c0 as u32);
        lemma_le16_of(s, pre.len() as int + 4, ps0.len() as u16);
        assert(le32_at(s, pre.len() as int) as int == c0);
        assert(le16_at(s, pre.len() as int + 4) as int == ps0.len());
        assert(c0 < 262144);
        let pre2 = pre + u32_le(c0 as u32) + u16_le(ps0.len() as u16);
        assert(s =~= pre2 + pages_bytes(ps0) + (entries_bytes(rest) + suf));
        lemma_parse_pages_inv(pre2, ps0, entries_bytes(rest) + suf, Seq::empty());
        assert(Seq::empty() + ps0 =~= ps0);
        assert(parse_pages(s, pre.len() as int + 6, ps0.len() as int, Seq::empty()) == ps0);
        assert forall|j: int| 0 <= j < acc.len() implies (#[trigger] acc[j]).0 < c0 by {
            assert(acc[j].0 < v[0].0);
        }
        lemma_db_put_append(acc, c0, ps0);
        let acc2 = acc.push((c0, ps0));
        let pre3 = pre2 + pages_bytes(ps0);
        assert(s =~= pre3 + entries_bytes(rest) + suf);
        assert(forall|k: int| 0 <= k < rest.len() ==> rest[k] == v[k + 1]);
        assert(wf_marks(rest)) by {
            assert forall|i: int, j: int| 0 <= i < j < rest.len() implies (#[trigger] rest[i]).0 < (
            #[trigger] rest[j]).0 by {
                assert(rest[i] == v[i + 1] && rest[j] == v[j + 1]);
            }
            assert forall|i: int| 0 <= i < rest.len() implies 0 <= (#[trigger] rest[i]).0
                < 262144 by {
                assert(rest[i] == v[i + 1]);
            }
            assert forall|i: int| 0 <= i < rest.len() implies kv_sorted((#[trigger] rest[i]).1)
                && pages_in_range(rest[i].1) by {
                assert(rest[i] == v[i + 1]);
            }
        }
        assert forall|i: int| 0 <= i < rest.len() implies (#[trigger] rest[i]).1.len() <= 0xffff by {
            assert(rest[i] == v[i + 1]);
        }
        assert(kv_sorted(acc2) && forall|j: int, k: int|
            0 <= j < acc2.len() && 0 <= k < rest.len() ==> (#[trigger] acc2[j]).0 < (
            #[trigger] rest[k]).0) by {
            assert forall|j: int, k: int|
                0 <= j < acc2.len() && 0 <= k < rest.len() implies (#[trigger] acc2[j]).0 < (
            #[trigger] rest[k]).0 by {
                assert(rest[k] == v[k + 1]);
                if j < acc.len() {
                    assert(acc2[j] == acc[j]);
                } else {
                    assert(acc2[j] == (c0, ps0));
                    assert(v[0].0 < v[k + 1].0);
                }
            }
            assert forall|i: int, j: int| 0 <= i < j < acc2.len() implies (#[trigger] acc2[i]).0 < (
            #[trigger] acc2[j]).0 by {
                if j < acc.len() {
                    assert(acc2[i] == acc[i] && acc2[j] == acc[j]);
                } else {
                    assert(acc2[j] == (c0, ps0));
                    assert(acc2[i] == acc[i]);
                }
            }
        }
        lemma_parse_entries_inv(pre3, rest, suf, acc2);
        assert(acc2 + rest =~= acc + v);
        assert(pre3.len() as int + entries_bytes(rest).len() == pre.len() as int + entries_bytes(v).len());
        assert(parse_entries(s, pre.len() as int, v.len() as int, acc) == parse_entries(
            s,
            pre.len() as int + 6 + 12 * ps0.len(),
            v.len() - 1,
            db_put(acc, c0, ps0),
        ));
    }
}

/// Parsing inverts packing: a well-formed marker set with page counts that
/// fit the 16-bit field round-trips exactly through the byte layout.
pub proof fn lemma_parse_pack(r: Seq<u64>, g: Seq<u64>, v: MarksView, n: u32)
    requires
        r.len() == 262144,
        g.len() == 262144,
        wf_marks(v),
        forall|i: int| 0 <= i < v.len() ==> (#[trigger] v[i]).1.len() <= 0xffff,
    ensures
        parse_raw(pack_bytes(r, g, v, n)) == Some((r, g, v, n)),
{
    let s = pack_bytes(r, g, v, n);
    let hdr = header_bytes(n);
    lemma_plane_bytes_len(r);
    lemma_plane_bytes_len(g);
    lemma_entries_bytes_len(v);
    lemma_kv_len_le(v, 262144);
    assert(hdr.len() == 24);
    assert(s.len() >= 24 + 16 * 262144 + 4);
    assert(s.subrange(0, 4) =~= magic_seq());
    assert forall|k: int| 0 <= k < 4 implies s[4 + k] == #[trigger] u32_le(512)[k] by {
        assert(hdr[4 + k] == u32_le(512)[k]);
    }
    lemma_le32_of(s, 4, 512);
    assert forall|k: int| 0 <= k < 4 implies s[8 + k] == #[trigger] u32_le(512)[k] by {
        assert(hdr[8 + k] == u32_le(512)[k]);
    }
    lemma_le32_of(s, 8, 512);
    assert forall|k: int| 0 <= k < 4 implies s[12 + k] == #[trigger] u32_le(n)[k] by {
        assert(hdr[12 + k] == u32_le(n)[k]);
    }
    lemma_le32_of(s, 12, n);
    assert forall|k: int| 0 <= k < 8 implies s[16 + k] == #[trigger] u64_le(RG_LIMIT_EXACT)[k] by {
        assert(hdr[16 + k] == u64_le(RG_LIMIT_EXACT)[k]);
    }
    lemma_le64_of(s, 16, RG_LIMIT_EXACT);
    let tail1 = plane_bytes(g) + u32_le(v.len() as u32) + entries_bytes(v);
    assert(s =~= hdr + plane_bytes(r) + tail1);
    lemma_parse_u64s_inv(hdr, r, tail1);
    assert(parse_u64s(s, 24int, 262144) == r);
    let pre_g = hdr + plane_bytes(r);
    let tail2 = u32_le(v.len() as u32) + entries_bytes(v);
    assert(s =~= pre_g + plane_bytes(g) + tail2);
    lemma_parse_u64s_inv(pre_g, g, tail2);
    assert(pre_g.len() == 24 + 8 * 262144);
    assert(parse_u64s(s, (24 + 8 * 262144) as int, 262144) == g);
    let pre_ec = pre_g + plane_bytes(g);
    assert(pre_ec.len() == 24 + 16 * 262144);
    assert forall|k: int| 0 <= k < 4 implies s[24 + 16 * 262144 + k] == #[trigger] u32_le(
        v.len() as u32,
    )[k] by {
        assert(s[pre_ec.len() + k] == tail2[k]);
        assert(tail2[k] == u32_le(v.len() as u32)[k]);
    }
    lemma_le32_of(s, (24 + 16 * 262144) as int, v.len() as u32);
    assert(le32_at(s, (24 + 16 * 262144) as int) as int == v.len());
    let pre_e = pre_ec + u32_le(v.len() as u32);
    assert(pre_e.len() == 24 + 16 * 262144 + 4);
    assert(s =~= pre_e + entries_bytes(v) + Seq::<u8>::empty());
    lemma_parse_entries_inv(pre_e, v, Seq::empty(), Seq::empty());
    assert(Seq::empty() + v =~= v);
    assert(parse_entries(s, (24 + 16 * 262144 + 4) as int, v.len() as int, Seq::empty()) == Some(
        (v, pre_e.len() as int + entries_bytes(v).len()),
    ));
}

} // verus!
