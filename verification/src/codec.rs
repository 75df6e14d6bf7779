//! Serialization of the canvas, the marker set and the step count to the
//! flat container form, and the parse back.

use crate::bytes::{push_u16_le, push_u32_le, push_u64_le, read_u16_le, read_u32_le, read_u64_le};
use crate::canvas::RGCanvas;
use crate::errors::CodecError;
use crate::markers::{pages_view, put_cell, put_page, ABitset, PageRec};
use crate::marks::{kv_sorted, lemma_kv_len_le, wf_marks, MarksView, PagesView};
use crate::params::{PIXELS, RG_LIMIT_EXACT, H, W};
use crate::wire::{
    entries_bytes, header_bytes, lemma_entries_bytes_snoc, lemma_pages_bytes_snoc,
    lemma_parse_u64s_snoc, lemma_plane_bytes_snoc, magic_seq, pack_bytes, pages_bytes, parse_entries,
    parse_pages, parse_raw, parse_u64s, plane_bytes,
};
use vstd::prelude::*;

verus! {

fn write_plane(out: &mut Vec<u8>, vals: &Vec<u64>)
    ensures
        final(out)@ == old(out)@ + plane_bytes(vals@),
{
    let mut i: usize = 0;
    while i < vals.len()
        invariant
            i <= vals@.len(),
            out@ == old(out)@ + plane_bytes(vals@.take(i as int)),
        decreases vals@.len() - i,
    {
        proof {
            lemma_plane_bytes_snoc(vals@.take(i as int), vals@[i as int]);
            assert(vals@.take(i as int).push(vals@[i as int]) =~= vals@.take(i as int + 1));
        }
        push_u64_le(out, vals[i]);
        i = i + 1;
        proof {
            assert(out@ =~= old(out)@ + plane_bytes(vals@.take(i as int)));
        }
    }
    proof {
        assert(vals@.take(vals@.len() as int) =~= vals@);
    }
}

/// Pack the canvas, marker set and step count into container bytes. The page
/// counts must fit the 16-bit field of the layout, which holds for every
/// marker set an encode within `MAX_PAYLOAD` produces.
pub fn raw_pack(rg: &RGCanvas, a: &ABitset, n: u32) -> (out: Vec<u8>)
    requires
        rg.r@.len() == PIXELS,
        rg.g@.len() == PIXELS,
        wf_marks(a@),
        forall|i: int| 0 <= i < a@.len() ==> (#[trigger] a@[i]).1.len() <= 0xffff,
    ensures
        out@ == pack_bytes(rg.r@, rg.g@, a@, n),
{
    proof {
        lemma_kv_len_le(a@, PIXELS as int);
    }
    let mut out: Vec<u8> = Vec::new();
    out.push(0x43);
    out.push(0x56);
    out.push(0x50);
    out.push(0x31);
    proof {
        assert(out@ =~= magic_seq());
    }
    push_u32_le(&mut out, W);
    push_u32_le(&mut out, H);
    push_u32_le(&mut out, n);
    push_u64_le(&mut out, RG_LIMIT_EXACT);
    proof {
        assert(out@ =~= header_bytes(n));
    }
    write_plane(&mut out, &rg.r);
    write_plane(&mut out, &rg.g);
    proof {
        assert(out@ =~= header_bytes(n) + plane_bytes(rg.r@) + plane_bytes(rg.g@));
    }
    let entry_count: u32 = a.db.len() as u32;
    push_u32_le(&mut out, entry_count);
    let ghost base: Seq<u8> = out@;
    proof {
        assert(base =~= header_bytes(n) + plane_bytes(rg.r@) + plane_bytes(rg.g@) + crate::bytes::u32_le(
            a@.len() as u32,
        ));
    }
    let mut i: usize = 0;
    while i < a.db.len()
        invariant
            i <= a.db@.len(),
            a@.len() == a.db@.len(),
            out@ == base + entries_bytes(a@.take(i as int)),
            wf_marks(a@),
            forall|k: int| 0 <= k < a@.len() ==> (#[trigger] a@[k]).1.len() <= 0xffff,
        decreases a.db@.len() - i,
    {
        let ghost e = a@[i as int];
        proof {
            lemma_entries_bytes_snoc(a@.take(i as int), e);
            assert(a@.take(i as int).push(e) =~= a@.take(i as int + 1));
            assert(e.1.len() == a.db@[i as int].pages@.len());
        }
        let ghost base_i: Seq<u8> = out@;
        let pidx: u32 = a.db[i].pidx;
        let pcnt_usize: usize = a.db[i].pages.len();
        push_u32_le(&mut out, pidx);
        push_u16_le(&mut out, pcnt_usize as u16);
        let ghost base_p: Seq<u8> = out@;
        let mut j: usize = 0;
        while j < a.db[i].pages.len()
            invariant
                i < a.db@.len(),
                a@.len() == a.db@.len(),
                j <= a.db@[i as int].pages@.len(),
                out@ == base_p + pages_bytes(a@[i as int].1.take(j as int)),
            decreases a.db@[i as int].pages@.len() - j,
        {
            let ghost pe = a@[i as int].1[j as int];
            proof {
                lemma_pages_bytes_snoc(a@[i as int].1.take(j as int), pe);
                assert(a@[i as int].1.take(j as int).push(pe) =~= a@[i as int].1.take(
                    j as int + 1,
                ));
                assert(pe.0 == a.db@[i as int].pages@[j as int].page as int);
                assert(pe.1 == a.db@[i as int].pages@[j as int].mask);
            }
            let pr: PageRec = a.db[i].pages[j];
            push_u32_le(&mut out, pr.page);
            push_u64_le(&mut out, pr.mask);
            j = j + 1;
            proof {
                assert(out@ =~= base_p + pages_bytes(a@[i as int].1.take(j as int)));
            }
        }
        i = i + 1;
        proof {
            assert(a@[i - 1].1.take(a@[i - 1].1.len() as int) =~= a@[i - 1].1);
            assert(out@ =~= base + entries_bytes(a@.take(i as int)));
        }
    }
    proof {
        assert(a@.take(a@.len() as int) =~= a@);
        assert(out@ =~= pack_bytes(rg.r@, rg.g@, a@, n));
    }
    out
}

fn read_plane(raw: &Vec<u8>, off: usize) -> (v: Vec<u64>)
    requires
        off + 8 * PIXELS <= raw@.len(),
    ensures
        v@ == parse_u64s(raw@, off as int, PIXELS as int),
        v@.len() == PIXELS,
{
    let mut v: Vec<u64> = Vec::new();
    let mut i: usize = 0;
    while i < PIXELS
        invariant
            i <= PIXELS,
            off + 8 * PIXELS <= raw@.len(),
            v@ == parse_u64s(raw@, off as int, i as int),
            v@.len() == i,
        decreases PIXELS - i,
    {
        proof {
            vstd::std_specs::vec::axiom_spec_len(raw);
            lemma_parse_u64s_snoc(raw@, off as int, i as int);
        }
        let x = read_u64_le(raw, off + 8 * i);
        v.push(x);
        i = i + 1;
    }
    v
}

/// Parse a container. Fails, with the format error that names the first
/// problem met, iff the byte model rejects the input; on success the returned
/// triple is exactly what the byte model parses.
pub fn raw_unpack(raw: &Vec<u8>) -> (r: Result<(RGCanvas, ABitset, u32), CodecError>)
    ensures
        r.is_ok() <==> parse_raw(raw@).is_some(),
        r.is_ok() ==> {
            let (rg, a, n) = r->Ok_0;
            &&& parse_raw(raw@) == Some((rg.r@, rg.g@, a@, n))
            &&& rg.r@.len() == PIXELS
            &&& rg.g@.len() == PIXELS
            &&& wf_marks(a@)
        },
        raw@.len() < 4 ==> r == Err::<(RGCanvas, ABitset, u32), CodecError>(CodecError::TooSmall),
        raw@.len() >= 4 && raw@.subrange(0, 4) != magic_seq() ==> r == Err::<
            (RGCanvas, ABitset, u32),
            CodecError,
        >(CodecError::BadMagic),
        raw@.len() >= 4 && raw@.subrange(0, 4) == magic_seq() && raw@.len() < 24 ==> r == Err::<
            (RGCanvas, ABitset, u32),
            CodecError,
        >(CodecError::Truncated),
        raw@.len() >= 24 && raw@.subrange(0, 4) == magic_seq() && (crate::bytes::le32_at(raw@, 4)
            != 512 || crate::bytes::le32_at(raw@, 8) != 512) ==> r == Err::<
            (RGCanvas, ABitset, u32),
            CodecError,
        >(CodecError::BadDims),
        raw@.len() >= 24 && raw@.subrange(0, 4) == magic_seq() && crate::bytes::le32_at(raw@, 4)
            == 512 && crate::bytes::le32_at(raw@, 8) == 512 && crate::bytes::le64_at(raw@, 16)
            != RG_LIMIT_EXACT ==> r == Err::<(RGCanvas, ABitset, u32), CodecError>(
            CodecError::LimitMismatch,
        ),
        raw@.len() >= 24 && raw@.subrange(0, 4) == magic_seq() && crate::bytes::le32_at(raw@, 4)
            == 512 && crate::bytes::le32_at(raw@, 8) == 512 && crate::bytes::le64_at(raw@, 16)
            == RG_LIMIT_EXACT && raw@.len() < 24 + 16 * 262144 + 4 ==> r == Err::<
            (RGCanvas, ABitset, u32),
            CodecError,
        >(CodecError::Truncated),
{
    proof {
        vstd::std_specs::vec::axiom_spec_len(raw);
    }
    if raw.len() < 4 {
        return Err(CodecError::TooSmall);
    }
    proof {
        assert(raw@.subrange(0, 4)[0] == raw@[0]);
        assert(raw@.subrange(0, 4)[1] == raw@[1]);
        assert(raw@.subrange(0, 4)[2] == raw@[2]);
        assert(raw@.subrange(0, 4)[3] == raw@[3]);
    }
    if !(raw[0] == 0x43 && raw[1] == 0x56 && raw[2] == 0x50 && raw[3] == 0x31) {
        proof {
            assert(raw@.subrange(0, 4) != magic_seq());
        }
        return Err(CodecError::BadMagic);
    }
    proof {
        assert(raw@.subrange(0, 4) =~= magic_seq());
    }
    if raw.len() < 24 {
        return Err(CodecError::Truncated);
    }
    let w = read_u32_le(raw, 4);
    let h = read_u32_le(raw, 8);
    let n = read_u32_le(raw, 12);
    let lim = read_u64_le(raw, 16);
    if w != 512 || h != 512 {
        return Err(CodecError::BadDims);
    }
    if lim != RG_LIMIT_EXACT {
        return Err(CodecError::LimitMismatch);
    }
    if raw.len() < 24 + 16 * PIXELS + 4 {
        return Err(CodecError::Truncated);
    }
    let rvec = read_plane(raw, 24);
    let gvec = read_plane(raw, 24 + 8 * PIXELS);
    let ec = read_u32_le(raw, 24 + 16 * PIXELS);
    let mut a = ABitset::new();
    let ghost eoff0: int = (24 + 16 * PIXELS + 4) as int;
    let mut off: usize = 24 + 16 * PIXELS + 4;
    let mut k: u32 = 0;
    proof {
        assert(a@ =~= Seq::<(int, PagesView)>::empty());
        assert(parse_raw(raw@) == (match parse_entries(
            raw@,
            eoff0,
            ec as int,
            Seq::<(int, PagesView)>::empty(),
        ) {
            Option::None => Option::<(Seq<u64>, Seq<u64>, MarksView, u32)>::None,
            Option::Some(t) => Option::Some((rvec@, gvec@, t.0, n)),
        }));
    }
    while k < ec
        invariant
            k <= ec,
            off <= raw@.len(),
            wf_marks(a@),
            raw@.len() >= 24 + 16 * 262144 + 4,
            raw@.subrange(0, 4) == magic_seq(),
            crate::bytes::le32_at(raw@, 4) == 512,
            crate::bytes::le32_at(raw@, 8) == 512,
            crate::bytes::le64_at(raw@, 16) == RG_LIMIT_EXACT,
            parse_entries(raw@, eoff0, ec as int, Seq::empty()) == parse_entries(
                raw@,
                off as int,
                (ec - k) as int,
                a@,
            ),
            parse_raw(raw@) == (match parse_entries(
                raw@,
                eoff0,
                ec as int,
                Seq::<(int, PagesView)>::empty(),
            ) {
                Option::None => Option::<(Seq<u64>, Seq<u64>, MarksView, u32)>::None,
                Option::Some(t) => Option::Some((rvec@, gvec@, t.0, n)),
            }),
        decreases ec - k,
    {
        proof {
            vstd::std_specs::vec::axiom_spec_len(raw);
        }
        let avail: usize = raw.len() - off;
        if avail < 6 {
            proof {
                assert(parse_entries(raw@, off as int, (ec - k) as int, a@).is_none());
                assert(parse_raw(raw@).is_none());
            }
            return Err(CodecError::Truncated);
        }
        let pidx = read_u32_le(raw, off);
        let pcnt: usize = read_u16_le(raw, off + 4) as usize;
        if pidx >= PIXELS as u32 {
            proof {
                assert(parse_entries(raw@, off as int, (ec - k) as int, a@).is_none());
                assert(parse_raw(raw@).is_none());
            }
            return Err(CodecError::BadCellIndex);
        }
        let need: usize = 12 * pcnt;
        if avail - 6 < need {
            proof {
                assert(off as int + 6 + 12 * (pcnt as int) > raw@.len());
                assert(parse_entries(raw@, off as int, (ec - k) as int, a@).is_none());
                assert(parse_raw(raw@).is_none());
            }
            return Err(CodecError::Truncated);
        }
        let poff0: usize = off + 6;
        let mut pages: Vec<PageRec> = Vec::new();
        let mut j: usize = 0;
        proof {
            assert(pages_view(pages@) =~= Seq::<(int, u64)>::empty());
        }
        while j < pcnt
            invariant
                j <= pcnt,
                poff0 + 12 * pcnt <= raw@.len(),
                kv_sorted(pages_view(pages@)),
                parse_pages(raw@, poff0 as int, pcnt as int, Seq::empty()) == parse_pages(
                    raw@,
                    poff0 as int + 12 * j,
                    (pcnt - j) as int,
                    pages_view(pages@),
                ),
            decreases pcnt - j,
        {
            proof {
                vstd::std_specs::vec::axiom_spec_len(raw);
            }
            let pg = read_u32_le(raw, poff0 + 12 * j);
            let mask = read_u64_le(raw, poff0 + 12 * j + 4);
            put_page(&mut pages, pg, mask);
            j = j + 1;
        }
        put_cell(&mut a, pidx, pages);
        off = poff0 + need;
        k = k + 1;
    }
    proof {
        assert(parse_entries(raw@, eoff0, ec as int, Seq::empty()) == Some((a@, off as int)));
        assert(parse_raw(raw@) == Some((rvec@, gvec@, a@, n)));
    }
    Ok((RGCanvas { r: rvec, g: gvec }, a, n))
}

} // verus!
