//! Little-endian fields: their byte forms, the reads at an offset, and the
//! facts tying the two together.

use vstd::prelude::*;

verus! {

pub open spec fn u16_le(v: u16) -> Seq<u8> {
    seq![(v & 0xff) as u8, ((v >> 8) & 0xff) as u8]
}

pub open spec fn u32_le(v: u32) -> Seq<u8> {
    seq![
        (v & 0xff) as u8,
        ((v >> 8) & 0xff) as u8,
        ((v >> 16) & 0xff) as u8,
        ((v >> 24) & 0xff) as u8,
    ]
}

pub open spec fn u64_le(v: u64) -> Seq<u8> {
    seq![
        (v & 0xff) as u8,
        ((v >> 8) & 0xff) as u8,
        ((v >> 16) & 0xff) as u8,
        ((v >> 24) & 0xff) as u8,
        ((v >> 32) & 0xff) as u8,
        ((v >> 40) & 0xff) as u8,
        ((v >> 48) & 0xff) as u8,
        ((v >> 56) & 0xff) as u8,
    ]
}

pub open spec fn le16_at(s: Seq<u8>, off: int) -> u16 {
    (s[off] as u16) | ((s[off + 1] as u16) << 8)
}

pub open spec fn le32_at(s: Seq<u8>, off: int) -> u32 {
    (s[off] as u32) | ((s[off + 1] as u32) << 8) | ((s[off + 2] as u32) << 16) | ((s[off
        + 3] as u32) << 24)
}

pub open spec fn le64_at(s: Seq<u8>, off: int) -> u64 {
    (s[off] as u64) | ((s[off + 1] as u64) << 8) | ((s[off + 2] as u64) << 16) | ((s[off
        + 3] as u64) << 24) | ((s[off + 4] as u64) << 32) | ((s[off + 5] as u64) << 40) | ((s[off
        + 6] as u64) << 48) | ((s[off + 7] as u64) << 56)
}

pub proof fn lemma_u16_rt(v: u16)
    by (bit_vector)
    ensures
        ((v & 0xff) as u8 as u16) | ((((v >> 8) & 0xff) as u8 as u16) << 8) == v,
        (v & 0xff) < 256,
        ((v >> 8) & 0xff) < 256,
{
}

pub proof fn lemma_u32_rt(v: u32)
    by (bit_vector)
    ensures
        ((v & 0xff) as u8 as u32) | ((((v >> 8) & 0xff) as u8 as u32) << 8) | ((((v >> 16)
            & 0xff) as u8 as u32) << 16) | ((((v >> 24) & 0xff) as u8 as u32) << 24) == v,
{
}

pub proof fn lemma_u64_rt(v: u64)
    by (bit_vector)
    ensures
        ((v & 0xff) as u8 as u64) | ((((v >> 8) & 0xff) as u8 as u64) << 8) | ((((v >> 16)
            & 0xff) as u8 as u64) << 16) | ((((v >> 24) & 0xff) as u8 as u64) << 24) | ((((v >> 32)
            & 0xff) as u8 as u64) << 32) | ((((v >> 40) & 0xff) as u8 as u64) << 40) | ((((v >> 48)
            & 0xff) as u8 as u64) << 48) | ((((v >> 56) & 0xff) as u8 as u64) << 56) == v,
{
}

/// Reading the bytes of `u16_le(v)` inside any carrier gives back `v`.
pub proof fn lemma_le16_of(s: Seq<u8>, off: int, v: u16)
    requires
        0 <= off,
        off + 2 <= s.len(),
        s[off] == u16_le(v)[0],
        s[off + 1] == u16_le(v)[1],
    ensures
        le16_at(s, off) == v,
{
    lemma_u16_rt(v);
}

pub proof fn lemma_le32_of(s: Seq<u8>, off: int, v: u32)
    requires
        0 <= off,
        off + 4 <= s.len(),
        forall|k: int| 0 <= k < 4 ==> s[off + k] == u32_le(v)[k],
    ensures
        le32_at(s, off) == v,
{
    assert(s[off + 0] == u32_le(v)[0]);
    assert(s[off + 1] == u32_le(v)[1]);
    assert(s[off + 2] == u32_le(v)[2]);
    assert(s[off + 3] == u32_le(v)[3]);
    lemma_u32_rt(v);
}

pub proof fn lemma_le64_of(s: Seq<u8>, off: int, v: u64)
    requires
        0 <= off,
        off + 8 <= s.len(),
        forall|k: int| 0 <= k < 8 ==> s[off + k] == u64_le(v)[k],
    ensures
        le64_at(s, off) == v,
{
    assert(s[off + 0] == u64_le(v)[0]);
    assert(s[off + 1] == u64_le(v)[1]);
    assert(s[off + 2] == u64_le(v)[2]);
    assert(s[off + 3] == u64_le(v)[3]);
    assert(s[off + 4] == u64_le(v)[4]);
    assert(s[off + 5] == u64_le(v)[5]);
    assert(s[off + 6] == u64_le(v)[6]);
    assert(s[off + 7] == u64_le(v)[7]);
    lemma_u64_rt(v);
}

pub fn push_u16_le(out: &mut Vec<u8>, v: u16)
    ensures
        final(out)@ == old(out)@ + u16_le(v),
{
    proof {
        lemma_u16_rt(v);
    }
    out.push((v & 0xff) as u8);
    out.push(((v >> 8) & 0xff) as u8);
    proof {
        assert(out@ =~= old(out)@ + u16_le(v));
    }
}

pub fn push_u32_le(out: &mut Vec<u8>, v: u32)
    ensures
        final(out)@ == old(out)@ + u32_le(v),
{
    proof {
        assert((v & 0xff) < 256 && ((v >> 8) & 0xff) < 256 && ((v >> 16) & 0xff) < 256 && ((v
            >> 24) & 0xff) < 256) by (bit_vector);
    }
    out.push((v & 0xff) as u8);
    out.push(((v >> 8) & 0xff) as u8);
    out.push(((v >> 16) & 0xff) as u8);
    out.push(((v >> 24) & 0xff) as u8);
    proof {
        assert(out@ =~= old(out)@ + u32_le(v));
    }
}

pub fn push_u64_le(out: &mut Vec<u8>, v: u64)
    ensures
        final(out)@ == old(out)@ + u64_le(v),
{
    proof {
        assert((v & 0xff) < 256 && ((v >> 8) & 0xff) < 256 && ((v >> 16) & 0xff) < 256 && ((v
            >> 24) & 0xff) < 256 && ((v >> 32) & 0xff) < 256 && ((v >> 40) & 0xff) < 256 && ((v
            >> 48) & 0xff) < 256 && ((v >> 56) & 0xff) < 256) by (bit_vector);
    }
    out.push((v & 0xff) as u8);
    out.push(((v >> 8) & 0xff) as u8);
    out.push(((v >> 16) & 0xff) as u8);
    out.push(((v >> 24) & 0xff) as u8);
    out.push(((v >> 32) & 0xff) as u8);
    out.push(((v >> 40) & 0xff) as u8);
    out.push(((v >> 48) & 0xff) as u8);
    out.push(((v >> 56) & 0xff) as u8);
    proof {
        assert(out@ =~= old(out)@ + u64_le(v));
    }
}

pub fn read_u16_le(raw: &Vec<u8>, off: usize) -> (v: u16)
    requires
        off + 2 <= raw@.len(),
    ensures
        v == le16_at(raw@, off as int),
{
    proof {
        vstd::std_specs::vec::axiom_spec_len(raw);
    }
    (raw[off] as u16) | ((raw[off + 1] as u16) << 8u16)
}

pub fn read_u32_le(raw: &Vec<u8>, off: usize) -> (v: u32)
    requires
        off + 4 <= raw@.len(),
    ensures
        v == le32_at(raw@, off as int),
{
    proof {
        vstd::std_specs::vec::axiom_spec_len(raw);
    }
    (raw[off] as u32) | ((raw[off + 1] as u32) << 8u32) | ((raw[off + 2] as u32) << 16u32) | ((raw[
        off + 3] as u32) << 24u32)
}

pub fn read_u64_le(raw: &Vec<u8>, off: usize) -> (v: u64)
    requires
        off + 8 <= raw@.len(),
    ensures
        v == le64_at(raw@, off as int),
{
    proof {
        vstd::std_specs::vec::axiom_spec_len(raw);
    }
    (raw[off] as u64) | ((raw[off + 1] as u64) << 8u64) | ((raw[off + 2] as u64) << 16u64) | ((raw[
        off + 3] as u64) << 24u64) | ((raw[off + 4] as u64) << 32u64) | ((raw[off + 5] as u64)
        << 40u64) | ((raw[off + 6] as u64) << 48u64) | ((raw[off + 7] as u64) << 56u64)
}

} // verus!
