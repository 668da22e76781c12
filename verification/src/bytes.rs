//! Little-endian integer codecs on byte sequences.
//!
//! Every multi-byte integer in the container format is little-endian and
//! packed. The spec functions here define what a field's bytes mean; the
//! executable readers and writers are proved against them, and the lemmas
//! state that the two directions invert each other.

use vstd::prelude::*;

verus! {

/// Value of two little-endian bytes.
pub open spec fn le16_of(s: Seq<u8>) -> u16 {
    (s[0] as u16) | ((s[1] as u16) << 8)
}

/// Value of three little-endian bytes (a packed u24, widened to u32).
pub open spec fn le24_of(s: Seq<u8>) -> u32 {
    (s[0] as u32) | ((s[1] as u32) << 8) | ((s[2] as u32) << 16)
}

/// Value of four little-endian bytes.
pub open spec fn le32_of(s: Seq<u8>) -> u32 {
    (s[0] as u32) | ((s[1] as u32) << 8) | ((s[2] as u32) << 16) | ((s[3] as u32) << 24)
}

/// Value of eight little-endian bytes.
pub open spec fn le64_of(s: Seq<u8>) -> u64 {
    (s[0] as u64) | ((s[1] as u64) << 8) | ((s[2] as u64) << 16) | ((s[3] as u64) << 24)
        | ((s[4] as u64) << 32) | ((s[5] as u64) << 40) | ((s[6] as u64) << 48)
        | ((s[7] as u64) << 56)
}

/// The two little-endian bytes of a u16.
pub open spec fn le16_bytes(v: u16) -> Seq<u8> {
    seq![(v & 0xff) as u8, ((v >> 8) & 0xff) as u8]
}

/// The three little-endian bytes of a u24 held in a u32.
pub open spec fn le24_bytes(v: u32) -> Seq<u8> {
    seq![(v & 0xff) as u8, ((v >> 8) & 0xff) as u8, ((v >> 16) & 0xff) as u8]
}

/// The four little-endian bytes of a u32.
pub open spec fn le32_bytes(v: u32) -> Seq<u8> {
    seq![
        (v & 0xff) as u8,
        ((v >> 8) & 0xff) as u8,
        ((v >> 16) & 0xff) as u8,
        ((v >> 24) & 0xff) as u8,
    ]
}

/// The eight little-endian bytes of a u64.
pub open spec fn le64_bytes(v: u64) -> Seq<u8> {
    seq![
        (v & 0xff) as u8,
        ((v >> 8) & 0xff) as u8,
        ((v >> 16) & 0xff) as u8,
        ((v >> 24) & 0xff) as u8,
        ((v >> 32) & 0xff) as u8,
        ((v >> 40) & 0xff) as u8,
        ((v >> 48) & 0xff) as u8,
        ((v >> 56) & 0xff) as u8,
    ]
}

/// Writing a u16 and reading it back gives the value again.
pub proof fn lemma_le16_value(v: u16)
    ensures
        le16_of(le16_bytes(v)) == v,
{
    let b0 = (v & 0xff) as u8;
    let b1 = ((v >> 8) & 0xff) as u8;
    assert(((v & 0xff) as u8 as u16) | ((((v >> 8) & 0xff) as u8 as u16) << 8) == v)
        by (bit_vector);
    assert(le16_of(le16_bytes(v)) == (b0 as u16) | ((b1 as u16) << 8));
}

/// Reading two bytes and writing the value back gives the bytes again.
pub proof fn lemma_le16_bytes(s: Seq<u8>)
    requires
        s.len() == 2,
    ensures
        le16_bytes(le16_of(s)) =~= s,
{
    let b0 = s[0];
    let b1 = s[1];
    let v = (b0 as u16) | ((b1 as u16) << 8);
    assert((v & 0xff) as u8 == b0 && ((v >> 8) & 0xff) as u8 == b1) by {
        assert((((b0 as u16) | ((b1 as u16) << 8)) & 0xff) as u8 == b0
            && ((((b0 as u16) | ((b1 as u16) << 8)) >> 8) & 0xff) as u8 == b1) by (bit_vector);
    }
}

/// A u24 value below 2^24 survives the trip through its three bytes.
pub proof fn lemma_le24_value(v: u32)
    requires
        v < 0x1000000,
    ensures
        le24_of(le24_bytes(v)) == v,
{
    assert(v < 0x1000000 ==> ((v & 0xff) as u8 as u32) | ((((v >> 8) & 0xff) as u8 as u32) << 8)
        | ((((v >> 16) & 0xff) as u8 as u32) << 16) == v) by (bit_vector);
}

/// The value of three bytes is below 2^24.
pub proof fn lemma_le24_bound(s: Seq<u8>)
    requires
        s.len() == 3,
    ensures
        le24_of(s) < 0x1000000,
{
    let b0 = s[0];
    let b1 = s[1];
    let b2 = s[2];
    assert((b0 as u32) | ((b1 as u32) << 8) | ((b2 as u32) << 16) < 0x1000000) by (bit_vector);
}

/// Reading three bytes and writing the value back gives the bytes again.
pub proof fn lemma_le24_bytes(s: Seq<u8>)
    requires
        s.len() == 3,
    ensures
        le24_bytes(le24_of(s)) =~= s,
{
    let b0 = s[0];
    let b1 = s[1];
    let b2 = s[2];
    let v = (b0 as u32) | ((b1 as u32) << 8) | ((b2 as u32) << 16);
    assert((v & 0xff) as u8 == b0 && ((v >> 8) & 0xff) as u8 == b1
        && ((v >> 16) & 0xff) as u8 == b2) by {
        assert({
            let w = (b0 as u32) | ((b1 as u32) << 8) | ((b2 as u32) << 16);
            (w & 0xff) as u8 == b0 && ((w >> 8) & 0xff) as u8 == b1
                && ((w >> 16) & 0xff) as u8 == b2
        }) by (bit_vector);
    }
}

/// Writing a u32 and reading it back gives the value again.
pub proof fn lemma_le32_value(v: u32)
    ensures
        le32_of(le32_bytes(v)) == v,
{
    assert(((v & 0xff) as u8 as u32) | ((((v >> 8) & 0xff) as u8 as u32) << 8)
        | ((((v >> 16) & 0xff) as u8 as u32) << 16) | ((((v >> 24) & 0xff) as u8 as u32) << 24)
        == v) by (bit_vector);
}

/// Reading four bytes and writing the value back gives the bytes again.
pub proof fn lemma_le32_bytes(s: Seq<u8>)
    requires
        s.len() == 4,
    ensures
        le32_bytes(le32_of(s)) =~= s,
{
    let b0 = s[0];
    let b1 = s[1];
    let b2 = s[2];
    let b3 = s[3];
    let v = (b0 as u32) | ((b1 as u32) << 8) | ((b2 as u32) << 16) | ((b3 as u32) << 24);
    assert((v & 0xff) as u8 == b0 && ((v >> 8) & 0xff) as u8 == b1
        && ((v >> 16) & 0xff) as u8 == b2 && ((v >> 24) & 0xff) as u8 == b3) by {
        assert({
            let w = (b0 as u32) | ((b1 as u32) << 8) | ((b2 as u32) << 16) | ((b3 as u32) << 24);
            (w & 0xff) as u8 == b0 && ((w >> 8) & 0xff) as u8 == b1
                && ((w >> 16) & 0xff) as u8 == b2 && ((w >> 24) & 0xff) as u8 == b3
        }) by (bit_vector);
    }
}

/// Writing a u64 and reading it back gives the value again.
pub proof fn lemma_le64_value(v: u64)
    ensures
        le64_of(le64_bytes(v)) == v,
{
    assert(((v & 0xff) as u8 as u64) | ((((v >> 8) & 0xff) as u8 as u64) << 8)
        | ((((v >> 16) & 0xff) as u8 as u64) << 16) | ((((v >> 24) & 0xff) as u8 as u64) << 24)
        | ((((v >> 32) & 0xff) as u8 as u64) << 32) | ((((v >> 40) & 0xff) as u8 as u64) << 40)
        | ((((v >> 48) & 0xff) as u8 as u64) << 48) | ((((v >> 56) & 0xff) as u8 as u64) << 56)
        == v) by (bit_vector);
}

/// Reading eight bytes and writing the value back gives the bytes again.
pub proof fn lemma_le64_bytes(s: Seq<u8>)
    requires
        s.len() == 8,
    ensures
        le64_bytes(le64_of(s)) =~= s,
{
    let b0 = s[0];
    let b1 = s[1];
    let b2 = s[2];
    let b3 = s[3];
    let b4 = s[4];
    let b5 = s[5];
    let b6 = s[6];
    let b7 = s[7];
    let v = (b0 as u64) | ((b1 as u64) << 8) | ((b2 as u64) << 16) | ((b3 as u64) << 24)
        | ((b4 as u64) << 32) | ((b5 as u64) << 40) | ((b6 as u64) << 48) | ((b7 as u64) << 56);
    assert((v & 0xff) as u8 == b0 && ((v >> 8) & 0xff) as u8 == b1
        && ((v >> 16) & 0xff) as u8 == b2 && ((v >> 24) & 0xff) as u8 == b3
        && ((v >> 32) & 0xff) as u8 == b4 && ((v >> 40) & 0xff) as u8 == b5
        && ((v >> 48) & 0xff) as u8 == b6 && ((v >> 56) & 0xff) as u8 == b7) by {
        assert({
            let w = (b0 as u64) | ((b1 as u64) << 8) | ((b2 as u64) << 16) | ((b3 as u64) << 24)
                | ((b4 as u64) << 32) | ((b5 as u64) << 40) | ((b6 as u64) << 48)
                | ((b7 as u64) << 56);
            (w & 0xff) as u8 == b0 && ((w >> 8) & 0xff) as u8 == b1
                && ((w >> 16) & 0xff) as u8 == b2 && ((w >> 24) & 0xff) as u8 == b3
                && ((w >> 32) & 0xff) as u8 == b4 && ((w >> 40) & 0xff) as u8 == b5
                && ((w >> 48) & 0xff) as u8 == b6 && ((w >> 56) & 0xff) as u8 == b7
        }) by (bit_vector);
    }
}

/// Read a u16 from two bytes of a slice.
pub fn get_le16(b: &[u8], at: usize) -> (r: u16)
    requires
        at + 2 <= b@.len(),
    ensures
        r == le16_of(b@.subrange(at as int, at + 2)),
{
    let r = (b[at] as u16) | ((b[at + 1] as u16) << 8);
    proof {
        let s = b@.subrange(at as int, at + 2);
        assert(s[0] == b@[at as int] && s[1] == b@[at + 1]);
    }
    r
}

/// Read a u24 from three bytes of a slice, widened to u32.
pub fn get_le24(b: &[u8], at: usize) -> (r: u32)
    requires
        at + 3 <= b@.len(),
    ensures
        r == le24_of(b@.subrange(at as int, at + 3)),
        r < 0x1000000,
{
    let r = (b[at] as u32) | ((b[at + 1] as u32) << 8) | ((b[at + 2] as u32) << 16);
    proof {
        let s = b@.subrange(at as int, at + 3);
        assert(s[0] == b@[at as int] && s[1] == b@[at + 1] && s[2] == b@[at + 2]);
        lemma_le24_bound(s);
    }
    r
}

/// Read a u32 from four bytes of a slice.
pub fn get_le32(b: &[u8], at: usize) -> (r: u32)
    requires
        at + 4 <= b@.len(),
    ensures
        r == le32_of(b@.subrange(at as int, at + 4)),
{
    let r = (b[at] as u32) | ((b[at + 1] as u32) << 8) | ((b[at + 2] as u32) << 16)
        | ((b[at + 3] as u32) << 24);
    proof {
        let s = b@.subrange(at as int, at + 4);
        assert(s[0] == b@[at as int] && s[1] == b@[at + 1] && s[2] == b@[at + 2]
            && s[3] == b@[at + 3]);
    }
    r
}

/// Read a u64 from eight bytes of a slice.
pub fn get_le64(b: &[u8], at: usize) -> (r: u64)
    requires
        at + 8 <= b@.len(),
    ensures
        r == le64_of(b@.subrange(at as int, at + 8)),
{
    let r = (b[at] as u64) | ((b[at + 1] as u64) << 8) | ((b[at + 2] as u64) << 16)
        | ((b[at + 3] as u64) << 24) | ((b[at + 4] as u64) << 32) | ((b[at + 5] as u64) << 40)
        | ((b[at + 6] as u64) << 48) | ((b[at + 7] as u64) << 56);
    proof {
        let s = b@.subrange(at as int, at + 8);
        assert(s[0] == b@[at as int] && s[1] == b@[at + 1] && s[2] == b@[at + 2]
            && s[3] == b@[at + 3] && s[4] == b@[at + 4] && s[5] == b@[at + 5]
            && s[6] == b@[at + 6] && s[7] == b@[at + 7]);
    }
    r
}

/// Append the two little-endian bytes of a u16.
pub fn push_le16(out: &mut Vec<u8>, v: u16)
    ensures
        final(out)@ =~= old(out)@ + le16_bytes(v),
{
    out.push((v & 0xff) as u8);
    out.push(((v >> 8) & 0xff) as u8);
}

/// Append the three little-endian bytes of a u24 held in a u32.
pub fn push_le24(out: &mut Vec<u8>, v: u32)
    ensures
        final(out)@ =~= old(out)@ + le24_bytes(v),
{
    out.push((v & 0xff) as u8);
    out.push(((v >> 8) & 0xff) as u8);
    out.push(((v >> 16) & 0xff) as u8);
}

/// Append the four little-endian bytes of a u32.
pub fn push_le32(out: &mut Vec<u8>, v: u32)
    ensures
        final(out)@ =~= old(out)@ + le32_bytes(v),
{
    out.push((v & 0xff) as u8);
    out.push(((v >> 8) & 0xff) as u8);
    out.push(((v >> 16) & 0xff) as u8);
    out.push(((v >> 24) & 0xff) as u8);
}

/// Append the eight little-endian bytes of a u64.
pub fn push_le64(out: &mut Vec<u8>, v: u64)
    ensures
        final(out)@ =~= old(out)@ + le64_bytes(v),
{
    out.push((v & 0xff) as u8);
    out.push(((v >> 8) & 0xff) as u8);
    out.push(((v >> 16) & 0xff) as u8);
    out.push(((v >> 24) & 0xff) as u8);
    out.push(((v >> 32) & 0xff) as u8);
    out.push(((v >> 40) & 0xff) as u8);
    out.push(((v >> 48) & 0xff) as u8);
    out.push(((v >> 56) & 0xff) as u8);
}

} // verus!
