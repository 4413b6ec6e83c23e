//! Big-endian integers as they stand on the wire.
//!
//! Every multi-byte field of the envelope and fragment formats is an unsigned
//! integer, most significant byte first. The encodings are defined by halves: a
//! 32-bit field is two 16-bit fields, a 64-bit field two 32-bit fields.

use vstd::prelude::*;
use vstd::slice::slice_subrange;

verus! {

/// The two bytes of a 16-bit field.
pub open spec fn be16(x: u16) -> Seq<u8> {
    seq![(x / 256) as u8, (x % 256) as u8]
}

/// The value of a 16-bit field; `b` has two bytes.
pub open spec fn be16_value(b: Seq<u8>) -> u16
    recommends
        b.len() == 2,
{
    (b[0] as int * 256 + b[1] as int) as u16
}

/// The four bytes of a 32-bit field.
pub open spec fn be32(x: u32) -> Seq<u8> {
    be16((x / 65536) as u16) + be16((x % 65536) as u16)
}

/// The value of a 32-bit field; `b` has four bytes.
pub open spec fn be32_value(b: Seq<u8>) -> u32
    recommends
        b.len() == 4,
{
    (be16_value(b.subrange(0, 2)) as int * 65536 + be16_value(b.subrange(2, 4)) as int) as u32
}

/// The eight bytes of a 64-bit field.
pub open spec fn be64(x: u64) -> Seq<u8> {
    be32((x / 4294967296) as u32) + be32((x % 4294967296) as u32)
}

/// The value of a 64-bit field; `b` has eight bytes.
pub open spec fn be64_value(b: Seq<u8>) -> u64
    recommends
        b.len() == 8,
{
    (be32_value(b.subrange(0, 4)) as int * 4294967296 + be32_value(b.subrange(4, 8)) as int) as u64
}

/// Quotient and remainder of `hi * m + lo` by `m`, for a remainder in range.
proof fn lemma_halves(hi: int, lo: int, m: int)
    requires
        0 < m,
        0 <= lo < m,
    ensures
        (hi * m + lo) / m == hi,
        (hi * m + lo) % m == lo,
{
    vstd::arithmetic::div_mod::lemma_fundamental_div_mod_converse(hi * m + lo, m, hi, lo);
}

/// A 16-bit field read back gives the value written.
pub proof fn lemma_be16_round_trip(x: u16)
    ensures
        be16(x).len() == 2,
        be16_value(be16(x)) == x,
{
}

/// Two bytes are the encoding of their own value.
pub proof fn lemma_be16_canonical(b: Seq<u8>)
    requires
        b.len() == 2,
    ensures
        be16(be16_value(b)) == b,
{
    assert(be16(be16_value(b)) =~= b);
}

/// A 32-bit field read back gives the value written.
pub proof fn lemma_be32_round_trip(x: u32)
    ensures
        be32(x).len() == 4,
        be32_value(be32(x)) == x,
{
    let hi = (x / 65536) as u16;
    let lo = (x % 65536) as u16;
    lemma_be16_round_trip(hi);
    lemma_be16_round_trip(lo);
    assert(be32(x).subrange(0, 2) =~= be16(hi));
    assert(be32(x).subrange(2, 4) =~= be16(lo));
}

/// Four bytes are the encoding of their own value.
pub proof fn lemma_be32_canonical(b: Seq<u8>)
    requires
        b.len() == 4,
    ensures
        be32(be32_value(b)) == b,
{
    let hi = be16_value(b.subrange(0, 2));
    let lo = be16_value(b.subrange(2, 4));
    lemma_be16_canonical(b.subrange(0, 2));
    lemma_be16_canonical(b.subrange(2, 4));
    lemma_halves(hi as int, lo as int, 65536);
    assert(be32_value(b) == hi as int * 65536 + lo as int);
    assert(be32(be32_value(b)) == be16(hi) + be16(lo));
    assert(b.subrange(0, 2) + b.subrange(2, 4) =~= b);
}

/// A 64-bit field read back gives the value written.
pub proof fn lemma_be64_round_trip(x: u64)
    ensures
        be64(x).len() == 8,
        be64_value(be64(x)) == x,
{
    let hi = (x / 4294967296) as u32;
    let lo = (x % 4294967296) as u32;
    lemma_be32_round_trip(hi);
    lemma_be32_round_trip(lo);
    assert(be64(x).subrange(0, 4) =~= be32(hi));
    assert(be64(x).subrange(4, 8) =~= be32(lo));
}

/// Eight bytes are the encoding of their own value.
pub proof fn lemma_be64_canonical(b: Seq<u8>)
    requires
        b.len() == 8,
    ensures
        be64(be64_value(b)) == b,
{
    let hi = be32_value(b.subrange(0, 4));
    let lo = be32_value(b.subrange(4, 8));
    lemma_be32_canonical(b.subrange(0, 4));
    lemma_be32_canonical(b.subrange(4, 8));
    lemma_halves(hi as int, lo as int, 4294967296);
    assert(be64_value(b) == hi as int * 4294967296 + lo as int);
    assert(be64(be64_value(b)) == be32(hi) + be32(lo));
    assert(b.subrange(0, 4) + b.subrange(4, 8) =~= b);
}

/// Appends the two bytes of `x` to `out`.
pub fn put_be16(out: &mut Vec<u8>, x: u16)
    ensures
        final(out)@ == old(out)@ + be16(x),
{
    out.push((x / 256) as u8);
    out.push((x % 256) as u8);
    assert(out@ =~= old(out)@ + be16(x));
}

/// Appends the four bytes of `x` to `out`.
pub fn put_be32(out: &mut Vec<u8>, x: u32)
    ensures
        final(out)@ == old(out)@ + be32(x),
{
    put_be16(out, (x / 65536) as u16);
    put_be16(out, (x % 65536) as u16);
    assert(out@ =~= old(out)@ + be32(x));
}

/// Appends the eight bytes of `x` to `out`.
pub fn put_be64(out: &mut Vec<u8>, x: u64)
    ensures
        final(out)@ == old(out)@ + be64(x),
{
    put_be32(out, (x / 4294967296) as u32);
    put_be32(out, (x % 4294967296) as u32);
    assert(out@ =~= old(out)@ + be64(x));
}

/// Reads the 16-bit field that starts at `at`.
pub fn get_be16(bytes: &[u8], at: usize) -> (x: u16)
    requires
        at + 2 <= bytes.len(),
    ensures
        x == be16_value(bytes@.subrange(at as int, at + 2)),
{
    let hi: u16 = bytes[at] as u16;
    let lo: u16 = bytes[at + 1] as u16;
    hi * 256 + lo
}

/// Reads the 32-bit field that starts at `at`.
pub fn get_be32(bytes: &[u8], at: usize) -> (x: u32)
    requires
        at + 4 <= bytes.len(),
    ensures
        x == be32_value(bytes@.subrange(at as int, at + 4)),
{
    let hi: u32 = get_be16(bytes, at) as u32;
    let lo: u32 = get_be16(bytes, at + 2) as u32;
    proof {
        let field = bytes@.subrange(at as int, at + 4);
        assert(field.subrange(0, 2) =~= bytes@.subrange(at as int, at + 2));
        assert(field.subrange(2, 4) =~= bytes@.subrange(at + 2, at + 4));
    }
    hi * 65536 + lo
}

/// Reads the 64-bit field that starts at `at`.
pub fn get_be64(bytes: &[u8], at: usize) -> (x: u64)
    requires
        at + 8 <= bytes.len(),
    ensures
        x == be64_value(bytes@.subrange(at as int, at + 8)),
{
    let hi: u64 = get_be32(bytes, at) as u64;
    let lo: u64 = get_be32(bytes, at + 4) as u64;
    proof {
        let field = bytes@.subrange(at as int, at + 8);
        assert(field.subrange(0, 4) =~= bytes@.subrange(at as int, at + 4));
        assert(field.subrange(4, 8) =~= bytes@.subrange(at + 4, at + 8));
    }
    hi * 4294967296 + lo
}

/// A list of byte strings, as values.
pub open spec fn strings_view(strings: Seq<Vec<u8>>) -> Seq<Seq<u8>> {
    strings.map_values(|bytes: Vec<u8>| bytes@)
}

/// A copy of the bytes from `from` up to `to`.
pub fn copy_range(bytes: &[u8], from: usize, to: usize) -> (out: Vec<u8>)
    requires
        from <= to <= bytes.len(),
    ensures
        out@ == bytes@.subrange(from as int, to as int),
{
    let mut out: Vec<u8> = Vec::new();
    out.extend_from_slice(slice_subrange(bytes, from, to));
    assert(out@ =~= bytes@.subrange(from as int, to as int));
    out
}

} // verus!
