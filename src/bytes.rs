//! Little-endian integers and UTF-8 text over byte sequences.

use vstd::prelude::*;
use vstd::utf8::{decode_utf8, encode_utf8, valid_utf8};

verus! {

/// The little-endian bytes of `x`.
pub open spec fn u16_le(x: u16) -> Seq<u8> {
    seq![(x & 0xff) as u8, ((x >> 8u16) & 0xff) as u8]
}

/// The little-endian bytes of `x`.
pub open spec fn u32_le(x: u32) -> Seq<u8> {
    seq![(x & 0xff) as u8, ((x >> 8u32) & 0xff) as u8, ((x >> 16u32) & 0xff) as u8, ((x >> 24u32) & 0xff) as u8]
}

/// The little-endian `u16` stored at offset `i` of `b`.
pub open spec fn u16_at(b: Seq<u8>, i: int) -> u16 {
    ((b[i] as u16) | ((b[i + 1] as u16) << 8u16)) as u16
}

/// The little-endian `u32` stored at offset `i` of `b`.
pub open spec fn u32_at(b: Seq<u8>, i: int) -> u32 {
    ((b[i] as u32) | ((b[i + 1] as u32) << 8u32) | ((b[i + 2] as u32) << 16u32) | ((b[i + 3] as u32) << 24u32)) as u32
}

proof fn lemma_u16_bits(b0: u8, b1: u8)
    ensures
        ((((b0 as u16) | ((b1 as u16) << 8u16)) as u16) & 0xff) as u8 == b0,
        (((((b0 as u16) | ((b1 as u16) << 8u16)) as u16) >> 8u16) & 0xff) as u8 == b1,
{
    assert(((((b0 as u16) | ((b1 as u16) << 8u16)) as u16) & 0xff) as u8 == b0) by (bit_vector);
    assert((((((b0 as u16) | ((b1 as u16) << 8u16)) as u16) >> 8u16) & 0xff) as u8 == b1) by (bit_vector);
}

proof fn lemma_u32_bits(b0: u8, b1: u8, b2: u8, b3: u8)
    ensures
        ({
            let x = ((b0 as u32) | ((b1 as u32) << 8u32) | ((b2 as u32) << 16u32) | ((b3 as u32) << 24u32)) as u32;
            &&& (x & 0xff) as u8 == b0
            &&& ((x >> 8u32) & 0xff) as u8 == b1
            &&& ((x >> 16u32) & 0xff) as u8 == b2
            &&& ((x >> 24u32) & 0xff) as u8 == b3
        }),
{
    let x = ((b0 as u32) | ((b1 as u32) << 8u32) | ((b2 as u32) << 16u32) | ((b3 as u32) << 24u32)) as u32;
    assert((x & 0xff) as u8 == b0) by (bit_vector)
        requires x == ((b0 as u32) | ((b1 as u32) << 8u32) | ((b2 as u32) << 16u32) | ((b3 as u32) << 24u32)) as u32;
    assert(((x >> 8u32) & 0xff) as u8 == b1) by (bit_vector)
        requires x == ((b0 as u32) | ((b1 as u32) << 8u32) | ((b2 as u32) << 16u32) | ((b3 as u32) << 24u32)) as u32;
    assert(((x >> 16u32) & 0xff) as u8 == b2) by (bit_vector)
        requires x == ((b0 as u32) | ((b1 as u32) << 8u32) | ((b2 as u32) << 16u32) | ((b3 as u32) << 24u32)) as u32;
    assert(((x >> 24u32) & 0xff) as u8 == b3) by (bit_vector)
        requires x == ((b0 as u32) | ((b1 as u32) << 8u32) | ((b2 as u32) << 16u32) | ((b3 as u32) << 24u32)) as u32;
}

/// Reading a `u16` and writing it back gives the same two bytes.
pub proof fn lemma_u16_round_trip(b: Seq<u8>, i: int)
    requires
        0 <= i,
        i + 2 <= b.len(),
    ensures
        u16_le(u16_at(b, i)) == b.subrange(i, i + 2),
{
    lemma_u16_bits(b[i], b[i + 1]);
    assert(u16_le(u16_at(b, i)) =~= b.subrange(i, i + 2));
}

/// Reading a `u32` and writing it back gives the same four bytes.
pub proof fn lemma_u32_round_trip(b: Seq<u8>, i: int)
    requires
        0 <= i,
        i + 4 <= b.len(),
    ensures
        u32_le(u32_at(b, i)) == b.subrange(i, i + 4),
{
    lemma_u32_bits(b[i], b[i + 1], b[i + 2], b[i + 3]);
    assert(u32_le(u32_at(b, i)) =~= b.subrange(i, i + 4));
}

/// Writing a `u16` and reading it back gives the same value.
pub proof fn lemma_u16_le_at(x: u16)
    ensures
        u16_at(u16_le(x), 0) == x,
{
    let b0 = (x & 0xff) as u8;
    let b1 = ((x >> 8u16) & 0xff) as u8;
    assert(((b0 as u16) | ((b1 as u16) << 8u16)) as u16 == x) by (bit_vector)
        requires b0 == (x & 0xff) as u8, b1 == ((x >> 8u16) & 0xff) as u8;
}

/// Writing a `u32` and reading it back gives the same value.
pub proof fn lemma_u32_le_at(x: u32)
    ensures
        u32_at(u32_le(x), 0) == x,
{
    let b0 = (x & 0xff) as u8;
    let b1 = ((x >> 8u32) & 0xff) as u8;
    let b2 = ((x >> 16u32) & 0xff) as u8;
    let b3 = ((x >> 24u32) & 0xff) as u8;
    assert(((b0 as u32) | ((b1 as u32) << 8u32) | ((b2 as u32) << 16u32) | ((b3 as u32) << 24u32)) as u32 == x) by (bit_vector)
        requires
            b0 == (x & 0xff) as u8,
            b1 == ((x >> 8u32) & 0xff) as u8,
            b2 == ((x >> 16u32) & 0xff) as u8,
            b3 == ((x >> 24u32) & 0xff) as u8;
}

/// The little-endian `u16` at offset `i`.
pub fn read_u16(b: &[u8], i: usize) -> (r: u16)
    requires
        i + 2 <= b@.len(),
    ensures
        r == u16_at(b@, i as int),
{
    ((b[i] as u16) | ((b[i + 1] as u16) << 8u16)) as u16
}

/// The little-endian `u32` at offset `i`.
pub fn read_u32(b: &[u8], i: usize) -> (r: u32)
    requires
        i + 4 <= b@.len(),
    ensures
        r == u32_at(b@, i as int),
{
    ((b[i] as u32) | ((b[i + 1] as u32) << 8u32) | ((b[i + 2] as u32) << 16u32) | ((b[i + 3] as u32) << 24u32)) as u32
}

/// Appends the little-endian bytes of `x`.
pub fn push_u16(out: &mut Vec<u8>, x: u16)
    ensures
        final(out)@ == old(out)@ + u16_le(x),
{
    out.push((x & 0xff) as u8);
    out.push(((x >> 8u16) & 0xff) as u8);
    assert(out@ =~= old(out)@ + u16_le(x));
}

/// Appends the little-endian bytes of `x`.
pub fn push_u32(out: &mut Vec<u8>, x: u32)
    ensures
        final(out)@ == old(out)@ + u32_le(x),
{
    out.push((x & 0xff) as u8);
    out.push(((x >> 8u32) & 0xff) as u8);
    out.push(((x >> 16u32) & 0xff) as u8);
    out.push(((x >> 24u32) & 0xff) as u8);
    assert(out@ =~= old(out)@ + u32_le(x));
}

/// Appends `b`.
pub fn push_bytes(out: &mut Vec<u8>, b: &[u8])
    ensures
        final(out)@ == old(out)@ + b@,
{
    let mut i: usize = 0;
    while i < b.len()
        invariant
            0 <= i <= b@.len(),
            out@ == old(out)@ + b@.subrange(0, i as int),
        decreases b.len() - i,
    {
        out.push(b[i]);
        i += 1;
        assert(out@ =~= old(out)@ + b@.subrange(0, i as int));
    }
    assert(b@.subrange(0, b@.len() as int) =~= b@);
}

/// The bytes `b[from..to]` as a vector.
pub fn copy_range(b: &[u8], from: usize, to: usize) -> (r: Vec<u8>)
    requires
        from <= to <= b@.len(),
    ensures
        r@ == b@.subrange(from as int, to as int),
{
    let mut r: Vec<u8> = Vec::new();
    let mut i: usize = from;
    while i < to
        invariant
            from <= i <= to <= b@.len(),
            r@ == b@.subrange(from as int, i as int),
        decreases to - i,
    {
        r.push(b[i]);
        i += 1;
        assert(r@ =~= b@.subrange(from as int, i as int));
    }
    r
}

/// Relies on `std::str::from_utf8`: it accepts exactly the well-formed
/// UTF-8 byte sequences and yields the characters they encode.
#[verifier::external_body]
pub(crate) fn utf8_string(b: &[u8]) -> (r: Option<String>)
    ensures
        r is Some <==> valid_utf8(b@),
        r matches Some(s) ==> s@ == decode_utf8(b@),
{
    std::str::from_utf8(b).ok().map(|s| s.to_string())
}

/// The UTF-8 bytes of `s`.
pub fn utf8_bytes(s: &String) -> (r: &[u8])
    ensures
        r@ == encode_utf8(s@),
{
    s.as_str().as_bytes()
}

/// `data` holds the bytes `b` at offset `at`.
pub open spec fn holds_at(data: Seq<u8>, at: int, b: Seq<u8>) -> bool {
    0 <= at && at + b.len() <= data.len() && data.subrange(at, at + b.len()) == b
}

pub proof fn lemma_holds_split(d: Seq<u8>, at: int, a: Seq<u8>, b: Seq<u8>)
    requires
        holds_at(d, at, a + b),
    ensures
        holds_at(d, at, a),
        holds_at(d, at + a.len(), b),
{
    let whole = d.subrange(at, at + (a + b).len());
    assert(whole == a + b);
    assert(d.subrange(at, at + a.len()) =~= whole.subrange(0, a.len() as int));
    assert(d.subrange(at + a.len(), at + a.len() + b.len()) =~= whole.subrange(a.len() as int, (a + b).len() as int));
    assert((a + b).subrange(0, a.len() as int) =~= a);
    assert((a + b).subrange(a.len() as int, (a + b).len() as int) =~= b);
}

/// `d` is the beginning of `full`.
pub open spec fn is_prefix(d: Seq<u8>, full: Seq<u8>) -> bool {
    d.len() <= full.len() && full.subrange(0, d.len() as int) == d
}

/// What `full` holds within the length of its beginning `d`, `d` holds.
pub proof fn lemma_prefix_holds(d: Seq<u8>, full: Seq<u8>, at: int, x: Seq<u8>)
    requires
        is_prefix(d, full),
        holds_at(full, at, x),
        at + x.len() <= d.len(),
    ensures
        holds_at(d, at, x),
{
    assert(d.subrange(at, at + x.len()) =~= full.subrange(0, d.len() as int).subrange(at, at + x.len()));
    assert(full.subrange(0, d.len() as int).subrange(at, at + x.len()) =~= full.subrange(at, at + x.len()));
}

} // verus!
