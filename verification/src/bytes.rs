//! Fixed-width big-endian integers.

use vstd::prelude::*;

verus! {

/// The eight bytes of `x`, most significant first.
pub open spec fn be_u64(x: u64) -> Seq<u8> {
    seq![
        ((x / 0x0100_0000_0000_0000) % 0x100) as u8,
        ((x / 0x0001_0000_0000_0000) % 0x100) as u8,
        ((x / 0x0000_0100_0000_0000) % 0x100) as u8,
        ((x / 0x0000_0001_0000_0000) % 0x100) as u8,
        ((x / 0x0000_0000_0100_0000) % 0x100) as u8,
        ((x / 0x0000_0000_0001_0000) % 0x100) as u8,
        ((x / 0x0000_0000_0000_0100) % 0x100) as u8,
        (x % 0x100) as u8,
    ]
}

/// The number whose big-endian bytes are the first eight of `b`.
pub open spec fn u64_from_be(b: Seq<u8>) -> u64
    recommends
        b.len() >= 8,
{
    (b[0] * 0x0100_0000_0000_0000 + b[1] * 0x0001_0000_0000_0000 + b[2] * 0x0000_0100_0000_0000
        + b[3] * 0x0000_0001_0000_0000 + b[4] * 0x0000_0000_0100_0000 + b[5]
        * 0x0000_0000_0001_0000 + b[6] * 0x0000_0000_0000_0100 + b[7]) as u64
}

/// The four bytes of `x`, most significant first.
pub open spec fn be_u32(x: u32) -> Seq<u8> {
    seq![
        ((x / 0x0100_0000) % 0x100) as u8,
        ((x / 0x0001_0000) % 0x100) as u8,
        ((x / 0x0000_0100) % 0x100) as u8,
        (x % 0x100) as u8,
    ]
}

/// The number whose big-endian bytes are the first four of `b`.
pub open spec fn u32_from_be(b: Seq<u8>) -> u32
    recommends
        b.len() >= 4,
{
    (b[0] * 0x0100_0000 + b[1] * 0x0001_0000 + b[2] * 0x0000_0100 + b[3]) as u32
}

proof fn lemma_digits_compose_u64(x: u64)
    by (bit_vector)
    ensures
        ((x / 0x0100_0000_0000_0000) % 0x100) * 0x0100_0000_0000_0000 + ((x
            / 0x0001_0000_0000_0000) % 0x100) * 0x0001_0000_0000_0000 + ((x
            / 0x0000_0100_0000_0000) % 0x100) * 0x0000_0100_0000_0000 + ((x
            / 0x0000_0001_0000_0000) % 0x100) * 0x0000_0001_0000_0000 + ((x
            / 0x0000_0000_0100_0000) % 0x100) * 0x0000_0000_0100_0000 + ((x
            / 0x0000_0000_0001_0000) % 0x100) * 0x0000_0000_0001_0000 + ((x
            / 0x0000_0000_0000_0100) % 0x100) * 0x0000_0000_0000_0100 + (x % 0x100) == x,
        (x / 0x0100_0000_0000_0000) % 0x100 < 0x100,
        (x / 0x0001_0000_0000_0000) % 0x100 < 0x100,
        (x / 0x0000_0100_0000_0000) % 0x100 < 0x100,
        (x / 0x0000_0001_0000_0000) % 0x100 < 0x100,
        (x / 0x0000_0000_0100_0000) % 0x100 < 0x100,
        (x / 0x0000_0000_0001_0000) % 0x100 < 0x100,
        (x / 0x0000_0000_0000_0100) % 0x100 < 0x100,
        x % 0x100 < 0x100,
{
}

proof fn lemma_digits_compose_u32(x: u32)
    by (bit_vector)
    ensures
        ((x / 0x0100_0000) % 0x100) * 0x0100_0000 + ((x / 0x0001_0000) % 0x100) * 0x0001_0000 + ((x
            / 0x0000_0100) % 0x100) * 0x0000_0100 + (x % 0x100) == x,
        (x / 0x0100_0000) % 0x100 < 0x100,
        (x / 0x0001_0000) % 0x100 < 0x100,
        (x / 0x0000_0100) % 0x100 < 0x100,
        x % 0x100 < 0x100,
{
}

/// Decoding the big-endian bytes of a number gives the number back.
pub proof fn lemma_u64_be_round_trip(x: u64)
    ensures
        be_u64(x).len() == 8,
        u64_from_be(be_u64(x)) == x,
{
    lemma_digits_compose_u64(x);
}

/// Decoding the big-endian bytes of a number gives the number back.
pub proof fn lemma_u32_be_round_trip(x: u32)
    ensures
        be_u32(x).len() == 4,
        u32_from_be(be_u32(x)) == x,
{
    lemma_digits_compose_u32(x);
}

proof fn lemma_shift_digits_u64(x: u64)
    by (bit_vector)
    ensures
        (x >> 56) & 0xff == (x / 0x0100_0000_0000_0000) % 0x100,
        (x >> 48) & 0xff == (x / 0x0001_0000_0000_0000) % 0x100,
        (x >> 40) & 0xff == (x / 0x0000_0100_0000_0000) % 0x100,
        (x >> 32) & 0xff == (x / 0x0000_0001_0000_0000) % 0x100,
        (x >> 24) & 0xff == (x / 0x0000_0000_0100_0000) % 0x100,
        (x >> 16) & 0xff == (x / 0x0000_0000_0001_0000) % 0x100,
        (x >> 8) & 0xff == (x / 0x0000_0000_0000_0100) % 0x100,
        x & 0xff == x % 0x100,
        (x >> 56) & 0xff < 0x100,
        (x >> 48) & 0xff < 0x100,
        (x >> 40) & 0xff < 0x100,
        (x >> 32) & 0xff < 0x100,
        (x >> 24) & 0xff < 0x100,
        (x >> 16) & 0xff < 0x100,
        (x >> 8) & 0xff < 0x100,
        x & 0xff < 0x100,
{
}

proof fn lemma_shift_digits_u32(x: u32)
    by (bit_vector)
    ensures
        (x >> 24) & 0xff == (x / 0x0100_0000) % 0x100,
        (x >> 16) & 0xff == (x / 0x0001_0000) % 0x100,
        (x >> 8) & 0xff == (x / 0x0000_0100) % 0x100,
        x & 0xff == x % 0x100,
        (x >> 24) & 0xff < 0x100,
        (x >> 16) & 0xff < 0x100,
        (x >> 8) & 0xff < 0x100,
        x & 0xff < 0x100,
{
}

/// The eight big-endian bytes of `x`.
pub fn u64_be_bytes(x: u64) -> (b: [u8; 8])
    ensures
        b@ == be_u64(x),
{
    proof {
        lemma_shift_digits_u64(x);
    }
    let b: [u8; 8] = [
        ((x >> 56) & 0xff) as u8,
        ((x >> 48) & 0xff) as u8,
        ((x >> 40) & 0xff) as u8,
        ((x >> 32) & 0xff) as u8,
        ((x >> 24) & 0xff) as u8,
        ((x >> 16) & 0xff) as u8,
        ((x >> 8) & 0xff) as u8,
        (x & 0xff) as u8,
    ];
    assert(b@ =~= be_u64(x));
    b
}

/// Appends the eight big-endian bytes of `x` to `out`.
pub fn push_u64_be(out: &mut Vec<u8>, x: u64)
    ensures
        final(out)@ == old(out)@ + be_u64(x),
{
    let b: [u8; 8] = u64_be_bytes(x);
    out.extend_from_slice(&b);
    assert(out@ =~= old(out)@ + be_u64(x));
}

/// Appends the four big-endian bytes of `x` to `out`.
pub fn push_u32_be(out: &mut Vec<u8>, x: u32)
    ensures
        final(out)@ == old(out)@ + be_u32(x),
{
    proof {
        lemma_shift_digits_u32(x);
    }
    out.push(((x >> 24) & 0xff) as u8);
    out.push(((x >> 16) & 0xff) as u8);
    out.push(((x >> 8) & 0xff) as u8);
    out.push((x & 0xff) as u8);
    assert(out@ =~= old(out)@ + be_u32(x));
}

/// Reads the big-endian number in the eight bytes of `bytes` from `at` on.
pub fn read_u64_be(bytes: &[u8], at: usize) -> (x: u64)
    requires
        at + 8 <= bytes@.len(),
    ensures
        x == u64_from_be(bytes@.subrange(at as int, at + 8)),
{
    let ghost b = bytes@.subrange(at as int, at + 8);
    assert(bytes@.len() == bytes.len());
    let hi: u32 = read_u32_be(bytes, at);
    let lo: u32 = read_u32_be(bytes, at + 4);
    proof {
        let h = bytes@.subrange(at as int, at + 4);
        let l = bytes@.subrange(at + 4, at + 8);
        assert(h[0] == b[0] && h[1] == b[1] && h[2] == b[2] && h[3] == b[3]);
        assert(l[0] == b[4] && l[1] == b[5] && l[2] == b[6] && l[3] == b[7]);
    }
    hi as u64 * 0x1_0000_0000 + lo as u64
}

/// Reads the big-endian number in the four bytes of `bytes` from `at` on.
pub fn read_u32_be(bytes: &[u8], at: usize) -> (x: u32)
    requires
        at + 4 <= bytes@.len(),
    ensures
        x == u32_from_be(bytes@.subrange(at as int, at + 4)),
{
    let ghost b = bytes@.subrange(at as int, at + 4);
    assert(bytes@.len() == bytes.len());
    let b0: u8 = bytes[at];
    let b1: u8 = bytes[at + 1];
    let b2: u8 = bytes[at + 2];
    let b3: u8 = bytes[at + 3];
    assert(b0 == b[0] && b1 == b[1] && b2 == b[2] && b3 == b[3]);
    ((b0 as u32 * 256 + b1 as u32) * 256 + b2 as u32) * 256 + b3 as u32
}

} // verus!
