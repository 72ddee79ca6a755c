//! Fixed-width big-endian integers, as the record format lays them out.

use vstd::prelude::*;

verus! {

/// The two bytes of `value`, most significant first.
pub open spec fn u16_be(value: u16) -> Seq<u8> {
    seq![(value >> 8) as u8, (value & 0xFF) as u8]
}

/// The number whose big-endian image is the first two bytes of `bytes`.
pub open spec fn u16_from_be(bytes: Seq<u8>) -> u16 {
    ((bytes[0] as u16) << 8) | (bytes[1] as u16)
}

/// The eight bytes of `value`, most significant first.
pub open spec fn u64_be(value: u64) -> Seq<u8> {
    seq![
        (value >> 56) as u8,
        ((value >> 48) & 0xFF) as u8,
        ((value >> 40) & 0xFF) as u8,
        ((value >> 32) & 0xFF) as u8,
        ((value >> 24) & 0xFF) as u8,
        ((value >> 16) & 0xFF) as u8,
        ((value >> 8) & 0xFF) as u8,
        (value & 0xFF) as u8,
    ]
}

/// The number whose big-endian image is the first eight bytes of `bytes`.
pub open spec fn u64_from_be(bytes: Seq<u8>) -> u64 {
    ((bytes[0] as u64) << 56) | ((bytes[1] as u64) << 48) | ((bytes[2] as u64) << 40) | ((
    bytes[3] as u64) << 32) | ((bytes[4] as u64) << 24) | ((bytes[5] as u64) << 16) | ((
    bytes[6] as u64) << 8) | (bytes[7] as u64)
}

/// Reading back what was written gives the number again.
pub proof fn lemma_u16_round_trip(value: u16)
    ensures
        u16_be(value).len() == 2,
        u16_from_be(u16_be(value)) == value,
{
    let hi = (value >> 8) as u8;
    let lo = (value & 0xFF) as u8;
    assert(((hi as u16) << 8) | (lo as u16) == value) by (bit_vector)
        requires
            hi == (value >> 8) as u8,
            lo == (value & 0xFF) as u8,
    ;
}

/// Two bytes are the image of the number read from them.
pub proof fn lemma_u16_image(bytes: Seq<u8>)
    requires
        bytes.len() == 2,
    ensures
        u16_be(u16_from_be(bytes)) == bytes,
{
    let (hi, lo) = (bytes[0], bytes[1]);
    let value = u16_from_be(bytes);
    assert((value >> 8) as u8 == hi && (value & 0xFF) as u8 == lo) by (bit_vector)
        requires
            value == ((hi as u16) << 8) | (lo as u16),
    ;
    assert(u16_be(value) =~= bytes);
}

/// Reading back what was written gives the number again.
pub proof fn lemma_u64_round_trip(value: u64)
    ensures
        u64_be(value).len() == 8,
        u64_from_be(u64_be(value)) == value,
{
    let b0 = (value >> 56) as u8;
    let b1 = ((value >> 48) & 0xFF) as u8;
    let b2 = ((value >> 40) & 0xFF) as u8;
    let b3 = ((value >> 32) & 0xFF) as u8;
    let b4 = ((value >> 24) & 0xFF) as u8;
    let b5 = ((value >> 16) & 0xFF) as u8;
    let b6 = ((value >> 8) & 0xFF) as u8;
    let b7 = (value & 0xFF) as u8;
    assert(((b0 as u64) << 56) | ((b1 as u64) << 48) | ((b2 as u64) << 40) | ((b3 as u64) << 32)
        | ((b4 as u64) << 24) | ((b5 as u64) << 16) | ((b6 as u64) << 8) | (b7 as u64) == value)
        by (bit_vector)
        requires
            b0 == (value >> 56) as u8,
            b1 == ((value >> 48) & 0xFF) as u8,
            b2 == ((value >> 40) & 0xFF) as u8,
            b3 == ((value >> 32) & 0xFF) as u8,
            b4 == ((value >> 24) & 0xFF) as u8,
            b5 == ((value >> 16) & 0xFF) as u8,
            b6 == ((value >> 8) & 0xFF) as u8,
            b7 == (value & 0xFF) as u8,
    ;
}

/// Eight bytes are the image of the number read from them.
pub proof fn lemma_u64_image(bytes: Seq<u8>)
    requires
        bytes.len() == 8,
    ensures
        u64_be(u64_from_be(bytes)) == bytes,
{
    let (b0, b1, b2, b3) = (bytes[0], bytes[1], bytes[2], bytes[3]);
    let (b4, b5, b6, b7) = (bytes[4], bytes[5], bytes[6], bytes[7]);
    let value = u64_from_be(bytes);
    assert((value >> 56) as u8 == b0 && ((value >> 48) & 0xFF) as u8 == b1 && ((value >> 40)
        & 0xFF) as u8 == b2 && ((value >> 32) & 0xFF) as u8 == b3 && ((value >> 24) & 0xFF) as u8
        == b4 && ((value >> 16) & 0xFF) as u8 == b5 && ((value >> 8) & 0xFF) as u8 == b6 && (value
        & 0xFF) as u8 == b7) by (bit_vector)
        requires
            value == ((b0 as u64) << 56) | ((b1 as u64) << 48) | ((b2 as u64) << 40) | ((
            b3 as u64) << 32) | ((b4 as u64) << 24) | ((b5 as u64) << 16) | ((b6 as u64) << 8) | (
            b7 as u64),
    ;
    assert(u64_be(value) =~= bytes);
}

/// Appends the big-endian image of `value` to `out`.
pub fn put_u16(out: &mut Vec<u8>, value: u16)
    ensures
        final(out)@ == old(out)@ + u16_be(value),
{
    out.push((value >> 8) as u8);
    out.push((value & 0xFF) as u8);
    assert(out@ =~= old(out)@ + u16_be(value));
}

/// Appends the big-endian image of `value` to `out`.
pub fn put_u64(out: &mut Vec<u8>, value: u64)
    ensures
        final(out)@ == old(out)@ + u64_be(value),
{
    out.push((value >> 56) as u8);
    out.push(((value >> 48) & 0xFF) as u8);
    out.push(((value >> 40) & 0xFF) as u8);
    out.push(((value >> 32) & 0xFF) as u8);
    out.push(((value >> 24) & 0xFF) as u8);
    out.push(((value >> 16) & 0xFF) as u8);
    out.push(((value >> 8) & 0xFF) as u8);
    out.push((value & 0xFF) as u8);
    assert(out@ =~= old(out)@ + u64_be(value));
}

/// Appends `bytes` to `out`.
pub fn put_bytes(out: &mut Vec<u8>, bytes: &[u8])
    ensures
        final(out)@ == old(out)@ + bytes@,
{
    out.extend_from_slice(bytes);
    assert(out@ =~= old(out)@ + bytes@);
}

/// Whether two byte strings are the same.
pub fn same_bytes(a: &[u8], b: &[u8]) -> (same: bool)
    ensures
        same == (a@ == b@),
{
    if a.len() != b.len() {
        return false;
    }
    let mut i: usize = 0;
    while i < a.len()
        invariant
            i <= a@.len(),
            a@.len() == b@.len(),
            forall|j: int| 0 <= j < i ==> a@[j] == b@[j],
        decreases a@.len() - i,
    {
        if a[i] != b[i] {
            assert(a@[i as int] != b@[i as int]);
            return false;
        }
        i += 1;
    }
    assert(a@ =~= b@);
    true
}

/// Reads the big-endian number in the two bytes of `bytes` that start at `at`.
pub fn read_u16(bytes: &[u8], at: usize) -> (value: u16)
    requires
        at + 2 <= bytes@.len(),
    ensures
        value == u16_from_be(bytes@.subrange(at as int, at + 2)),
{
    ((bytes[at] as u16) << 8) | (bytes[at + 1] as u16)
}

/// Reads the big-endian number in the eight bytes of `bytes` that start at `at`.
pub fn read_u64(bytes: &[u8], at: usize) -> (value: u64)
    requires
        at + 8 <= bytes@.len(),
    ensures
        value == u64_from_be(bytes@.subrange(at as int, at + 8)),
{
    ((bytes[at] as u64) << 56) | ((bytes[at + 1] as u64) << 48) | ((bytes[at + 2] as u64) << 40)
        | ((bytes[at + 3] as u64) << 32) | ((bytes[at + 4] as u64) << 24) | ((bytes[at + 5] as u64)
        << 16) | ((bytes[at + 6] as u64) << 8) | (bytes[at + 7] as u64)
}

} // verus!
