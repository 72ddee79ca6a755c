//! The record checksum: CRC-16/IBM-SDLC (also known as X-25).
//!
//! Width 16, polynomial 0x1021, initial value 0xFFFF, input and output reflected,
//! final XOR 0xFFFF. The register is kept reflected, so the polynomial appears as
//! 0x8408 and bits leave at the low end.

use vstd::prelude::*;

verus! {

/// One step of the reflected shift register: the low bit leaves, and where it was set
/// the reflected polynomial is folded in.
pub open spec fn shift(register: u16) -> u16 {
    if register & 1 == 1 {
        (register >> 1) ^ 0x8408
    } else {
        register >> 1
    }
}

/// Eight steps of the register started from `index`: the entry of the byte-wise
/// lookup table at `index`.
pub open spec fn table_entry(index: u16) -> u16 {
    shift(shift(shift(shift(shift(shift(shift(shift(index))))))))
}

/// The register after one more message byte.
pub open spec fn absorb(register: u16, byte: u8) -> u16 {
    table_entry((register ^ (byte as u16)) & 0xFF) ^ (register >> 8)
}

/// The register after all of `bytes`, started from 0xFFFF.
pub open spec fn register_after(bytes: Seq<u8>) -> u16
    decreases bytes.len(),
{
    if bytes.len() == 0 {
        0xFFFF
    } else {
        absorb(register_after(bytes.drop_last()), bytes.last())
    }
}

/// The CRC-16/IBM-SDLC checksum of `bytes`.
pub open spec fn crc16(bytes: Seq<u8>) -> u16 {
    register_after(bytes) ^ 0xFFFF
}

/// Two byte strings of one length that differ at `at` and nowhere else.
pub open spec fn differ_only_at(a: Seq<u8>, b: Seq<u8>, at: int) -> bool {
    &&& a.len() == b.len()
    &&& 0 <= at < a.len()
    &&& a[at] != b[at]
    &&& forall|i: int| 0 <= i < a.len() && i != at ==> a[i] == b[i]
}

/// The table-driven checksum of the `crc` crate, `Crc::<u16>::checksum` with the
/// catalogue entry `CRC_16_IBM_SDLC`. Trusted: the result is the checksum defined by
/// [`crc16`], which follows the crate's own steps: the register starts at 0xFFFF, each
/// byte replaces it by `table[(register ^ byte) & 0xFF] ^ (register >> 8)`, where
/// `table[i]` is `i` shifted eight times, and the result is the register XOR 0xFFFF.
#[verifier::external_body]
pub(crate) fn checksum(bytes: &[u8]) -> (sum: u16)
    ensures
        sum == crc16(bytes@),
{
    crc::Crc::<u16>::new(&crc::CRC_16_IBM_SDLC).checksum(bytes)
}

proof fn lemma_absorb_injective(a: u16, b: u16, x: u8, y: u8)
    ensures
        absorb(a, x) == absorb(b, x) ==> a == b,
        absorb(a, x) == absorb(a, y) ==> x == y,
{
    assert(absorb(a, x) == absorb(b, x) ==> a == b) by (bit_vector);
    assert(absorb(a, x) == absorb(a, y) ==> x == y) by (bit_vector);
}

proof fn lemma_register_diverges(a: Seq<u8>, b: Seq<u8>, at: int)
    requires
        differ_only_at(a, b, at),
    ensures
        register_after(a) != register_after(b),
    decreases a.len(),
{
    let n = a.len() as int;
    let (ra, rb) = (register_after(a.drop_last()), register_after(b.drop_last()));
    if at == n - 1 {
        assert(a.drop_last() =~= b.drop_last());
        lemma_absorb_injective(ra, ra, a.last(), b.last());
    } else {
        assert(differ_only_at(a.drop_last(), b.drop_last(), at));
        lemma_register_diverges(a.drop_last(), b.drop_last(), at);
        lemma_absorb_injective(ra, rb, a.last(), a.last());
    }
}

/// The checksum tells apart any two messages of one length that differ in a single
/// byte, whatever the change to that byte: each step of the register is one-to-one in
/// the register and in the byte, so one changed byte changes every later register.
pub proof fn lemma_single_byte_change_detected(a: Seq<u8>, b: Seq<u8>, at: int)
    requires
        differ_only_at(a, b, at),
    ensures
        crc16(a) != crc16(b),
{
    lemma_register_diverges(a, b, at);
    let (ra, rb) = (register_after(a), register_after(b));
    assert(ra ^ 0xFFFF == rb ^ 0xFFFF ==> ra == rb) by (bit_vector);
}

} // verus!
