//! Segment ids: ULIDs, held as the 128-bit numbers they are.
//!
//! The upper 48 bits of a ULID are the time of its making in milliseconds, the lower
//! 80 bits are random, so ids made later are greater, and the text of an id sorts as
//! the id does. A segment lives in the file that is named by the text of its id and
//! ends in `.log`.

use vstd::prelude::*;
use vstd::string::{StrSliceExecFns, StringExecFns};

verus! {

/// The digit of Crockford's base 32 that stands for a number below 32.
pub open spec fn base32_digit(digit: u128) -> char {
    "0123456789ABCDEFGHJKMNPQRSTVWXYZ"@[digit as int]
}

/// The canonical text of an id: 26 digits of Crockford's base 32, five bits each, the
/// most significant first (the first digit stands for the upper three bits).
pub open spec fn ulid_text(id: u128) -> Seq<char> {
    Seq::new(26, |place: int| base32_digit((id >> ((5 * (25 - place)) as u128)) & 0x1f))
}

/// The id that `Ulid::from_string` reads from a text, if it reads one.
pub uninterp spec fn ulid_value(text: Seq<char>) -> Option<u128>;

/// The random part of an id: its lower 80 bits, all set.
pub const RANDOM_MASK: u128 = 0xFFFF_FFFF_FFFF_FFFF_FFFF;

/// The id that follows `id` within the same millisecond, if there is one: the random
/// part is counted up by one, and there is no successor once it is all ones.
pub open spec fn successor(id: u128) -> Option<u128> {
    if id & RANDOM_MASK == RANDOM_MASK {
        None
    } else {
        Some((id + 1) as u128)
    }
}

/// The time part of an id with every bit set: the last millisecond that an id can
/// carry.
pub const LAST_MILLISECOND: u128 = 0xFFFF_FFFF_FFFF;

/// The id under which a new tail is begun behind a tail with the id `tail`, which is
/// not the greatest id there is. It is the spare id where that is greater. Else it is
/// the first id of the millisecond after that of `tail`, so that the ids which follow
/// `tail` within its own millisecond stay free for its compaction; and where `tail`
/// carries the last millisecond, it is the id after `tail`.
pub open spec fn rollover_id(tail: u128, spare: u128) -> u128 {
    if spare > tail {
        spare
    } else if tail >> 80 < LAST_MILLISECOND {
        (((tail >> 80) + 1) as u128) << 80
    } else {
        (tail + 1) as u128
    }
}

/// The id of the segment in the file called `name`: the name is the canonical text of
/// an id followed by `.log`. Any other name belongs to no segment.
pub open spec fn named_segment(name: Seq<char>) -> Option<u128> {
    let stem = name.subrange(0, name.len() - 4);
    if name.len() < 4 || name.subrange(name.len() - 4, name.len() as int) != ".log"@ {
        None
    } else if ulid_value(stem) is Some && ulid_text(ulid_value(stem)->0) == stem {
        ulid_value(stem)
    } else {
        None
    }
}

/// `Ulid::new` of the `ulid` crate: an id made from the clock and a random number.
/// Nothing is known of the result.
#[verifier::external_body]
fn ulid_new() -> (id: u128) {
    ulid::Ulid::new().0
}

/// `Ulid::increment` of the `ulid` crate. Trusted: it returns `None` where all 80
/// random bits are set, and else the id plus one.
#[verifier::external_body]
fn ulid_increment(id: u128) -> (next: Option<u128>)
    ensures
        next == successor(id),
{
    ulid::Ulid(id).increment().map(|ulid| ulid.0)
}

/// `Ulid::to_string` of the `ulid` crate. Trusted: the result is the canonical text of
/// the id, digit by digit, and `Ulid::from_string` reads the id back from it.
#[verifier::external_body]
fn ulid_to_string(id: u128) -> (text: String)
    ensures
        text@ == ulid_text(id),
        ulid_value(text@) == Some(id),
{
    ulid::Ulid(id).to_string()
}

/// `Ulid::from_string` of the `ulid` crate, without the reason of a failure. Trusted:
/// the result is what the library calls the id read from the text.
#[verifier::external_body]
fn ulid_from_string(text: &str) -> (id: Option<u128>)
    ensures
        id == ulid_value(text@),
{
    ulid::Ulid::from_string(text).ok().map(|ulid| ulid.0)
}

/// A successor is the next number, so it is greater.
pub proof fn lemma_successor_is_next(id: u128)
    ensures
        successor(id) matches Some(next) ==> next == id + 1,
{
    assert(id & RANDOM_MASK != RANDOM_MASK ==> id < 0xFFFF_FFFF_FFFF_FFFF_FFFF_FFFF_FFFF_FFFF)
        by (bit_vector);
}

/// The id of a new tail is above the id of the tail before it.
pub proof fn lemma_rollover_id_is_greater(tail: u128, spare: u128)
    requires
        tail < u128::MAX,
    ensures
        rollover_id(tail, spare) > tail,
{
    let time = tail >> 80;
    assert(time <= LAST_MILLISECOND) by (bit_vector)
        requires
            time == tail >> 80,
    ;
    if time < LAST_MILLISECOND {
        let next = (time + 1) as u128;
        assert(next << 80 > tail) by (bit_vector)
            requires
                time == tail >> 80,
                time < LAST_MILLISECOND,
                next == time + 1,
        ;
    }
}

/// An id for a new segment, made from the clock and a random number.
pub fn fresh() -> u128 {
    ulid_new()
}

/// The id that follows `id`, if there is one.
pub fn next_after(id: u128) -> (next: Option<u128>)
    ensures
        next == successor(id),
        next matches Some(n) ==> n == id + 1,
{
    proof {
        lemma_successor_is_next(id);
    }
    ulid_increment(id)
}

/// The id under which a new tail is begun behind a tail with the id `tail`, given a
/// spare id that is taken where it is greater.
pub fn rollover_after(tail: u128, spare: u128) -> (id: u128)
    requires
        tail < u128::MAX,
    ensures
        id == rollover_id(tail, spare),
        id > tail,
{
    proof {
        lemma_rollover_id_is_greater(tail, spare);
        let time = tail >> 80;
        assert(time <= LAST_MILLISECOND) by (bit_vector)
            requires
                time == tail >> 80,
        ;
    }
    if spare > tail {
        spare
    } else if tail >> 80 < LAST_MILLISECOND {
        ((tail >> 80) + 1) << 80
    } else {
        tail + 1
    }
}

/// The name of the file that holds the segment `id`.
pub fn file_name(id: u128) -> (name: String)
    ensures
        name@ == ulid_text(id) + ".log"@,
        named_segment(name@) == Some(id),
{
    let mut name = ulid_to_string(id);
    name.append(".log");
    proof {
        reveal_strlit(".log");
        let stem = ulid_text(id);
        assert(name@.subrange(0, name@.len() - 4) =~= stem);
        assert(name@.subrange(name@.len() - 4, name@.len() as int) =~= ".log"@);
    }
    name
}

/// The id of the segment that the file called `name` holds, or `None` where the name
/// is not that of a segment.
pub fn segment_id(name: &str) -> (id: Option<u128>)
    ensures
        id == named_segment(name@),
{
    let len = name.unicode_len();
    if len < 4 {
        return None;
    }
    let stem = name.substring_char(0, len - 4);
    if String::from_str(name.substring_char(len - 4, len)) != String::from_str(".log") {
        return None;
    }
    match ulid_from_string(stem) {
        Some(id) => if ulid_to_string(id) == String::from_str(stem) {
            Some(id)
        } else {
            None
        },
        None => None,
    }
}

} // verus!
