//! The record codec: one write or delete, framed and checksummed.
//!
//! A record is, in this order: the checksum of everything after it (2 bytes), the
//! timestamp in seconds (8 bytes), the length of the key (8 bytes), the key in UTF-8,
//! the opcode (1 byte) and, for a `Set` only, the length of the value (8 bytes) and the
//! value in UTF-8. All numbers are big-endian.

use vstd::prelude::*;
use vstd::slice::{slice_subrange, slice_to_vec};
use vstd::utf8::*;
use crate::checksum::{checksum, crc16, differ_only_at, lemma_single_byte_change_detected};
use crate::wire::{
    lemma_u16_image,
    lemma_u16_round_trip,
    lemma_u64_image,
    lemma_u64_round_trip,
    put_bytes,
    put_u16,
    put_u64,
    read_u16,
    read_u64,
    u16_be,
    u16_from_be,
    u64_be,
    u64_from_be,
};

verus! {

/// The most bytes that a key or a value may take in a record (64 MiB). A decoder
/// refuses a longer field before it allocates anything for it.
pub const MAX_FIELD_BYTES: u64 = 0x400_0000;

/// The opcode of a `Set` record.
pub const OP_SET: u8 = 0;

/// The opcode of a `Delete` record.
pub const OP_DELETE: u8 = 1;

/// The operation recorded by a log entry. `Put` is written with the opcode of a `Set`.
#[derive(Clone, Debug, PartialEq, Eq)]
pub enum Operation {
    /// Store the value under the key.
    Put(String),
    /// Remove the key.
    Delete,
}

/// An operation as a mathematical value.
pub enum OperationView {
    Put(Seq<char>),
    Delete,
}

impl View for Operation {
    type V = OperationView;

    open spec fn view(&self) -> OperationView {
        match self {
            Operation::Put(value) => OperationView::Put(value@),
            Operation::Delete => OperationView::Delete,
        }
    }
}

/// An entry in a log: a record together with the offset at which it starts.
#[derive(Clone, Debug, PartialEq, Eq)]
pub struct Entry {
    pub offset: u64,
    pub timestamp: u64,
    pub key: String,
    pub operation: Operation,
}

/// An entry as a mathematical value.
pub struct EntryView {
    pub offset: int,
    pub timestamp: u64,
    pub key: Seq<char>,
    pub operation: OperationView,
}

impl View for Entry {
    type V = EntryView;

    open spec fn view(&self) -> EntryView {
        EntryView {
            offset: self.offset as int,
            timestamp: self.timestamp,
            key: self.key@,
            operation: self.operation@,
        }
    }
}

/// What a read finds: an entry, and where it ends.
pub struct Parsed {
    pub entry: EntryView,
    pub end: int,
}

/// The part of a record that follows the key: the opcode and, for a `Set`, the value
/// behind its length.
pub open spec fn tail(operation: OperationView) -> Seq<u8> {
    match operation {
        OperationView::Put(value) => seq![OP_SET] + u64_be(encode_utf8(value).len() as u64)
            + encode_utf8(value),
        OperationView::Delete => seq![OP_DELETE],
    }
}

/// Everything of a record that its checksum covers.
pub open spec fn body(timestamp: u64, key: Seq<char>, operation: OperationView) -> Seq<u8> {
    u64_be(timestamp) + u64_be(encode_utf8(key).len() as u64) + encode_utf8(key) + tail(operation)
}

/// The bytes of a record.
pub open spec fn encoding(timestamp: u64, key: Seq<char>, operation: OperationView) -> Seq<u8> {
    u16_be(crc16(body(timestamp, key, operation))) + body(timestamp, key, operation)
}

/// Whether `text` fits in one field of a record.
pub open spec fn fits(text: Seq<char>) -> bool {
    encode_utf8(text).len() <= MAX_FIELD_BYTES
}

/// Whether a record of `key` and `operation` can be read back: both texts fit.
pub open spec fn encodable(key: Seq<char>, operation: OperationView) -> bool {
    fits(key) && (operation matches OperationView::Put(value) ==> fits(value))
}

/// What `parse` makes of a frame once its extent is known: the entry, if the checksum
/// matches and both texts are UTF-8.
pub open spec fn checked(
    s: Seq<u8>,
    offset: int,
    key_len: int,
    value: Option<Seq<u8>>,
    len: int,
) -> Option<Parsed> {
    let key = s.subrange(18, 18 + key_len);
    if u16_from_be(s.subrange(0, 2)) != crc16(s.subrange(2, len)) {
        None
    } else if !valid_utf8(key) {
        None
    } else if value is Some && !valid_utf8(value->0) {
        None
    } else {
        Some(
            Parsed {
                entry: EntryView {
                    offset,
                    timestamp: u64_from_be(s.subrange(2, 10)),
                    key: decode_utf8(key),
                    operation: match value {
                        Some(v) => OperationView::Put(decode_utf8(v)),
                        None => OperationView::Delete,
                    },
                },
                end: len,
            },
        )
    }
}

/// The record at the front of `s` and its length in bytes, or `None` where `s` does
/// not start with a record. `offset` is only handed on to the entry.
#[verifier::opaque]
pub open spec fn parse(s: Seq<u8>, offset: int) -> Option<Parsed> {
    if s.len() < 19 {
        None
    } else {
        let key_len = u64_from_be(s.subrange(10, 18)) as int;
        if key_len > MAX_FIELD_BYTES || s.len() < 19 + key_len {
            None
        } else if s[18 + key_len] == OP_DELETE {
            checked(s, offset, key_len, None, 19 + key_len)
        } else if s[18 + key_len] != OP_SET || s.len() < 27 + key_len {
            None
        } else {
            let value_len = u64_from_be(s.subrange(19 + key_len, 27 + key_len)) as int;
            if value_len > MAX_FIELD_BYTES || s.len() < 27 + key_len + value_len {
                None
            } else {
                checked(
                    s,
                    offset,
                    key_len,
                    Some(s.subrange(27 + key_len, 27 + key_len + value_len)),
                    27 + key_len + value_len,
                )
            }
        }
    }
}

/// The entry that starts at `at` in `bytes` and the offset just behind it, or `None`
/// where no record starts there.
pub open spec fn decode_at(bytes: Seq<u8>, at: int) -> Option<Parsed> {
    if 0 <= at <= bytes.len() {
        match parse(bytes.skip(at), at) {
            Some(found) => Some(Parsed { entry: found.entry, end: at + found.end }),
            None => None,
        }
    } else {
        None
    }
}

/// The entry that `bytes` holds, where they are one record and nothing else.
pub open spec fn decode_whole(bytes: Seq<u8>) -> Option<EntryView> {
    match parse(bytes, 0) {
        Some(found) => if found.end == bytes.len() {
            Some(found.entry)
        } else {
            None
        },
        None => None,
    }
}

/// Round trip: a record that can be encoded is read back as it was written, whatever
/// follows it, and reading stops exactly behind it. In particular the checksum of the
/// encoded bytes validates.
pub proof fn lemma_round_trip(
    timestamp: u64,
    key: Seq<char>,
    operation: OperationView,
    rest: Seq<u8>,
    offset: int,
)
    requires
        encodable(key, operation),
    ensures
        parse(encoding(timestamp, key, operation) + rest, offset) == Some(
            Parsed {
                entry: EntryView { offset, timestamp, key, operation },
                end: encoding(timestamp, key, operation).len() as int,
            },
        ),
{
    reveal(parse);
    let covered = body(timestamp, key, operation);
    let record = encoding(timestamp, key, operation);
    let s = record + rest;
    let key_bytes = encode_utf8(key);
    let key_len = key_bytes.len() as int;
    lemma_u16_round_trip(crc16(covered));
    lemma_u64_round_trip(timestamp);
    lemma_u64_round_trip(key_len as u64);
    encode_utf8_valid_utf8(key);
    encode_utf8_decode_utf8(key);
    assert(s.subrange(0, 2) =~= u16_be(crc16(covered)));
    assert(s.subrange(2, 10) =~= u64_be(timestamp));
    assert(s.subrange(10, 18) =~= u64_be(key_len as u64));
    assert(s.subrange(18, 18 + key_len) =~= key_bytes);
    match operation {
        OperationView::Put(value) => {
            let value_bytes = encode_utf8(value);
            let value_len = value_bytes.len() as int;
            lemma_u64_round_trip(value_len as u64);
            encode_utf8_valid_utf8(value);
            encode_utf8_decode_utf8(value);
            assert(s[18 + key_len] == OP_SET);
            assert(s.subrange(19 + key_len, 27 + key_len) =~= u64_be(value_len as u64));
            assert(s.subrange(27 + key_len, 27 + key_len + value_len) =~= value_bytes);
            assert(s.subrange(2, 27 + key_len + value_len) =~= covered);
        },
        OperationView::Delete => {
            assert(s[18 + key_len] == OP_DELETE);
            assert(s.subrange(2, 19 + key_len) =~= covered);
        },
    }
}

/// What a successful read says of the bytes: they begin with the encoding of the entry
/// that was read, which is at least 19 bytes long and ends where the read stopped.
pub proof fn lemma_parse_frame(s: Seq<u8>, offset: int)
    requires
        parse(s, offset) is Some,
    ensures
        ({
            let Parsed { entry, end } = parse(s, offset)->0;
            &&& 19 <= end <= s.len()
            &&& entry.offset == offset
            &&& encodable(entry.key, entry.operation)
            &&& s.subrange(0, end) == encoding(entry.timestamp, entry.key, entry.operation)
        }),
{
    reveal(parse);
    let Parsed { entry, end: len } = parse(s, offset)->0;
    let key_len = u64_from_be(s.subrange(10, 18)) as int;
    let key_bytes = s.subrange(18, 18 + key_len);
    lemma_u16_image(s.subrange(0, 2));
    lemma_u64_image(s.subrange(2, 10));
    lemma_u64_image(s.subrange(10, 18));
    decode_utf8_encode_utf8(key_bytes);
    if s[18 + key_len] == OP_DELETE {
        assert(s.subrange(2, len) =~= body(entry.timestamp, entry.key, entry.operation));
    } else {
        let value_len = u64_from_be(s.subrange(19 + key_len, 27 + key_len)) as int;
        let value_bytes = s.subrange(27 + key_len, 27 + key_len + value_len);
        lemma_u64_image(s.subrange(19 + key_len, 27 + key_len));
        decode_utf8_encode_utf8(value_bytes);
        assert(tail(entry.operation) =~= s.subrange(18 + key_len, len));
        assert(s.subrange(2, len) =~= body(entry.timestamp, entry.key, entry.operation));
    }
    assert(s.subrange(0, len) =~= s.subrange(0, 2) + s.subrange(2, len));
}

/// The offset that is handed on changes nothing of a read but the offset of the entry.
pub proof fn lemma_parse_ignores_offset(s: Seq<u8>, offset: int, other: int)
    ensures
        parse(s, offset) is Some <==> parse(s, other) is Some,
        parse(s, offset) is Some ==> parse(s, offset)->0.end == parse(s, other)->0.end,
{
    reveal(parse);
}

/// A read looks at no byte behind the record: where it succeeds, it gives the same on
/// any longer sequence that starts with the same bytes.
pub proof fn lemma_decode_local(bytes: Seq<u8>, more: Seq<u8>, at: int)
    requires
        decode_at(bytes, at) is Some,
    ensures
        decode_at(bytes + more, at) == decode_at(bytes, at),
{
    let s = bytes.skip(at);
    let Parsed { entry, end: len } = parse(s, at)->0;
    lemma_parse_frame(s, at);
    lemma_round_trip(entry.timestamp, entry.key, entry.operation, s.skip(len) + more, at);
    assert((bytes + more).skip(at) =~= s.subrange(0, len) + (s.skip(len) + more));
}

/// Corruption is detected: change any one byte of an encoded record, by one bit or by
/// more, and what is left is no record.
pub proof fn lemma_corruption_detected(
    timestamp: u64,
    key: Seq<char>,
    operation: OperationView,
    at: int,
    byte: u8,
)
    requires
        0 <= at < encoding(timestamp, key, operation).len(),
        byte != encoding(timestamp, key, operation)[at],
    ensures
        decode_whole(encoding(timestamp, key, operation).update(at, byte)) is None,
{
    let covered = body(timestamp, key, operation);
    let record = encoding(timestamp, key, operation);
    let damaged = record.update(at, byte);
    if decode_whole(damaged) is Some {
        let Parsed { entry, end: len } = parse(damaged, 0)->0;
        lemma_parse_frame(damaged, 0);
        let read = body(entry.timestamp, entry.key, entry.operation);
        assert(damaged.subrange(0, len) =~= damaged);
        assert(read =~= damaged.subrange(2, len));
        assert(covered =~= record.subrange(2, len));
        assert(u16_be(crc16(read)) =~= damaged.subrange(0, 2));
        assert(u16_be(crc16(covered)) =~= record.subrange(0, 2));
        lemma_u16_round_trip(crc16(read));
        lemma_u16_round_trip(crc16(covered));
        if at < 2 {
            assert(read =~= covered);
            assert(damaged.subrange(0, 2)[at] == byte);
            assert(record.subrange(0, 2)[at] == record[at]);
        } else {
            assert(differ_only_at(covered, read, at - 2));
            lemma_single_byte_change_detected(covered, read, at - 2);
            assert(damaged.subrange(0, 2) =~= record.subrange(0, 2));
        }
    }
}

/// `String::from_utf8` of the standard library. Trusted: it succeeds exactly on valid
/// UTF-8, and the text it returns is made of the bytes it was given.
#[verifier::external_body]
fn text_from_utf8(bytes: Vec<u8>) -> (text: Option<String>)
    ensures
        text is Some <==> valid_utf8(bytes@),
        text matches Some(s) ==> encode_utf8(s@) == bytes@,
{
    String::from_utf8(bytes).ok()
}

/// Reads the text in `bytes[from..to]`.
fn read_text(bytes: &[u8], from: usize, to: usize) -> (text: Option<String>)
    requires
        from <= to <= bytes@.len(),
    ensures
        text is Some <==> valid_utf8(bytes@.subrange(from as int, to as int)),
        text matches Some(s) ==> s@ == decode_utf8(bytes@.subrange(from as int, to as int)),
{
    let text = text_from_utf8(slice_to_vec(slice_subrange(bytes, from, to)));
    proof {
        if text is Some {
            encode_utf8_decode_utf8(text->0@);
        }
    }
    text
}

/// Encodes one record.
pub fn encode(key: &str, operation: &Operation, timestamp: u64) -> (bytes: Vec<u8>)
    ensures
        bytes@ == encoding(timestamp, key@, operation@),
{
    let mut covered: Vec<u8> = Vec::new();
    let key_bytes = key.as_bytes();
    put_u64(&mut covered, timestamp);
    put_u64(&mut covered, key_bytes.len() as u64);
    put_bytes(&mut covered, key_bytes);
    match operation {
        Operation::Put(value) => {
            let value_bytes = value.as_str().as_bytes();
            covered.push(OP_SET);
            put_u64(&mut covered, value_bytes.len() as u64);
            put_bytes(&mut covered, value_bytes);
        },
        Operation::Delete => {
            covered.push(OP_DELETE);
        },
    }
    assert(covered@ =~= body(timestamp, key@, operation@));
    let mut bytes: Vec<u8> = Vec::new();
    put_u16(&mut bytes, checksum(covered.as_slice()));
    put_bytes(&mut bytes, covered.as_slice());
    assert(bytes@ =~= encoding(timestamp, key@, operation@));
    bytes
}

/// A part of the bytes behind `at` is the same part of the whole, moved by `at`.
proof fn lemma_skip_subrange(bytes: Seq<u8>, at: int, from: int, to: int)
    requires
        0 <= at,
        0 <= from <= to,
        at + to <= bytes.len(),
    ensures
        bytes.skip(at).subrange(from, to) == bytes.subrange(at + from, at + to),
{
    assert(bytes.skip(at).subrange(from, to) =~= bytes.subrange(at + from, at + to));
}

/// Decodes `bytes` as one record and nothing else. Returns `None` where they are not
/// exactly one record.
pub fn decode_record(bytes: &[u8]) -> (found: Option<Entry>)
    ensures
        match decode_whole(bytes@) {
            Some(entry) => found matches Some(e) && e@ == entry,
            None => found is None,
        },
{
    assert(bytes@.skip(0) =~= bytes@);
    match decode(bytes, 0) {
        Some((entry, end)) => if end == bytes.len() {
            Some(entry)
        } else {
            None
        },
        None => None,
    }
}

/// Decodes the record that starts at `at`, and says where the next one would start.
/// Returns `None` where the bytes from `at` on do not begin with a record.
pub fn decode(bytes: &[u8], at: usize) -> (found: Option<(Entry, usize)>)
    ensures
        match decode_at(bytes@, at as int) {
            Some(read) => found matches Some((e, n)) && e@ == read.entry && n == read.end,
            None => found is None,
        },
{
    let total = bytes.len();
    if at > total || total - at < 19 {
        proof {
            reveal(parse);
        }
        return None;
    }
    let ghost s = bytes@.skip(at as int);
    proof {
        reveal(parse);
        lemma_skip_subrange(bytes@, at as int, 0, 2);
        lemma_skip_subrange(bytes@, at as int, 2, 10);
        lemma_skip_subrange(bytes@, at as int, 10, 18);
    }
    let stored = read_u16(bytes, at);
    let timestamp = read_u64(bytes, at + 2);
    let key_len = read_u64(bytes, at + 10);
    if key_len > MAX_FIELD_BYTES || ((total - at - 19) as u64) < key_len {
        return None;
    }
    let key_from = at + 18;
    let key_to = key_from + key_len as usize;
    let opcode = bytes[key_to];
    let end: usize;
    let value_from: usize;
    if opcode == OP_DELETE {
        end = key_to + 1;
        value_from = end;
    } else if opcode == OP_SET {
        if total - key_to < 9 {
            return None;
        }
        proof {
            lemma_skip_subrange(bytes@, at as int, 19 + key_len, 27 + key_len);
        }
        let value_len = read_u64(bytes, key_to + 1);
        if value_len > MAX_FIELD_BYTES || ((total - key_to - 9) as u64) < value_len {
            return None;
        }
        value_from = key_to + 9;
        end = value_from + value_len as usize;
    } else {
        return None;
    }
    proof {
        lemma_skip_subrange(bytes@, at as int, 2, end - at);
        lemma_skip_subrange(bytes@, at as int, 18, 18 + key_len);
        lemma_skip_subrange(bytes@, at as int, value_from - at, end - at);
    }
    if checksum(slice_subrange(bytes, at + 2, end)) != stored {
        return None;
    }
    let key = match read_text(bytes, key_from, key_to) {
        Some(key) => key,
        None => { return None; },
    };
    let operation = if opcode == OP_DELETE {
        Operation::Delete
    } else {
        match read_text(bytes, value_from, end) {
            Some(value) => Operation::Put(value),
            None => { return None; },
        }
    };
    Some((Entry { offset: at as u64, timestamp, key, operation }, end))
}

} // verus!
