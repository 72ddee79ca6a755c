//! A log segment: an append-only chain of records, and what scanning it finds.
//!
//! A segment is modelled by its bytes, which are what its file holds. Records are
//! only ever added at the end; nothing is rewritten in place.

use vstd::prelude::*;
use crate::clock::now;
use crate::error::Error;
use vstd::hash_map::StringHashMap;
use vstd::string::StringExecFns;
use crate::ident::fresh;
use crate::index::{has_repeats, last_position, latest, lemma_last_position, views};
use crate::record::{
    decode,
    decode_at,
    encodable,
    encode,
    encoding,
    lemma_decode_local,
    lemma_parse_frame,
    lemma_round_trip,
    parse,
    Entry,
    EntryView,
    Operation,
    OperationView,
    MAX_FIELD_BYTES,
};
use crate::wire::put_bytes;

verus! {

/// What a scan finds: entries, and the offset at which it stopped.
pub struct Scanned {
    pub entries: Seq<EntryView>,
    pub stop: int,
}

/// What a scan that starts at `at` finds: the entries of the records that follow one
/// another from there, and the offset at which it stops, which is the end of the
/// bytes or the first place where no record starts. (A record is never empty, so a
/// read that succeeds always ends further on.)
pub open spec fn scan(bytes: Seq<u8>, at: int) -> Scanned
    decreases bytes.len() - at,
{
    match decode_at(bytes, at) {
        Some(read) => if at < read.end <= bytes.len() {
            Scanned {
                entries: seq![read.entry] + scan(bytes, read.end).entries,
                stop: scan(bytes, read.end).stop,
            }
        } else {
            Scanned { entries: Seq::empty(), stop: at }
        },
        None => Scanned { entries: Seq::empty(), stop: at },
    }
}

/// The entries of the records that `bytes` starts with.
pub open spec fn records(bytes: Seq<u8>) -> Seq<EntryView> {
    scan(bytes, 0).entries
}

/// Whether `bytes` are a chain of records from their first byte to their last.
pub open spec fn intact(bytes: Seq<u8>) -> bool {
    scan(bytes, 0).stop == bytes.len()
}

/// What a segment with these bytes says of `key`: the operation of its latest record
/// of that key, or nothing.
pub open spec fn said(bytes: Seq<u8>, key: Seq<char>) -> Option<OperationView> {
    match latest(records(bytes), key) {
        Some(entry) => Some(entry.operation),
        None => None,
    }
}

/// Whether two segments say the same of every key.
pub open spec fn equivalent(a: Seq<u8>, b: Seq<u8>) -> bool {
    forall|key: Seq<char>| #[trigger] said(a, key) == said(b, key)
}

/// What the entries before place `upto` leave of `key` in a compacted segment: the
/// operation of the last entry of the key, once that entry has been passed.
pub open spec fn kept(entries: Seq<EntryView>, key: Seq<char>, upto: int) -> Option<
    OperationView,
> {
    let place = last_position(entries, key);
    if 0 <= place < upto {
        Some(entries[place].operation)
    } else {
        None
    }
}

/// Where the record at place `i` of a chain starts; for the place behind the last
/// record, where the chain ends.
pub open spec fn start_of(bytes: Seq<u8>, i: int) -> int {
    if 0 <= i < records(bytes).len() {
        records(bytes)[i].offset
    } else {
        bytes.len() as int
    }
}

/// Whether the entry at place `i` is superseded: a later entry is about the same key.
pub open spec fn superseded(entries: Seq<EntryView>, i: int) -> bool {
    last_position(entries, entries[i].key) != i
}

/// The entries among the first `upto` that are not superseded, in their order: what
/// compaction keeps of them.
pub open spec fn survivors(entries: Seq<EntryView>, upto: int) -> Seq<EntryView>
    decreases upto,
{
    if upto <= 0 {
        Seq::empty()
    } else if superseded(entries, upto - 1) {
        survivors(entries, upto - 1)
    } else {
        survivors(entries, upto - 1).push(entries[upto - 1])
    }
}

/// Whether `entries` are `model` rewritten at `timestamp`: the same keys with the same
/// operations in the same order, each stamped anew.
pub open spec fn rewritten(entries: Seq<EntryView>, model: Seq<EntryView>, timestamp: u64) -> bool {
    &&& entries.len() == model.len()
    &&& forall|i: int|
        0 <= i < entries.len() ==> {
            &&& (#[trigger] entries[i]).key == model[i].key
            &&& entries[i].operation == model[i].operation
            &&& entries[i].timestamp == timestamp
        }
}

/// The entry that `append` adds to a segment of `len` bytes.
pub open spec fn appended(
    len: nat,
    timestamp: u64,
    key: Seq<char>,
    operation: OperationView,
) -> EntryView {
    EntryView { offset: len as int, timestamp, key, operation }
}

/// No record starts where fewer than 19 bytes are left.
proof fn lemma_no_record_at_end(bytes: Seq<u8>, at: int)
    requires
        bytes.len() - 19 < at,
    ensures
        decode_at(bytes, at) is None,
{
    if 0 <= at <= bytes.len() && parse(bytes.skip(at), at) is Some {
        lemma_parse_frame(bytes.skip(at), at);
    }
}

/// A read that succeeds ends at least 19 bytes further on, within the bytes, and
/// gives an entry with the offset at which it started.
proof fn lemma_decode_advances(bytes: Seq<u8>, at: int)
    requires
        decode_at(bytes, at) is Some,
    ensures
        0 <= at,
        at + 19 <= decode_at(bytes, at)->0.end <= bytes.len(),
        decode_at(bytes, at)->0.entry.offset == at,
{
    lemma_parse_frame(bytes.skip(at), at);
}

/// Every entry that a scan finds can be read again at its offset, which lies at or
/// behind the start of the scan.
pub proof fn lemma_scanned_entries_decode(bytes: Seq<u8>, at: int, i: int)
    requires
        0 <= i < scan(bytes, at).entries.len(),
    ensures
        at <= scan(bytes, at).entries[i].offset < bytes.len(),
        decode_at(bytes, scan(bytes, at).entries[i].offset) is Some,
        decode_at(bytes, scan(bytes, at).entries[i].offset)->0.entry == scan(bytes, at).entries[i],
    decreases bytes.len() - at,
{
    let end = decode_at(bytes, at)->0.end;
    lemma_decode_advances(bytes, at);
    if i > 0 {
        lemma_scanned_entries_decode(bytes, end, i - 1);
    }
}

/// Every entry that a scan finds can be encoded again.
pub proof fn lemma_scanned_entries_encodable(bytes: Seq<u8>, i: int)
    requires
        0 <= i < records(bytes).len(),
    ensures
        encodable(records(bytes)[i].key, records(bytes)[i].operation),
{
    lemma_scanned_entries_decode(bytes, 0, i);
    lemma_parse_frame(bytes.skip(records(bytes)[i].offset), records(bytes)[i].offset);
}

/// A key that has an entry has a latest entry.
pub proof fn lemma_member_has_latest(entries: Seq<EntryView>, i: int)
    requires
        0 <= i < entries.len(),
    ensures
        latest(entries, entries[i].key) is Some,
    decreases entries.len(),
{
    if entries.last().key != entries[i].key {
        lemma_member_has_latest(entries.drop_last(), i);
    }
}

/// In a chain, each record starts where the one before it ends.
proof fn lemma_scan_layout(bytes: Seq<u8>, at: int, i: int)
    requires
        0 <= at <= bytes.len(),
        scan(bytes, at).stop == bytes.len(),
        0 <= i < scan(bytes, at).entries.len(),
    ensures
        scan(bytes, at).entries[0].offset == at,
        ({
            let entries = scan(bytes, at).entries;
            let next = if i + 1 < entries.len() {
                entries[i + 1].offset
            } else {
                bytes.len() as int
            };
            next == entries[i].offset + encoding(
                entries[i].timestamp,
                entries[i].key,
                entries[i].operation,
            ).len()
        }),
    decreases bytes.len() - at,
{
    let read = decode_at(bytes, at)->0;
    lemma_decode_advances(bytes, at);
    lemma_parse_frame(bytes.skip(at), at);
    let rest = scan(bytes, read.end);
    if rest.entries.len() > 0 {
        lemma_scan_layout(bytes, read.end, 0);
    }
    if i > 0 {
        lemma_scan_layout(bytes, read.end, i - 1);
    }
}

/// The extent of a record in a chain: the next record, or the end of the chain, lies
/// behind its start by the length of its encoding, which is at least 19 bytes and
/// does not depend on its timestamp.
pub proof fn lemma_record_extent(bytes: Seq<u8>, i: int, timestamp: u64)
    requires
        intact(bytes),
        0 <= i < records(bytes).len(),
    ensures
        start_of(bytes, 0) == 0,
        start_of(bytes, i + 1) == start_of(bytes, i) + encoding(
            timestamp,
            records(bytes)[i].key,
            records(bytes)[i].operation,
        ).len(),
        start_of(bytes, i + 1) >= start_of(bytes, i) + 19,
{
    lemma_scan_layout(bytes, 0, i);
    lemma_scan_layout(bytes, 0, 0);
}

/// A read looks at no byte behind the record: where it succeeds and ends within the
/// first `cut` bytes, it gives the same on those bytes alone.
proof fn lemma_decode_within(bytes: Seq<u8>, at: int, cut: int)
    requires
        decode_at(bytes, at) is Some,
        decode_at(bytes, at)->0.end <= cut <= bytes.len(),
    ensures
        decode_at(bytes.take(cut), at) == decode_at(bytes, at),
{
    let read = decode_at(bytes, at)->0;
    let entry = read.entry;
    lemma_parse_frame(bytes.skip(at), at);
    lemma_round_trip(
        entry.timestamp,
        entry.key,
        entry.operation,
        bytes.subrange(read.end, cut),
        at,
    );
    assert(bytes.take(cut).skip(at) =~= bytes.skip(at).subrange(0, read.end - at)
        + bytes.subrange(read.end, cut));
}

/// Where a scan reaches the end of the bytes, it no longer does once the last byte is
/// changed.
proof fn lemma_scan_misses_damaged_end(bytes: Seq<u8>, at: int, byte: u8)
    requires
        0 <= at < bytes.len(),
        scan(bytes, at).stop == bytes.len(),
        byte != bytes.last(),
    ensures
        scan(bytes.update(bytes.len() - 1, byte), at).stop != bytes.len(),
    decreases bytes.len() - at,
{
    let len = bytes.len() as int;
    let damaged = bytes.update(len - 1, byte);
    let sound = bytes.take(len - 1);
    let read = decode_at(bytes, at)->0;
    lemma_decode_advances(bytes, at);
    assert(damaged =~= sound + seq![byte]);
    assert(bytes =~= sound + seq![bytes.last()]);
    if read.end < len {
        lemma_decode_within(bytes, at, len - 1);
        lemma_decode_local(sound, seq![byte], at);
        lemma_scan_misses_damaged_end(bytes, read.end, byte);
    } else if decode_at(damaged, at) is Some {
        let other = decode_at(damaged, at)->0;
        lemma_decode_advances(damaged, at);
        if other.end < len {
            lemma_decode_within(damaged, at, len - 1);
            assert(damaged.take(len - 1) =~= sound);
            lemma_decode_local(sound, seq![bytes.last()], at);
        } else {
            let entry = read.entry;
            let record = encoding(entry.timestamp, entry.key, entry.operation);
            lemma_parse_frame(bytes.skip(at), at);
            assert(bytes.skip(at).subrange(0, len - at) =~= bytes.skip(at));
            assert(damaged.skip(at) =~= record.update(record.len() - 1, byte));
            crate::record::lemma_corruption_detected(
                entry.timestamp,
                entry.key,
                entry.operation,
                record.len() - 1,
                byte,
            );
            crate::record::lemma_parse_ignores_offset(damaged.skip(at), at, 0);
        }
    }
}

/// A damaged end is noticed: change the last byte of a chain of records, and what is
/// left is no chain of records, so that it is refused at start-up.
pub proof fn lemma_damaged_end_breaks_chain(bytes: Seq<u8>, byte: u8)
    requires
        intact(bytes),
        bytes.len() > 0,
        byte != bytes.last(),
    ensures
        !intact(bytes.update(bytes.len() - 1, byte)),
{
    lemma_scan_misses_damaged_end(bytes, 0, byte);
}

/// Appending a record to a chain of records gives a chain with one more entry, which
/// starts where the old chain ended.
pub proof fn lemma_scan_append(
    bytes: Seq<u8>,
    at: int,
    timestamp: u64,
    key: Seq<char>,
    operation: OperationView,
)
    requires
        0 <= at <= bytes.len(),
        scan(bytes, at).stop == bytes.len(),
        encodable(key, operation),
    ensures
        scan(bytes + encoding(timestamp, key, operation), at) == (Scanned {
            entries: scan(bytes, at).entries.push(
                appended(bytes.len(), timestamp, key, operation),
            ),
            stop: (bytes + encoding(timestamp, key, operation)).len() as int,
        }),
    decreases bytes.len() - at,
{
    let record = encoding(timestamp, key, operation);
    let longer = bytes + record;
    let entry = appended(bytes.len(), timestamp, key, operation);
    if at == bytes.len() {
        lemma_no_record_at_end(bytes, at);
        lemma_round_trip(timestamp, key, operation, Seq::empty(), at);
        assert(longer.skip(at) =~= record + Seq::<u8>::empty());
        lemma_no_record_at_end(longer, longer.len() as int);
        assert(scan(longer, longer.len() as int).entries =~= Seq::<EntryView>::empty());
        assert(scan(longer, at).entries =~= Seq::<EntryView>::empty().push(entry));
    } else {
        let end = decode_at(bytes, at)->0.end;
        lemma_decode_local(bytes, record, at);
        lemma_scan_append(bytes, end, timestamp, key, operation);
        assert(scan(longer, at).entries =~= scan(bytes, at).entries.push(entry));
    }
}

/// A database log file.
///
/// Represents the official record of database contents.
pub struct Log {
    id: u128,
    bytes: Vec<u8>,
}

impl View for Log {
    type V = Seq<EntryView>;

    /// The entries of the segment, oldest first.
    open spec fn view(&self) -> Seq<EntryView> {
        records(self.image())
    }
}

impl Log {
    /// The bytes of the segment: what its file holds.
    pub closed spec fn image(&self) -> Seq<u8> {
        self.bytes@
    }

    /// The id of the segment.
    pub closed spec fn spec_id(&self) -> u128 {
        self.id
    }

    /// A segment is well formed when its bytes are a chain of records.
    pub open spec fn wf(&self) -> bool {
        intact(self.image())
    }

    /// The size of a segment can be held in 64 bits.
    pub proof fn lemma_size_fits(&self)
        ensures
            self.image().len() <= u64::MAX,
    {
        assert(self.bytes@.len() == self.bytes.len());
    }

    /// Creates a new, empty Log under a fresh id.
    pub fn new() -> (log: Log)
        ensures
            log.wf(),
            log.image() == Seq::<u8>::empty(),
            log@ == Seq::<EntryView>::empty(),
    {
        Log::new_with_id(fresh())
    }

    /// Creates a new, empty Log under the provided id.
    pub fn new_with_id(id: u128) -> (log: Log)
        ensures
            log.wf(),
            log.id() == id,
            log.image() == Seq::<u8>::empty(),
            log@ == Seq::<EntryView>::empty(),
    {
        let log = Log { id, bytes: Vec::new() };
        proof {
            lemma_no_record_at_end(log.image(), 0);
        }
        log
    }

    /// Creates a Log from the contents of an existing file. Fails with
    /// `CorruptRecord` where the contents are not a chain of records.
    pub fn from_file(id: u128, bytes: Vec<u8>) -> (result: Result<Log, Error>)
        ensures
            intact(bytes@) ==> (result matches Ok(log) && log.wf() && log.id() == id
                && log.image() == bytes@),
            !intact(bytes@) ==> result == Err::<Log, Error>(Error::CorruptRecord),
    {
        let (_, stop) = scan_bytes(bytes.as_slice());
        if stop == bytes.len() {
            Ok(Log { id, bytes })
        } else {
            Err(Error::CorruptRecord)
        }
    }

    /// The id of the segment.
    #[verifier::when_used_as_spec(spec_id)]
    pub fn id(&self) -> (id: u128)
        ensures
            id == self.spec_id(),
    {
        self.id
    }

    /// The bytes of the segment.
    pub fn as_bytes(&self) -> (bytes: &[u8])
        ensures
            bytes@ == self.image(),
    {
        self.bytes.as_slice()
    }

    /// Returns the current size of the log in bytes.
    pub fn size(&self) -> (size: u64)
        ensures
            size == self.image().len(),
    {
        self.bytes.len() as u64
    }

    /// Returns the entry that begins at the provided offset, or `CorruptRecord` where
    /// no record begins there.
    pub fn entry_at(&self, offset: u64) -> (result: Result<Entry, Error>)
        ensures
            match decode_at(self.image(), offset as int) {
                Some(read) => result matches Ok(e) && e@ == read.entry,
                None => result == Err::<Entry, Error>(Error::CorruptRecord),
            },
    {
        if offset > self.bytes.len() as u64 {
            return Err(Error::CorruptRecord);
        }
        match decode(self.bytes.as_slice(), offset as usize) {
            Some((entry, _)) => Ok(entry),
            None => Err(Error::CorruptRecord),
        }
    }

    /// Appends a new entry to the end of the log, stamped with the current time.
    ///
    /// Returns the offset of the entry in the log, or `FieldTooLarge` where the key or
    /// the value is longer than a field may be; the log is then unchanged.
    pub fn append(&mut self, key: &str, operation: Operation) -> (result: Result<u64, Error>)
        requires
            old(self).wf(),
        ensures
            final(self).wf(),
            final(self).id() == old(self).id(),
            encodable(key@, operation@) ==> result == Ok::<u64, Error>(
                old(self).image().len() as u64,
            ) && exists|timestamp: u64|
                {
                    &&& final(self).image() == old(self).image() + #[trigger] encoding(
                        timestamp,
                        key@,
                        operation@,
                    )
                    &&& final(self)@ == old(self)@.push(
                        appended(old(self).image().len(), timestamp, key@, operation@),
                    )
                },
            !encodable(key@, operation@) ==> result == Err::<u64, Error>(Error::FieldTooLarge)
                && final(self).image() == old(self).image(),
    {
        let timestamp = now();
        self.append_at(key, operation, timestamp)
    }

    /// Appends a new entry with the given timestamp to the end of the log.
    ///
    /// Returns the offset of the entry in the log, or `FieldTooLarge` where the key or
    /// the value is longer than a field may be; the log is then unchanged.
    pub fn append_at(&mut self, key: &str, operation: Operation, timestamp: u64) -> (result: Result<
        u64,
        Error,
    >)
        requires
            old(self).wf(),
        ensures
            final(self).wf(),
            final(self).id() == old(self).id(),
            encodable(key@, operation@) ==> {
                &&& result == Ok::<u64, Error>(old(self).image().len() as u64)
                &&& final(self).image() == old(self).image() + encoding(
                    timestamp,
                    key@,
                    operation@,
                )
                &&& final(self)@ == old(self)@.push(
                    appended(old(self).image().len(), timestamp, key@, operation@),
                )
            },
            !encodable(key@, operation@) ==> result == Err::<u64, Error>(Error::FieldTooLarge)
                && final(self).image() == old(self).image(),
    {
        if key.as_bytes().len() as u64 > MAX_FIELD_BYTES {
            return Err(Error::FieldTooLarge);
        }
        if let Operation::Put(value) = &operation {
            if value.as_str().as_bytes().len() as u64 > MAX_FIELD_BYTES {
                return Err(Error::FieldTooLarge);
            }
        }
        let offset = self.bytes.len() as u64;
        let record = encode(key, &operation, timestamp);
        proof {
            lemma_scan_append(self.image(), 0, timestamp, key@, operation@);
        }
        put_bytes(&mut self.bytes, record.as_slice());
        Ok(offset)
    }

    /// Rewrites the segment without its superseded records: returns a segment under
    /// `id` that holds the records of this one that no later record of the same key
    /// supersedes, in their order and stamped `timestamp`. It has one record for each
    /// key, says of every key what this segment says, and is shorter. Returns `None`
    /// where no key has more than one record, so that nothing would be gained.
    pub fn compact(&self, id: u128, timestamp: u64) -> (result: Option<Log>)
        requires
            self.wf(),
        ensures
            result is Some <==> has_repeats(self@),
            result matches Some(log) ==> {
                &&& log.wf()
                &&& log.id() == id
                &&& rewritten(log@, survivors(self@, self@.len() as int), timestamp)
                &&& equivalent(log.image(), self.image())
                &&& !has_repeats(log@)
                &&& log.image().len() < self.image().len()
            },
    {
        let entries = self.entries();
        let ghost all = views(entries@);
        let mut last: StringHashMap<usize> = StringHashMap::new();
        let mut repeats = false;
        let mut i: usize = 0;
        assert(all.take(0) =~= Seq::<EntryView>::empty());
        while i < entries.len()
            invariant
                i <= entries@.len(),
                all == views(entries@),
                forall|key: Seq<char>|
                    last@.contains_key(key) <==> last_position(all.take(i as int), key) >= 0,
                forall|key: Seq<char>|
                    last@.contains_key(key) ==> last@[key] as int == last_position(
                        all.take(i as int),
                        key,
                    ),
                repeats <==> has_repeats(all.take(i as int)),
            decreases entries@.len() - i,
        {
            let key = entries[i].key.as_str();
            let ghost seen = all.take(i as int);
            let ghost more = all.take(i + 1);
            proof {
                assert(more.drop_last() =~= seen);
                assert(more.last() == all[i as int]);
                lemma_last_position(seen, key@);
                if has_repeats(more) {
                    let (a, b) = choose|a: int, b: int|
                        0 <= a < b < more.len() && more[a].key == more[b].key;
                    if b < i {
                        assert(seen[a].key == seen[b].key);
                    } else {
                        assert(seen[a].key == key@);
                    }
                }
                if has_repeats(seen) {
                    let (a, b) = choose|a: int, b: int|
                        0 <= a < b < seen.len() && seen[a].key == seen[b].key;
                    assert(more[a].key == more[b].key);
                }
                if last_position(seen, key@) >= 0 {
                    let a = last_position(seen, key@);
                    assert(more[a].key == more[i as int].key);
                }
            }
            if last.contains_key(key) {
                repeats = true;
            }
            last.insert(String::from_str(key), i);
            i += 1;
        }
        assert(all.take(i as int) =~= all);
        if !repeats {
            return None;
        }
        let mut log = Log::new_with_id(id);
        let mut i: usize = 0;
        proof {
            assert forall|key: Seq<char>| #[trigger]
                said(log.image(), key) == kept(all, key, 0) by {}
        }
        while i < entries.len()
            invariant
                i <= entries@.len(),
                all == views(entries@),
                all == self@,
                self.wf(),
                log.wf(),
                log.id() == id,
                forall|key: Seq<char>|
                    last@.contains_key(key) <==> last_position(all, key) >= 0,
                forall|key: Seq<char>|
                    last@.contains_key(key) ==> last@[key] as int == last_position(all, key),
                forall|key: Seq<char>| #[trigger] said(log.image(), key) == kept(all, key, i as int),
                !has_repeats(log@),
                rewritten(log@, survivors(all, i as int), timestamp),
                log.image().len() <= start_of(self.image(), i as int),
                (exists|j: int| 0 <= j < i && superseded(all, j)) ==> log.image().len() < start_of(
                    self.image(),
                    i as int,
                ),
            decreases entries@.len() - i,
        {
            let entry = &entries[i];
            let key = entry.key.as_str();
            let ghost before = log@;
            let ghost image = log.image();
            proof {
                lemma_last_position(all, key@);
                assert(all[i as int].key == key@);
                lemma_scanned_entries_encodable(self.image(), i as int);
                lemma_record_extent(self.image(), i as int, timestamp);
                if exists|j: int| 0 <= j < i + 1 && superseded(all, j) {
                    let j = choose|j: int| 0 <= j < i + 1 && superseded(all, j);
                    if j < i {
                        assert(superseded(all, j));
                    }
                }
            }
            let place = match last.get(key) {
                Some(place) => *place,
                None => i,
            };
            if place == i {
                let operation = copy_of(&entry.operation);
                let _ = log.append_at(key, operation, timestamp);
                proof {
                    let added = appended(image.len(), timestamp, key@, entry.operation@);
                    assert(log@ == before.push(added));
                    assert(log@.drop_last() =~= before);
                    if has_repeats(log@) {
                        let (a, b) = choose|a: int, b: int|
                            0 <= a < b < log@.len() && log@[a].key == log@[b].key;
                        if b < before.len() {
                            assert(before[a].key == before[b].key);
                        } else {
                            lemma_member_has_latest(before, a);
                            assert(said(image, key@) is Some);
                        }
                    }
                    assert forall|other: Seq<char>| #[trigger]
                        said(log.image(), other) == kept(all, other, i + 1) by {
                        lemma_last_position(all, other);
                        assert(said(image, other) == kept(all, other, i as int));
                    }
                }
            } else {
                proof {
                    assert forall|other: Seq<char>| #[trigger]
                        said(log.image(), other) == kept(all, other, i + 1) by {
                        lemma_last_position(all, other);
                        assert(said(image, other) == kept(all, other, i as int));
                    }
                }
            }
            i += 1;
        }
        proof {
            assert forall|key: Seq<char>| #[trigger]
                said(log.image(), key) == said(self.image(), key) by {
                lemma_last_position(all, key);
                assert(said(log.image(), key) == kept(all, key, i as int));
            }
            let (a, b) = choose|a: int, b: int| 0 <= a < b < all.len() && all[a].key == all[b].key;
            lemma_last_position(all, all[a].key);
            assert(superseded(all, a));
        }
        Some(log)
    }

    /// Returns the entries in the log, oldest first.
    pub fn entries(&self) -> (entries: Vec<Entry>)
        ensures
            views(entries@) == self@,
    {
        let (entries, _) = scan_bytes(self.bytes.as_slice());
        entries
    }
}

/// A copy of an operation.
pub fn copy_of(operation: &Operation) -> (copy: Operation)
    ensures
        copy@ == operation@,
{
    match operation {
        Operation::Put(value) => Operation::Put(value.clone()),
        Operation::Delete => Operation::Delete,
    }
}

/// Scans `bytes` from their first byte: returns the entries of the records that follow
/// one another from there, and the offset at which the scan stopped. The bytes are a
/// chain of records exactly if it stopped at their end; else the record that should
/// start at that offset is cut short or corrupt.
pub fn scan_bytes(bytes: &[u8]) -> (found: (Vec<Entry>, usize))
    ensures
        ({
            let (entries, stop) = found;
            &&& views(entries@) == records(bytes@)
            &&& stop == scan(bytes@, 0).stop
            &&& stop == bytes@.len() <==> intact(bytes@)
        }),
{
    let mut entries: Vec<Entry> = Vec::new();
    let mut at: usize = 0;
    assert(views(entries@) + scan(bytes@, 0).entries =~= scan(bytes@, 0).entries);
    loop
        invariant
            at <= bytes@.len(),
            scan(bytes@, 0).entries == views(entries@) + scan(bytes@, at as int).entries,
            scan(bytes@, 0).stop == scan(bytes@, at as int).stop,
        decreases bytes@.len() - at,
    {
        match decode(bytes, at) {
            Some((entry, end)) => {
                proof {
                    lemma_decode_advances(bytes@, at as int);
                    assert(views(entries@.push(entry)) =~= views(entries@).push(entry@));
                    assert(views(entries@).push(entry@) + scan(bytes@, end as int).entries
                        =~= views(entries@) + scan(bytes@, at as int).entries);
                }
                entries.push(entry);
                at = end;
            },
            None => {
                assert(views(entries@) + scan(bytes@, at as int).entries =~= views(entries@));
                return (entries, at);
            },
        }
    }
}

} // verus!
