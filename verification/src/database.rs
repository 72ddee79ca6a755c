//! The store: a chain of segments, oldest first, each with its keydir.
//!
//! Writes and deletes go to the newest segment, the tail. A read asks the keydirs from
//! the newest to the oldest; the first one that speaks of the key decides.

use vstd::prelude::*;
use crate::clock::now;
use crate::error::Error;
use vstd::slice::slice_to_vec;
use crate::ident::{
    file_name,
    fresh,
    lemma_successor_is_next,
    named_segment,
    next_after,
    rollover_after,
    segment_id,
    successor,
};
use crate::index::{
    has_repeats,
    keydir,
    latest,
    lemma_keydir_push,
    lemma_latest_is_member,
    Index,
    IndexEntry,
};
use crate::laws::{
    lemma_empty_says_nothing,
    lemma_named_files_hold_the_segments,
    lemma_equivalent_segments_hold_the_same,
    lemma_write_takes_effect,
};
use crate::log::{
    appended,
    equivalent,
    intact,
    lemma_scanned_entries_decode,
    records,
    said,
    Log,
};
use crate::model::{
    acceptable,
    ascending,
    candidates,
    compacted_from,
    contents,
    count_due,
    due,
    found,
    outcome,
    resolve,
    rolled,
    sound,
    takes_place,
    value_of,
    written,
    Segment,
};
use crate::record::{decode_at, encodable, fits, Operation, OperationView};
use crate::wire::same_bytes;

verus! {

/// The size at which the tail is closed and a new one is begun, unless the store was
/// opened with another (4 MiB).
pub const MAX_SEGMENT_BYTES: u64 = 0x40_0000;

/// Putting one more element into a sequence puts it into the set of its elements.
proof fn lemma_insert_to_set(s: Seq<Segment>, at: int, segment: Segment)
    requires
        0 <= at <= s.len(),
    ensures
        s.insert(at, segment).to_set() == s.to_set().insert(segment),
{
    let t = s.insert(at, segment);
    assert forall|x: Segment| t.to_set().contains(x) <==> s.to_set().insert(segment).contains(
        x,
    ) by {
        if t.contains(x) {
            let i = choose|i: int| 0 <= i < t.len() && t[i] == x;
            if i < at {
                assert(s[i] == x);
            } else if i > at {
                assert(s[i - 1] == x);
            }
        }
        if s.contains(x) {
            let i = choose|i: int| 0 <= i < s.len() && s[i] == x;
            if i < at {
                assert(t[i] == x);
            } else {
                assert(t[i + 1] == x);
            }
        }
        assert(t[at] == segment);
    }
    assert(t.to_set() =~= s.to_set().insert(segment));
}

/// A compacted segment together with the segment it was made from, ready to take
/// that segment's place in a store.
pub struct Compaction {
    source: Log,
    output: Log,
}

impl Compaction {
    /// The segment that was compacted.
    pub closed spec fn source(&self) -> Segment {
        Segment { id: self.source.id(), bytes: self.source.image() }
    }

    /// The segment that compaction made of it.
    pub closed spec fn output(&self) -> Segment {
        Segment { id: self.output.id(), bytes: self.output.image() }
    }

    /// A compaction is well formed when its output is what compaction makes of its
    /// source.
    pub closed spec fn wf(&self) -> bool {
        self.source.wf() && self.output.wf() && compacted_from(self.source(), self.output())
    }

    /// Compacts `source` into a segment under the id that follows its own, with one
    /// record for each key, stamped `timestamp`. Returns `None` where no key of
    /// `source` has more than one record, or where no id follows.
    pub fn prepare(source: Log, timestamp: u64) -> (result: Option<Compaction>)
        requires
            source.wf(),
        ensures
            result is Some <==> has_repeats(source@) && successor(source.id()) is Some,
            result matches Some(compaction) ==> {
                &&& compaction.wf()
                &&& compaction.source() == Segment { id: source.id(), bytes: source.image() }
                &&& compacted_from(compaction.source(), compaction.output())
            },
    {
        let id = match next_after(source.id()) {
            Some(id) => id,
            None => { return None; },
        };
        match source.compact(id, timestamp) {
            Some(output) => Some(Compaction { source, output }),
            None => None,
        }
    }

    /// The id of the segment that was compacted.
    pub fn source_id(&self) -> (id: u128)
        ensures
            id == self.source().id,
    {
        self.source.id()
    }

    /// The compacted segment.
    pub fn replacement(&self) -> (log: &Log)
        ensures
            log.id() == self.output().id,
            log.image() == self.output().bytes,
    {
        &self.output
    }
}

/// What one segment, read through a keydir, gives for a key.
#[derive(Clone, Debug, PartialEq, Eq)]
pub enum Lookup {
    /// The keydir says nothing of the key: older segments decide.
    Absent,
    /// The keydir holds a tombstone: the key has no value.
    Deleted,
    /// The keydir points at a `Set` of the key with this value.
    Found(String),
}

/// The outcome of a lookup as a mathematical value.
pub enum LookupView {
    Absent,
    Deleted,
    Found(Seq<char>),
}

impl View for Lookup {
    type V = LookupView;

    open spec fn view(&self) -> LookupView {
        match self {
            Lookup::Absent => LookupView::Absent,
            Lookup::Deleted => LookupView::Deleted,
            Lookup::Found(value) => LookupView::Found(value@),
        }
    }
}

/// What a segment with these bytes gives for `key` when read through `index`, which
/// need not be its keydir: nothing or a tombstone as the index says, the value of the
/// record at the offset that the index holds, or `IndexInconsistency` where that
/// offset does not lead to a `Set` record of the key.
pub open spec fn looked_up(
    bytes: Seq<u8>,
    index: Map<Seq<char>, IndexEntry>,
    key: Seq<char>,
) -> Result<LookupView, Error> {
    if !index.contains_key(key) {
        Ok(LookupView::Absent)
    } else {
        match index[key] {
            IndexEntry::Tombstone => Ok(LookupView::Deleted),
            IndexEntry::Offset(offset) => match decode_at(bytes, offset as int) {
                Some(read) => match read.entry.operation {
                    OperationView::Put(value) => if read.entry.key == key {
                        Ok(LookupView::Found(value))
                    } else {
                        Err(Error::IndexInconsistency)
                    },
                    OperationView::Delete => Err(Error::IndexInconsistency),
                },
                None => Err(Error::IndexInconsistency),
            },
        }
    }
}

/// Looks a key up in one segment through a keydir: one lookup in the keydir and, for
/// a live key, one read of the segment at the offset found.
pub fn lookup(log: &Log, index: &Index, key: &str) -> (result: Result<Lookup, Error>)
    ensures
        match looked_up(log.image(), index@, key@) {
            Ok(outcome) => result matches Ok(found) && found@ == outcome,
            Err(error) => result == Err::<Lookup, Error>(error),
        },
{
    match index.get(key) {
        None => Ok(Lookup::Absent),
        Some(IndexEntry::Tombstone) => Ok(Lookup::Deleted),
        Some(IndexEntry::Offset(offset)) => match log.entry_at(offset) {
            Ok(entry) => match entry.operation {
                Operation::Put(value) => if same_text(entry.key.as_str(), key) {
                    Ok(Lookup::Found(value))
                } else {
                    Err(Error::IndexInconsistency)
                },
                Operation::Delete => Err(Error::IndexInconsistency),
            },
            Err(_) => Err(Error::IndexInconsistency),
        },
    }
}

/// Read through its own keydir, a chain of records gives for every key what it says of
/// the key, and never fails.
pub proof fn lemma_keydir_leads_to_latest(bytes: Seq<u8>, key: Seq<char>)
    requires
        intact(bytes),
        bytes.len() <= u64::MAX,
    ensures
        looked_up(bytes, keydir(records(bytes)), key) == Ok::<LookupView, Error>(
            match said(bytes, key) {
                None => LookupView::Absent,
                Some(OperationView::Delete) => LookupView::Deleted,
                Some(OperationView::Put(value)) => LookupView::Found(value),
            },
        ),
{
    let entries = records(bytes);
    if latest(entries, key) is Some {
        let found = latest(entries, key)->0;
        lemma_latest_is_member(entries, key);
        let j = choose|j: int| 0 <= j < entries.len() && entries[j] == found;
        lemma_scanned_entries_decode(bytes, 0, j);
    }
}

/// The database: the segments of the store and their keydirs.
pub struct Database {
    logs: Vec<Log>,
    indices: Vec<Index>,
    limit: u64,
}

impl View for Database {
    type V = Map<Seq<char>, Seq<char>>;

    /// What the store holds: each key that has a value, with its value.
    open spec fn view(&self) -> Map<Seq<char>, Seq<char>> {
        contents(self.segments())
    }
}

/// Whether two texts are the same.
fn same_text(a: &str, b: &str) -> (same: bool)
    ensures
        same == (a@ == b@),
{
    proof {
        vstd::utf8::encode_utf8_decode_utf8(a@);
        vstd::utf8::encode_utf8_decode_utf8(b@);
    }
    same_bytes(a.as_bytes(), b.as_bytes())
}

impl Database {
    /// The segments of the store, oldest first.
    pub closed spec fn segments(&self) -> Seq<Segment> {
        Seq::new(
            self.logs@.len(),
            |i: int| Segment { id: self.logs@[i].id(), bytes: self.logs@[i].image() },
        )
    }

    /// The size at which the tail is closed.
    pub closed spec fn spec_limit(&self) -> u64 {
        self.limit
    }

    /// Whether there is a keydir for each segment and each keydir is that of its
    /// segment.
    pub closed spec fn indexed(&self) -> bool {
        &&& self.indices@.len() == self.logs@.len()
        &&& forall|i: int|
            0 <= i < self.logs@.len() ==> (#[trigger] self.indices@[i])@ == keydir(self.logs@[i]@)
    }

    /// A store is well formed when its segments are sound and its keydirs are those
    /// of its segments.
    pub open spec fn wf(&self) -> bool {
        sound(self.segments()) && self.indexed()
    }

    /// The size at which the tail is closed.
    #[verifier::when_used_as_spec(spec_limit)]
    pub fn limit(&self) -> (limit: u64)
        ensures
            limit == self.spec_limit(),
    {
        self.limit
    }

    /// The number of segments.
    pub fn segment_count(&self) -> (count: usize)
        ensures
            count == self.segments().len(),
    {
        self.logs.len()
    }

    /// The segment at `position`, counted from the oldest.
    pub fn segment(&self, position: usize) -> (log: &Log)
        requires
            position < self.segments().len(),
        ensures
            log.id() == self.segments()[position as int].id,
            log.image() == self.segments()[position as int].bytes,
    {
        &self.logs[position]
    }

    /// The files that hold the store: for each segment, oldest first, the name of its
    /// file and its bytes. A store that is started on these files, in whatever order
    /// they are found, has the segments of this one.
    pub fn files(&self) -> (files: Vec<(String, Vec<u8>)>)
        requires
            self.wf(),
        ensures
            files@.len() == self.segments().len(),
            forall|i: int|
                0 <= i < files@.len() ==> {
                    &&& named_segment((#[trigger] files@[i]).0@) == Some(self.segments()[i].id)
                    &&& files@[i].1@ == self.segments()[i].bytes
                },
            acceptable(candidates(files@)),
            candidates(files@).len() > 0,
            candidates(files@).to_set() == self.segments().to_set(),
    {
        let mut files: Vec<(String, Vec<u8>)> = Vec::new();
        let mut position: usize = 0;
        while position < self.logs.len()
            invariant
                position <= self.logs@.len(),
                files@.len() == position,
                forall|i: int|
                    0 <= i < position ==> {
                        &&& named_segment((#[trigger] files@[i]).0@) == Some(
                            self.segments()[i].id,
                        )
                        &&& files@[i].1@ == self.segments()[i].bytes
                    },
            decreases self.logs@.len() - position,
        {
            let log = &self.logs[position];
            assert(self.segments()[position as int].id == log.id());
            assert(self.segments()[position as int].bytes == log.image());
            files.push((file_name(log.id()), slice_to_vec(log.as_bytes())));
            position += 1;
        }
        proof {
            lemma_named_files_hold_the_segments(files@, self.segments());
        }
        files
    }

    /// Starts a Database on the files of a data directory, given by name and contents.
    ///
    /// Files whose name is not that of a segment are passed over. The others become
    /// the segments of the store, ordered by id, each with its keydir rebuilt by a
    /// scan from its first byte. Where there is none, the store begins with one empty
    /// segment under a fresh id. Fails with `Bootstrap` where a segment is not a chain
    /// of records from its first byte to its last, or where two carry the same id.
    pub fn start(files: Vec<(String, Vec<u8>)>) -> (result: Result<Database, Error>)
        ensures
            match result {
                Ok(database) => {
                    &&& database.wf()
                    &&& database.limit() == MAX_SEGMENT_BYTES
                    &&& acceptable(candidates(files@))
                    &&& if candidates(files@).len() == 0 {
                        database.segments().len() == 1 && database.segments()[0].bytes
                            == Seq::<u8>::empty()
                    } else {
                        database.segments().to_set() == candidates(files@).to_set()
                    }
                },
                Err(error) => error == Error::Bootstrap && !acceptable(candidates(files@)),
            },
    {
        let ghost all = candidates(files@);
        let mut pending = files;
        let mut images: Vec<(u128, Vec<u8>)> = Vec::new();
        assert(found(images@) + candidates(pending@) =~= all);
        while pending.len() > 0
            invariant
                all == found(images@) + candidates(pending@),
            decreases pending.len(),
        {
            let ghost rest = pending@.drop_last();
            let ghost before = found(images@);
            let (name, bytes) = pending.pop().unwrap();
            assert(pending@ =~= rest);
            if let Some(id) = segment_id(name.as_str()) {
                images.push((id, bytes));
                assert(found(images@) =~= before.push(Segment { id, bytes: bytes@ }));
                assert(found(images@) + candidates(rest) =~= all);
            }
        }
        assert(found(images@) =~= all);
        Database::open(images, MAX_SEGMENT_BYTES)
    }

    /// Opens a Database on segments given by id and contents, with `limit` as the size
    /// at which the tail is closed.
    ///
    /// The segments are ordered by id, and the keydir of each is rebuilt by a scan
    /// from its first byte. Where there is none, the store begins with one empty
    /// segment under a fresh id. Fails with `Bootstrap` where a segment is not a chain
    /// of records from its first byte to its last, or where two carry the same id.
    pub fn open(images: Vec<(u128, Vec<u8>)>, limit: u64) -> (result: Result<Database, Error>)
        ensures
            match result {
                Ok(database) => {
                    &&& database.wf()
                    &&& database.limit() == limit
                    &&& acceptable(found(images@))
                    &&& if images@.len() == 0 {
                        database.segments().len() == 1 && database.segments()[0].bytes
                            == Seq::<u8>::empty()
                    } else {
                        database.segments().to_set() == found(images@).to_set()
                    }
                },
                Err(error) => error == Error::Bootstrap && !acceptable(found(images@)),
            },
    {
        let ghost all = found(images@);
        let mut pending = images;
        let mut database = Database { logs: Vec::new(), indices: Vec::new(), limit };
        assert(database.segments().to_set() =~= all.skip(pending@.len() as int).to_set());
        while pending.len() > 0
            invariant
                all == found(images@),
                database.limit == limit,
                database.indexed(),
                ascending(database.segments()),
                forall|i: int|
                    0 <= i < database.segments().len() ==> intact(
                        (#[trigger] database.segments()[i]).bytes,
                    ),
                found(pending@) == all.take(pending@.len() as int),
                pending@.len() <= all.len(),
                database.segments().to_set() == all.skip(pending@.len() as int).to_set(),
                acceptable(all.skip(pending@.len() as int)),
            decreases pending.len(),
        {
            let ghost taken = pending@.len() - 1;
            let ghost before = database.segments();
            let (id, bytes) = pending.pop().unwrap();
            let ghost segment = Segment { id, bytes: bytes@ };
            assert(all[taken] == segment) by {
                assert(all.take(taken + 1)[taken] == segment);
            }
            let ghost later = all.skip(taken + 1);
            let ghost here = all.skip(taken);
            assert(found(pending@) =~= all.take(taken));
            assert(here =~= later.insert(0, segment));
            let log = match Log::from_file(id, bytes) {
                Ok(log) => log,
                Err(_) => {
                    return Err(Error::Bootstrap);
                },
            };
            let mut at: usize = 0;
            while at < database.logs.len() && database.logs[at].id() < id
                invariant
                    at <= database.logs@.len(),
                    database.segments() == before,
                    forall|i: int| 0 <= i < at ==> before[i].id < id,
                decreases database.logs@.len() - at,
            {
                assert(before[at as int].id == database.logs@[at as int].id());
                at += 1;
            }
            if at < database.logs.len() && database.logs[at].id() == id {
                proof {
                    assert(all[taken].id == id);
                    let twin = before[at as int];
                    assert(twin.id == database.logs@[at as int].id());
                    assert(before.to_set().contains(twin));
                    assert(later.contains(twin));
                    let j = choose|j: int| 0 <= j < later.len() && later[j] == twin;
                    assert(all[taken + 1 + j] == twin);
                }
                return Err(Error::Bootstrap);
            }
            proof {
                if at < before.len() {
                    assert(before[at as int].id == database.logs@[at as int].id());
                }
                lemma_insert_to_set(before, at as int, segment);
                lemma_insert_to_set(later, 0, segment);
                assert forall|j: int| 0 < j < here.len() implies here[j].id != id by {
                    let other = here[j];
                    assert(later[j - 1] == other);
                    assert(later.to_set().contains(other));
                    let k = choose|k: int| 0 <= k < before.len() && before[k] == other;
                }
            }
            let index = Index::rebuild(&log.entries());
            database.logs.insert(at, log);
            database.indices.insert(at, index);
            assert(database.segments() =~= before.insert(at as int, segment));
        }
        assert(all.skip(0) =~= all);
        proof {
            if all.len() == 0 && database.segments().len() > 0 {
                assert(database.segments().to_set().contains(database.segments()[0]));
                assert(all.contains(database.segments()[0]));
            }
        }
        if database.logs.len() == 0 {
            proof {
                if all.len() > 0 {
                    assert(all.to_set().contains(all[0]));
                    assert(database.segments().contains(all[0]));
                }
            }
            database.logs.push(Log::new());
            database.indices.push(Index::new());
            assert(database.segments()[0].bytes == database.logs@[0].image());
        }
        Ok(database)
    }

    /// Gets the value for a key: the keydirs are asked from the newest to the oldest,
    /// and the first that speaks of the key decides.
    ///
    /// This never fails: the keydirs of a well-formed store are those of its segments,
    /// so that `IndexInconsistency` cannot arise.
    pub fn get(&self, key: &str) -> (result: Result<Option<String>, Error>)
        requires
            self.wf(),
        ensures
            result is Ok,
            match result->Ok_0 {
                Some(value) => self@.contains_key(key@) && self@[key@] == value@,
                None => !self@.contains_key(key@),
            },
    {
        let mut i = self.logs.len();
        while i > 0
            invariant
                self.wf(),
                i <= self.logs@.len(),
                value_of(self.segments(), key@) == resolve(self.segments(), key@, i as int),
            decreases i,
        {
            i -= 1;
            proof {
                assert(self.segments()[i as int].bytes == self.logs@[i as int].image());
                assert(self.indices@[i as int]@ == keydir(self.logs@[i as int]@));
                self.logs@[i as int].lemma_size_fits();
                lemma_keydir_leads_to_latest(self.logs@[i as int].image(), key@);
            }
            match lookup(&self.logs[i], &self.indices[i], key) {
                Ok(Lookup::Absent) => {},
                Ok(Lookup::Deleted) => {
                    return Ok(None);
                },
                Ok(Lookup::Found(value)) => {
                    return Ok(Some(value));
                },
                Err(error) => {
                    return Err(error);
                },
            }
        }
        Ok(None)
    }

    /// Sets the value for a key, stamped with the current time.
    ///
    /// Fails with `FieldTooLarge`, and changes nothing, where the key or the value is
    /// longer than a field may be. Else the store holds the value under the key and
    /// every other key as before.
    pub fn set(&mut self, key: &str, value: &str) -> (result: Result<(), Error>)
        requires
            old(self).wf(),
        ensures
            final(self).wf(),
            final(self).limit() == old(self).limit(),
            fits(key@) && fits(value@) ==> {
                &&& result is Ok
                &&& final(self)@ == old(self)@.insert(key@, value@)
                &&& exists|timestamp: u64, spare: u128|
                    final(self).segments() == #[trigger] rolled(
                        written(old(self).segments(), timestamp, key@, OperationView::Put(value@)),
                        old(self).limit(),
                        spare,
                    )
            },
            !(fits(key@) && fits(value@)) ==> result == Err::<(), Error>(Error::FieldTooLarge)
                && final(self).segments() == old(self).segments(),
    {
        let timestamp = now();
        let spare = fresh();
        self.set_at(key, value, timestamp, spare)
    }

    /// Sets the value for a key with a given timestamp, and with a given id to begin
    /// the next segment under, should the tail be full after the write.
    ///
    /// Fails with `FieldTooLarge`, and changes nothing, where the key or the value is
    /// longer than a field may be. Else a `Set` record is appended to the tail, and
    /// where the tail has then reached the limit, a new empty tail is begun.
    pub fn set_at(&mut self, key: &str, value: &str, timestamp: u64, spare: u128) -> (result:
        Result<(), Error>)
        requires
            old(self).wf(),
        ensures
            final(self).wf(),
            final(self).limit() == old(self).limit(),
            fits(key@) && fits(value@) ==> {
                &&& result is Ok
                &&& final(self).segments() == rolled(
                    written(old(self).segments(), timestamp, key@, OperationView::Put(value@)),
                    old(self).limit(),
                    spare,
                )
                &&& final(self)@ == old(self)@.insert(key@, value@)
            },
            !(fits(key@) && fits(value@)) ==> result == Err::<(), Error>(Error::FieldTooLarge)
                && final(self).segments() == old(self).segments(),
    {
        let operation = Operation::Put(value.to_owned());
        self.write(key, operation, timestamp, true, spare)
    }

    /// Deletes the value for a key, stamped with the current time.
    ///
    /// This operation is idempotent and may be repeated multiple times: each time a
    /// `Delete` record is appended, and the key has no value afterwards.
    pub fn delete(&mut self, key: &str) -> (result: Result<(), Error>)
        requires
            old(self).wf(),
        ensures
            final(self).wf(),
            final(self).limit() == old(self).limit(),
            fits(key@) ==> {
                &&& result is Ok
                &&& final(self)@ == old(self)@.remove(key@)
                &&& exists|timestamp: u64|
                    final(self).segments() == #[trigger] written(
                        old(self).segments(),
                        timestamp,
                        key@,
                        OperationView::Delete,
                    )
            },
            !fits(key@) ==> result == Err::<(), Error>(Error::FieldTooLarge) && final(self).segments()
                == old(self).segments(),
    {
        let timestamp = now();
        self.delete_at(key, timestamp)
    }

    /// Deletes the value for a key with a given timestamp: appends a `Delete` record
    /// to the tail, which shadows whatever older segments hold for the key.
    pub fn delete_at(&mut self, key: &str, timestamp: u64) -> (result: Result<(), Error>)
        requires
            old(self).wf(),
        ensures
            final(self).wf(),
            final(self).limit() == old(self).limit(),
            fits(key@) ==> {
                &&& result is Ok
                &&& final(self).segments() == written(
                    old(self).segments(),
                    timestamp,
                    key@,
                    OperationView::Delete,
                )
                &&& final(self)@ == old(self)@.remove(key@)
            },
            !fits(key@) ==> result == Err::<(), Error>(Error::FieldTooLarge) && final(self).segments() == old(self).segments(),
    {
        self.write(key, Operation::Delete, timestamp, false, 0)
    }

    /// Appends one record to the tail and files it in the tail's keydir; with `roll`,
    /// applies the rollover rule afterwards.
    fn write(
        &mut self,
        key: &str,
        operation: Operation,
        timestamp: u64,
        roll: bool,
        spare: u128,
    ) -> (result: Result<(), Error>)
        requires
            old(self).wf(),
        ensures
            final(self).wf(),
            final(self).limit() == old(self).limit(),
            encodable(key@, operation@) ==> {
                &&& result is Ok
                &&& final(self).segments() == (if roll {
                    rolled(
                        written(old(self).segments(), timestamp, key@, operation@),
                        old(self).limit(),
                        spare,
                    )
                } else {
                    written(old(self).segments(), timestamp, key@, operation@)
                })
                &&& forall|other: Seq<char>|
                    value_of(final(self).segments(), other) == if other == key@ {
                        outcome(operation@)
                    } else {
                        value_of(old(self).segments(), other)
                    }
            },
            !encodable(key@, operation@) ==> result == Err::<(), Error>(Error::FieldTooLarge)
                && final(self).segments() == old(self).segments(),
    {
        let ghost before = self.segments();
        let ghost view = operation@;
        let last = self.logs.len() - 1;
        assert(before[last as int].bytes == self.logs@[last as int].image());
        let ghost entries = self.logs@[last as int]@;
        let tombstone = match &operation {
            Operation::Put(_) => false,
            Operation::Delete => true,
        };
        let offset = match self.logs[last].append_at(key, operation, timestamp) {
            Ok(offset) => offset,
            Err(error) => {
                assert(self.segments() =~= before);
                return Err(error);
            },
        };
        let ghost entry = appended(before[last as int].bytes.len(), timestamp, key@, view);
        proof {
            lemma_keydir_push(entries, entry);
        }
        self.indices[last].insert(
            key,
            if tombstone {
                IndexEntry::Tombstone
            } else {
                IndexEntry::Offset(offset)
            },
        );
        let ghost middle = written(before, timestamp, key@, view);
        assert(self.segments() =~= middle);
        if roll && self.logs[last].size() >= self.limit {
            let tail = self.logs[last].id();
            if tail < u128::MAX {
                proof {
                    lemma_empty_says_nothing(key@);
                }
                self.logs.push(Log::new_with_id(rollover_after(tail, spare)));
                self.indices.push(Index::new());
                assert(self.segments() =~= rolled(middle, self.limit, spare));
            }
        }
        proof {
            let after = self.segments();
            assert(after == if roll {
                rolled(middle, self.limit, spare)
            } else {
                middle
            });
            assert forall|other: Seq<char>|
                value_of(after, other) == if other == key@ {
                    outcome(view)
                } else {
                    value_of(before, other)
                } by {
                lemma_write_takes_effect(
                    before,
                    roll,
                    self.limit,
                    spare,
                    timestamp,
                    key@,
                    view,
                    other,
                );
            }
        }
        Ok(())
    }
    /// Puts `log` in the place of the segment at `position`, with a keydir rebuilt
    /// from it by a scan.
    fn install(&mut self, position: usize, log: Log)
        requires
            old(self).wf(),
            position < old(self).segments().len(),
            log.wf(),
            equivalent(log.image(), old(self).segments()[position as int].bytes),
            old(self).segments()[position as int].id < log.id(),
            position + 1 < old(self).segments().len() ==> log.id() < old(self).segments()[position
                + 1].id,
        ensures
            final(self).wf(),
            final(self).limit() == old(self).limit(),
            final(self).segments() == old(self).segments().update(
                position as int,
                Segment { id: log.id(), bytes: log.image() },
            ),
            final(self)@ == old(self)@,
    {
        let ghost before = self.segments();
        let index = Index::rebuild(&log.entries());
        self.indices[position] = index;
        self.logs[position] = log;
        proof {
            let after = self.segments();
            assert(after =~= before.update(
                position as int,
                Segment { id: log.id(), bytes: log.image() },
            ));
            assert forall|i: int| 0 <= i < after.len() implies equivalent(
                #[trigger] after[i].bytes,
                before[i].bytes,
            ) by {}
            lemma_equivalent_segments_hold_the_same(after, before);
        }
    }

    /// Runs one compaction cycle over the segments, oldest first.
    ///
    /// Each segment in which a key has more than one record is replaced, at its place
    /// in the chain, by a segment under the id that follows its own, with one record
    /// for each key, stamped `timestamp`. A segment is left as it is where the id that
    /// follows is not free. What the store holds does not change. Returns the number
    /// of segments that were replaced.
    pub fn compact_logs(&mut self, timestamp: u64) -> (replaced: usize)
        requires
            old(self).wf(),
        ensures
            final(self).wf(),
            final(self).limit() == old(self).limit(),
            final(self)@ == old(self)@,
            final(self).segments().len() == old(self).segments().len(),
            forall|i: int|
                0 <= i < old(self).segments().len() ==> if due(old(self).segments(), i) {
                    compacted_from(old(self).segments()[i], #[trigger] final(self).segments()[i])
                } else {
                    final(self).segments()[i] == old(self).segments()[i]
                },
            replaced == count_due(old(self).segments(), old(self).segments().len() as int),
    {
        let ghost before = self.segments();
        let mut replaced: usize = 0;
        let mut position: usize = 0;
        while position < self.logs.len()
            invariant
                self.wf(),
                self.limit() == old(self).limit(),
                self@ == old(self)@,
                before == old(self).segments(),
                self.segments().len() == before.len(),
                self.logs@.len() == before.len(),
                position <= before.len(),
                replaced == count_due(before, position as int),
                replaced <= position,
                forall|i: int|
                    0 <= i < position ==> if due(before, i) {
                        compacted_from(before[i], #[trigger] self.segments()[i])
                    } else {
                        self.segments()[i] == before[i]
                    },
                forall|i: int|
                    position <= i < before.len() ==> (#[trigger] self.segments()[i]) == before[i],
            decreases before.len() - position,
        {
            let ghost current = self.segments();
            assert(current[position as int].id == self.logs@[position as int].id());
            assert(current[position as int].bytes == self.logs@[position as int].image());
            let free = match next_after(self.logs[position].id()) {
                Some(id) => if position + 1 == self.logs.len() || id < self.logs[position
                    + 1].id() {
                    Some(id)
                } else {
                    None
                },
                None => None,
            };
            proof {
                if position + 1 < before.len() {
                    assert(current[position + 1].id == self.logs@[position + 1].id());
                }
            }
            if let Some(id) = free {
                if let Some(log) = self.logs[position].compact(id, timestamp) {
                    self.install(position, log);
                    replaced += 1;
                }
            }
            position += 1;
        }
        replaced
    }
    /// Swaps a compacted segment in for the segment it was made from.
    ///
    /// The swap is made where the store still holds that segment, byte for byte, and
    /// the id of the compacted segment lies below that of the next one; the keydir is
    /// then rebuilt from the compacted segment by a scan. Else nothing changes: the
    /// segment may have been replaced already, or written to since. What the store
    /// holds is the same either way. Returns whether the swap was made.
    pub fn replace_log(&mut self, compaction: Compaction) -> (replaced: bool)
        requires
            old(self).wf(),
            compaction.wf(),
        ensures
            final(self).wf(),
            final(self).limit() == old(self).limit(),
            final(self)@ == old(self)@,
            final(self).segments().len() == old(self).segments().len(),
            replaced <==> exists|position: int|
                takes_place(
                    old(self).segments(),
                    position,
                    compaction.source(),
                    compaction.output(),
                ),
            forall|i: int|
                0 <= i < old(self).segments().len() ==> #[trigger] final(self).segments()[i] == (
                if takes_place(old(self).segments(), i, compaction.source(), compaction.output()) {
                    compaction.output()
                } else {
                    old(self).segments()[i]
                }),
    {
        let ghost before = self.segments();
        let id = compaction.source.id();
        let mut position: usize = 0;
        while position < self.logs.len() && self.logs[position].id() < id
            invariant
                position <= self.logs@.len(),
                self.segments() == before,
                forall|i: int| 0 <= i < position ==> before[i].id < id,
            decreases self.logs@.len() - position,
        {
            assert(before[position as int].id == self.logs@[position as int].id());
            position += 1;
        }
        proof {
            if position < before.len() {
                assert(before[position as int].id == self.logs@[position as int].id());
                assert(before[position as int].bytes == self.logs@[position as int].image());
            }
            if position + 1 < before.len() {
                assert(before[position + 1].id == self.logs@[position + 1].id());
            }
            lemma_successor_is_next(id);
        }
        let fits = position < self.logs.len() && self.logs[position].id() == id && same_bytes(
            self.logs[position].as_bytes(),
            compaction.source.as_bytes(),
        ) && (position + 1 == self.logs.len() || compaction.output.id() < self.logs[position
            + 1].id());
        proof {
            assert(fits <==> takes_place(
                before,
                position as int,
                compaction.source(),
                compaction.output(),
            ));
            assert forall|i: int| 0 <= i < before.len() && i != position implies !takes_place(
                before,
                i,
                compaction.source(),
                compaction.output(),
            ) by {
                if position < before.len() {
                    assert(before[i].id != id);
                }
            }
        }
        if fits {
            let Compaction { source: _, output } = compaction;
            self.install(position, output);
        }
        fits
    }
}

} // verus!
