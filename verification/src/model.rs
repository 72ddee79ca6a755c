//! The store as a mathematical value: its segments, what they hold, and what writes,
//! rollovers and compaction make of them.

use vstd::prelude::*;
use crate::ident::{named_segment, rollover_id, successor};
use crate::index::has_repeats;
use crate::log::{equivalent, intact, records, said};
use crate::record::{encoding, OperationView};

verus! {

/// A segment as a mathematical value: its id and the bytes of its file.
pub struct Segment {
    pub id: u128,
    pub bytes: Seq<u8>,
}

/// Whether the ids grow from each segment to the next.
pub open spec fn ascending(segments: Seq<Segment>) -> bool {
    forall|i: int, j: int| 0 <= i < j < segments.len() ==> segments[i].id < segments[j].id
}

/// Whether `segments` can be the segments of a store: there is at least one, the ids
/// grow from each to the next, and each is a chain of records.
pub open spec fn sound(segments: Seq<Segment>) -> bool {
    &&& segments.len() > 0
    &&& ascending(segments)
    &&& forall|i: int| 0 <= i < segments.len() ==> intact((#[trigger] segments[i]).bytes)
}

/// The value of `key` as the first `upto` segments give it: the newest of them that
/// says anything of the key decides, a `Set` with its value, a `Delete` with none.
pub open spec fn resolve(segments: Seq<Segment>, key: Seq<char>, upto: int) -> Option<Seq<char>>
    decreases upto,
{
    if upto <= 0 {
        None
    } else {
        match said(segments[upto - 1].bytes, key) {
            Some(OperationView::Put(value)) => Some(value),
            Some(OperationView::Delete) => None,
            None => resolve(segments, key, upto - 1),
        }
    }
}

/// The value of `key` in a store with these segments.
pub open spec fn value_of(segments: Seq<Segment>, key: Seq<char>) -> Option<Seq<char>> {
    resolve(segments, key, segments.len() as int)
}

/// What a store with these segments holds: every key that has a value, with it.
pub open spec fn contents(segments: Seq<Segment>) -> Map<Seq<char>, Seq<char>> {
    Map::new(
        |key: Seq<char>| value_of(segments, key) is Some,
        |key: Seq<char>| value_of(segments, key)->0,
    )
}

/// What a write or a delete makes of the value of a key.
pub open spec fn outcome(operation: OperationView) -> Option<Seq<char>> {
    match operation {
        OperationView::Put(value) => Some(value),
        OperationView::Delete => None,
    }
}

/// The segments after `operation` on `key` was appended to the tail at `timestamp`.
pub open spec fn written(
    segments: Seq<Segment>,
    timestamp: u64,
    key: Seq<char>,
    operation: OperationView,
) -> Seq<Segment> {
    let tail = segments.last();
    segments.update(
        segments.len() - 1,
        Segment { id: tail.id, bytes: tail.bytes + encoding(timestamp, key, operation) },
    )
}

/// The segments after the rollover rule was applied: where the tail has reached
/// `limit` bytes, an empty tail is added under an id above its own. Only behind a tail
/// with the greatest id there is can no tail be added.
pub open spec fn rolled(segments: Seq<Segment>, limit: u64, spare: u128) -> Seq<Segment> {
    let tail = segments.last();
    if tail.bytes.len() >= limit && tail.id < u128::MAX {
        segments.push(Segment { id: rollover_id(tail.id, spare), bytes: Seq::empty() })
    } else {
        segments
    }
}

/// Whether `segments` can be taken over at start-up: each is a chain of records, and
/// no two carry the same id.
pub open spec fn acceptable(segments: Seq<Segment>) -> bool {
    &&& forall|i: int| 0 <= i < segments.len() ==> intact((#[trigger] segments[i]).bytes)
    &&& forall|i: int, j: int| 0 <= i < j < segments.len() ==> segments[i].id != segments[j].id
}

/// The segments that a list of ids and file contents describes, in the order of the
/// list.
pub open spec fn found(images: Seq<(u128, Vec<u8>)>) -> Seq<Segment> {
    images.map_values(|image: (u128, Vec<u8>)| Segment { id: image.0, bytes: image.1@ })
}

/// The segments among the files of a data directory, the last listed first: a file
/// whose name is not that of a segment is passed over.
pub open spec fn candidates(files: Seq<(String, Vec<u8>)>) -> Seq<Segment>
    decreases files.len(),
{
    if files.len() == 0 {
        Seq::empty()
    } else {
        let rest = candidates(files.drop_last());
        match named_segment(files.last().0@) {
            Some(id) => seq![Segment { id, bytes: files.last().1@ }] + rest,
            None => rest,
        }
    }
}

/// Whether `after` is what compaction makes of `before`: `before` has a key with more
/// than one record, `after` carries the id that follows, says the same of every key,
/// has one record for each key, and is shorter.
pub open spec fn compacted_from(before: Segment, after: Segment) -> bool {
    &&& has_repeats(records(before.bytes))
    &&& successor(before.id) == Some(after.id)
    &&& intact(after.bytes)
    &&& equivalent(after.bytes, before.bytes)
    &&& !has_repeats(records(after.bytes))
    &&& after.bytes.len() < before.bytes.len()
}

/// Whether the segment at `position` is compacted in a cycle: it has a key with more
/// than one record, and the id that follows its own is free, that is, there is one
/// and it lies below the id of the next segment.
pub open spec fn due(segments: Seq<Segment>, position: int) -> bool {
    &&& has_repeats(records(segments[position].bytes))
    &&& successor(segments[position].id) is Some
    &&& position + 1 < segments.len() ==> successor(segments[position].id)->0 < segments[position
        + 1].id
}

/// The number of segments among the first `upto` that are compacted in a cycle.
pub open spec fn count_due(segments: Seq<Segment>, upto: int) -> nat
    decreases upto,
{
    if upto <= 0 {
        0
    } else if due(segments, upto - 1) {
        count_due(segments, upto - 1) + 1
    } else {
        count_due(segments, upto - 1)
    }
}

/// Whether a compacted segment can take the place at `position`: the segment there is
/// the one it was made from, byte for byte, and its id lies below that of the next
/// segment.
pub open spec fn takes_place(
    segments: Seq<Segment>,
    position: int,
    source: Segment,
    output: Segment,
) -> bool {
    &&& 0 <= position < segments.len()
    &&& segments[position] == source
    &&& position + 1 < segments.len() ==> output.id < segments[position + 1].id
}

} // verus!
