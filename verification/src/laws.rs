//! What the store promises, proved over its model: that reads see the latest write,
//! that deletes shadow, that reopening and compaction change nothing that is held,
//! and that the ids of the segments stay in ascending order.

use vstd::prelude::*;
use crate::ident::{
    lemma_rollover_id_is_greater,
    lemma_successor_is_next,
    named_segment,
    successor,
};
use crate::log::{appended, equivalent, intact, lemma_scan_append, records, said};
use crate::model::{
    acceptable,
    ascending,
    candidates,
    contents,
    outcome,
    resolve,
    rolled,
    sound,
    value_of,
    written,
    Segment,
};
use crate::record::{decode_at, encodable, fits, lemma_parse_frame, OperationView};

verus! {

/// Segments that say the same of a key give it the same value.
pub proof fn lemma_resolve_congruent(a: Seq<Segment>, b: Seq<Segment>, key: Seq<char>, upto: int)
    requires
        upto <= a.len(),
        upto <= b.len(),
        forall|i: int| 0 <= i < upto ==> said(a[i].bytes, key) == said(b[i].bytes, key),
    ensures
        resolve(a, key, upto) == resolve(b, key, upto),
    decreases upto,
{
    if upto > 0 {
        lemma_resolve_congruent(a, b, key, upto - 1);
    }
}

/// An empty segment says nothing.
pub proof fn lemma_empty_says_nothing(key: Seq<char>)
    ensures
        said(Seq::empty(), key) is None,
        intact(Seq::empty()),
{
    let none = Seq::<u8>::empty();
    if decode_at(none, 0) is Some {
        lemma_parse_frame(none.skip(0), 0);
    }
}

/// A write or a delete at the tail, with or without a rollover behind it, sets the
/// value of its key to its outcome and leaves every other key as it was.
pub proof fn lemma_write_takes_effect(
    before: Seq<Segment>,
    roll: bool,
    limit: u64,
    spare: u128,
    timestamp: u64,
    key: Seq<char>,
    operation: OperationView,
    other: Seq<char>,
)
    requires
        before.len() > 0,
        intact(before.last().bytes),
        encodable(key, operation),
    ensures
        ({
            let middle = written(before, timestamp, key, operation);
            let after = if roll {
                rolled(middle, limit, spare)
            } else {
                middle
            };
            value_of(after, other) == if other == key {
                outcome(operation)
            } else {
                value_of(before, other)
            }
        }),
{
    let middle = written(before, timestamp, key, operation);
    let after = if roll {
        rolled(middle, limit, spare)
    } else {
        middle
    };
    let n = before.len() as int;
    let tail = before.last().bytes;
    lemma_scan_append(tail, 0, timestamp, key, operation);
    let entry = appended(tail.len(), timestamp, key, operation);
    assert(records(tail).push(entry).drop_last() =~= records(tail));
    assert(said(middle[n - 1].bytes, other) == if other == key {
        Some(operation)
    } else {
        said(tail, other)
    });
    lemma_resolve_congruent(before, middle, other, n - 1);
    lemma_resolve_congruent(middle, after, other, n);
    if after.len() > n {
        lemma_empty_says_nothing(other);
    }
}

/// Monotonic segment ids, for writes: a write or a delete at the tail, with or
/// without a rollover behind it, leaves sound segments sound. The ids stay in
/// ascending order, and a tail begun by a rollover has an id above that of the tail
/// before it.
pub proof fn lemma_write_keeps_sound(
    before: Seq<Segment>,
    limit: u64,
    spare: u128,
    timestamp: u64,
    key: Seq<char>,
    operation: OperationView,
)
    requires
        sound(before),
        encodable(key, operation),
    ensures
        sound(written(before, timestamp, key, operation)),
        sound(rolled(written(before, timestamp, key, operation), limit, spare)),
        ({
            let middle = written(before, timestamp, key, operation);
            let after = rolled(middle, limit, spare);
            after.len() > middle.len() ==> after.last().id > before.last().id
        }),
{
    let middle = written(before, timestamp, key, operation);
    let after = rolled(middle, limit, spare);
    lemma_scan_append(before.last().bytes, 0, timestamp, key, operation);
    assert forall|i: int| 0 <= i < middle.len() implies intact((#[trigger] middle[i]).bytes) by {
        if i < middle.len() - 1 {
            assert(middle[i] == before[i]);
        }
    }
    assert(sound(middle));
    if after.len() > middle.len() {
        lemma_rollover_id_is_greater(before.last().id, spare);
        lemma_empty_says_nothing(key);
        assert forall|i: int| 0 <= i < after.len() implies intact((#[trigger] after[i]).bytes) by {
            if i < middle.len() {
                assert(after[i] == middle[i]);
            }
        }
    }
}

/// Rollover at the limit: a write leaves one segment more exactly if the tail has
/// reached the limit with it, unless the tail carries the greatest id there is. The
/// new tail is empty, and nothing else is added or taken away.
pub proof fn lemma_rollover_at_limit(
    before: Seq<Segment>,
    limit: u64,
    spare: u128,
    timestamp: u64,
    key: Seq<char>,
    operation: OperationView,
)
    requires
        before.len() > 0,
    ensures
        ({
            let tail = written(before, timestamp, key, operation).last();
            let after = rolled(written(before, timestamp, key, operation), limit, spare);
            if tail.bytes.len() >= limit && tail.id < u128::MAX {
                &&& after.len() == before.len() + 1
                &&& after.last().bytes == Seq::<u8>::empty()
                &&& after.last().id > before.last().id
            } else {
                after.len() == before.len()
            }
        }),
{
    if before.last().id < u128::MAX {
        lemma_rollover_id_is_greater(before.last().id, spare);
    }
}

/// One write of a session: a key, a value, the time, and the spare id for a rollover.
pub struct Write {
    pub key: Seq<char>,
    pub value: Seq<char>,
    pub timestamp: u64,
    pub spare: u128,
}

/// The segments after a series of writes, each followed by the rollover rule.
pub open spec fn after_writes(segments: Seq<Segment>, limit: u64, writes: Seq<Write>) -> Seq<
    Segment,
>
    decreases writes.len(),
{
    if writes.len() == 0 {
        segments
    } else {
        let write = writes.last();
        rolled(
            written(
                after_writes(segments, limit, writes.drop_last()),
                write.timestamp,
                write.key,
                OperationView::Put(write.value),
            ),
            limit,
            write.spare,
        )
    }
}

/// The value of the most recent write to `key` in a series, if there is one.
pub open spec fn last_written(writes: Seq<Write>, key: Seq<char>) -> Option<Seq<char>>
    decreases writes.len(),
{
    if writes.len() == 0 {
        None
    } else if writes.last().key == key {
        Some(writes.last().value)
    } else {
        last_written(writes.drop_last(), key)
    }
}

/// Read your writes: after any series of writes, the value of a key is that of the
/// most recent write to it, and a key that was not written has the value it had.
pub proof fn lemma_read_your_writes(
    segments: Seq<Segment>,
    limit: u64,
    writes: Seq<Write>,
    key: Seq<char>,
)
    requires
        sound(segments),
        forall|i: int|
            0 <= i < writes.len() ==> fits((#[trigger] writes[i]).key) && fits(writes[i].value),
    ensures
        sound(after_writes(segments, limit, writes)),
        value_of(after_writes(segments, limit, writes), key) == match last_written(writes, key) {
            Some(value) => Some(value),
            None => value_of(segments, key),
        },
    decreases writes.len(),
{
    if writes.len() > 0 {
        let write = writes.last();
        let earlier = after_writes(segments, limit, writes.drop_last());
        assert forall|i: int| 0 <= i < writes.drop_last().len() implies fits(
            (#[trigger] writes.drop_last()[i]).key,
        ) && fits(writes.drop_last()[i].value) by {
            assert(writes.drop_last()[i] == writes[i]);
        }
        lemma_read_your_writes(segments, limit, writes.drop_last(), key);
        let operation = OperationView::Put(write.value);
        lemma_write_keeps_sound(earlier, limit, write.spare, write.timestamp, write.key, operation);
        lemma_write_takes_effect(
            earlier,
            true,
            limit,
            write.spare,
            write.timestamp,
            write.key,
            operation,
            key,
        );
    }
}

/// Delete shadows: once a key was written and then deleted, it has no value, whatever
/// older segments hold for it and whether or not the tail was closed in between.
pub proof fn lemma_delete_shadows(
    segments: Seq<Segment>,
    limit: u64,
    spare: u128,
    set_at: u64,
    deleted_at: u64,
    key: Seq<char>,
    value: Seq<char>,
)
    requires
        sound(segments),
        fits(key),
        fits(value),
    ensures
        value_of(
            written(
                rolled(written(segments, set_at, key, OperationView::Put(value)), limit, spare),
                deleted_at,
                key,
                OperationView::Delete,
            ),
            key,
        ) is None,
{
    let put = OperationView::Put(value);
    lemma_write_keeps_sound(segments, limit, spare, set_at, key, put);
    let middle = rolled(written(segments, set_at, key, put), limit, spare);
    lemma_write_takes_effect(middle, false, limit, spare, deleted_at, key, OperationView::Delete, key);
}

/// Durability, as far as the order in which segments are found goes: sound segments
/// are determined by which segments they are. A store opened from the segments of
/// another, found in whatever order, has them in the same order, and so holds the same.
pub proof fn lemma_reopen_restores(before: Seq<Segment>, after: Seq<Segment>)
    requires
        ascending(before),
        ascending(after),
        after.to_set() == before.to_set(),
    ensures
        after == before,
        contents(after) == contents(before),
    decreases before.len(),
{
    if before.len() == 0 {
        if after.len() > 0 {
            assert(after.to_set().contains(after[0]));
        }
        assert(after =~= before);
    } else {
        let top = before.last();
        assert(before.to_set().contains(top));
        assert(after.contains(top));
        let at = choose|i: int| 0 <= i < after.len() && after[i] == top;
        if at < after.len() - 1 {
            let higher = after.last();
            assert(after.to_set().contains(higher));
            let back = choose|i: int| 0 <= i < before.len() && before[i] == higher;
            assert(before[back].id <= top.id);
        }
        let (shorter, other) = (before.drop_last(), after.drop_last());
        assert forall|x: Segment| other.to_set().contains(x) <==> shorter.to_set().contains(
            x,
        ) by {
            if other.contains(x) {
                let i = choose|i: int| 0 <= i < other.len() && other[i] == x;
                assert(after[i] == x);
                assert(after.to_set().contains(x));
                let j = choose|j: int| 0 <= j < before.len() && before[j] == x;
                assert(shorter[j] == x);
            }
            if shorter.contains(x) {
                let i = choose|i: int| 0 <= i < shorter.len() && shorter[i] == x;
                assert(before[i] == x);
                assert(before.to_set().contains(x));
                let j = choose|j: int| 0 <= j < after.len() && after[j] == x;
                assert(other[j] == x);
            }
        }
        assert(other.to_set() =~= shorter.to_set());
        lemma_reopen_restores(shorter, other);
        assert(after =~= other.push(top));
        assert(before =~= shorter.push(top));
    }
}

/// Durability: a value that was written is there after the store was closed and
/// opened again. Whatever sound segments are found, if they are the segments that the
/// write left, in any order, the key has the value that was written.
pub proof fn lemma_written_values_survive_reopening(
    before: Seq<Segment>,
    reopened: Seq<Segment>,
    limit: u64,
    spare: u128,
    timestamp: u64,
    key: Seq<char>,
    value: Seq<char>,
)
    requires
        sound(before),
        fits(key),
        fits(value),
        ascending(reopened),
        reopened.to_set() == rolled(
            written(before, timestamp, key, OperationView::Put(value)),
            limit,
            spare,
        ).to_set(),
    ensures
        value_of(reopened, key) == Some(value),
{
    let put = OperationView::Put(value);
    let after = rolled(written(before, timestamp, key, put), limit, spare);
    lemma_write_keeps_sound(before, limit, spare, timestamp, key, put);
    lemma_write_takes_effect(before, true, limit, spare, timestamp, key, put, key);
    lemma_reopen_restores(after, reopened);
}

/// Files that are named after the segments of a store and hold their bytes are taken
/// for those segments at start-up, each of them and nothing else, and can be taken
/// over.
pub proof fn lemma_named_files_hold_the_segments(
    files: Seq<(String, Vec<u8>)>,
    segments: Seq<Segment>,
)
    requires
        ascending(segments),
        forall|i: int| 0 <= i < segments.len() ==> intact((#[trigger] segments[i]).bytes),
        files.len() == segments.len(),
        forall|i: int|
            0 <= i < files.len() ==> {
                &&& named_segment((#[trigger] files[i]).0@) == Some(segments[i].id)
                &&& files[i].1@ == segments[i].bytes
            },
    ensures
        candidates(files) == segments.reverse(),
        candidates(files).to_set() == segments.to_set(),
        acceptable(candidates(files)),
    decreases files.len(),
{
    let turned = segments.reverse();
    if files.len() > 0 {
        let (fewer, shorter) = (files.drop_last(), segments.drop_last());
        assert forall|i: int| 0 <= i < fewer.len() implies {
            &&& named_segment((#[trigger] fewer[i]).0@) == Some(shorter[i].id)
            &&& fewer[i].1@ == shorter[i].bytes
        } by {
            assert(fewer[i] == files[i]);
        }
        assert forall|i: int| 0 <= i < shorter.len() implies intact(
            (#[trigger] shorter[i]).bytes,
        ) by {
            assert(shorter[i] == segments[i]);
        }
        lemma_named_files_hold_the_segments(fewer, shorter);
        assert(files.last() == files[files.len() - 1]);
        assert(seq![segments.last()] + shorter.reverse() =~= turned);
    }
    assert(candidates(files) =~= turned);
    assert forall|x: Segment| turned.to_set().contains(x) <==> segments.to_set().contains(x) by {
        if turned.contains(x) {
            let i = choose|i: int| 0 <= i < turned.len() && turned[i] == x;
            assert(segments[segments.len() - 1 - i] == x);
        }
        if segments.contains(x) {
            let i = choose|i: int| 0 <= i < segments.len() && segments[i] == x;
            assert(turned[segments.len() - 1 - i] == x);
        }
    }
    assert(turned.to_set() =~= segments.to_set());
    assert forall|i: int| 0 <= i < turned.len() implies intact((#[trigger] turned[i]).bytes) by {
        assert(turned[i] == segments[segments.len() - 1 - i]);
    }
}

/// Compaction preserves state: segments that say the same of every key, one by one,
/// make stores that hold the same.
pub proof fn lemma_equivalent_segments_hold_the_same(a: Seq<Segment>, b: Seq<Segment>)
    requires
        a.len() == b.len(),
        forall|i: int| 0 <= i < a.len() ==> equivalent(#[trigger] a[i].bytes, b[i].bytes),
    ensures
        contents(a) == contents(b),
{
    assert forall|key: Seq<char>| value_of(a, key) == value_of(b, key) by {
        assert forall|i: int| 0 <= i < a.len() implies said(a[i].bytes, key) == said(
            b[i].bytes,
            key,
        ) by {
            assert(equivalent(a[i].bytes, b[i].bytes));
        }
        lemma_resolve_congruent(a, b, key, a.len() as int);
    }
    assert(contents(a) =~= contents(b));
}

/// Monotonic segment ids, for compaction: putting a segment under the following id
/// in the place of one whose following id is free keeps the ids in ascending order,
/// and the new id is above the old.
pub proof fn lemma_successor_keeps_order(segments: Seq<Segment>, position: int, after: Segment)
    requires
        ascending(segments),
        0 <= position < segments.len(),
        successor(segments[position].id) == Some(after.id),
        position + 1 < segments.len() ==> after.id < segments[position + 1].id,
    ensures
        segments[position].id < after.id,
        ascending(segments.update(position, after)),
{
    lemma_successor_is_next(segments[position].id);
}

} // verus!
