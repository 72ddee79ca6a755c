//! The keydir: for each key that a segment speaks of, where its latest record starts,
//! or that the key was deleted there.

use vstd::prelude::*;
use vstd::hash_map::StringHashMap;
use vstd::string::StringExecFns;
use crate::record::{Entry, EntryView, Operation, OperationView};

verus! {

/// What a keydir holds for a key. A key that is absent is one of which the segment
/// says nothing; a tombstone says that the key is gone, whatever older segments hold.
#[derive(Clone, Copy, Debug, PartialEq, Eq, Structural)]
pub enum IndexEntry {
    /// The latest record of the key is a `Set` that starts at this offset.
    Offset(u64),
    /// The latest record of the key is a `Delete`.
    Tombstone,
}

/// The last entry of `entries` that is about `key`.
pub open spec fn latest(entries: Seq<EntryView>, key: Seq<char>) -> Option<EntryView>
    decreases entries.len(),
{
    if entries.len() == 0 {
        None
    } else if entries.last().key == key {
        Some(entries.last())
    } else {
        latest(entries.drop_last(), key)
    }
}

/// What the keydir files for an entry.
pub open spec fn slot(entry: EntryView) -> IndexEntry {
    match entry.operation {
        OperationView::Put(_) => IndexEntry::Offset(entry.offset as u64),
        OperationView::Delete => IndexEntry::Tombstone,
    }
}

/// The keydir of a segment that holds `entries`: each key that occurs, with the slot
/// of its latest entry.
pub open spec fn keydir(entries: Seq<EntryView>) -> Map<Seq<char>, IndexEntry> {
    Map::new(
        |key: Seq<char>| latest(entries, key) is Some,
        |key: Seq<char>| slot(latest(entries, key)->0),
    )
}

/// The entries of a vector as mathematical values.
pub open spec fn views(entries: Seq<Entry>) -> Seq<EntryView> {
    entries.map_values(|entry: Entry| entry@)
}

/// The place of the last entry of `entries` that is about `key`, or -1 where none is.
pub open spec fn last_position(entries: Seq<EntryView>, key: Seq<char>) -> int
    decreases entries.len(),
{
    if entries.len() == 0 {
        -1
    } else if entries.last().key == key {
        entries.len() - 1
    } else {
        last_position(entries.drop_last(), key)
    }
}

/// Whether some key has more than one entry.
pub open spec fn has_repeats(entries: Seq<EntryView>) -> bool {
    exists|i: int, j: int| 0 <= i < j < entries.len() && entries[i].key == entries[j].key
}

/// The last place of a key holds the latest entry of the key, and no later entry is
/// about the key; where no entry is about the key, there is no such place.
pub proof fn lemma_last_position(entries: Seq<EntryView>, key: Seq<char>)
    ensures
        -1 <= last_position(entries, key) < entries.len(),
        last_position(entries, key) >= 0 ==> latest(entries, key) == Some(
            entries[last_position(entries, key)],
        ),
        last_position(entries, key) < 0 ==> latest(entries, key) is None,
        forall|i: int|
            last_position(entries, key) < i < entries.len() ==> (#[trigger] entries[i]).key != key,
        last_position(entries, key) >= 0 ==> entries[last_position(entries, key)].key == key,
    decreases entries.len(),
{
    if entries.len() > 0 && entries.last().key != key {
        lemma_last_position(entries.drop_last(), key);
        assert forall|i: int| last_position(entries, key) < i < entries.len() implies (
        #[trigger] entries[i]).key != key by {
            if i < entries.len() - 1 {
                assert(entries.drop_last()[i].key != key);
            }
        }
    }
}

/// The latest entry about a key is one of the entries, and is about that key.
pub proof fn lemma_latest_is_member(entries: Seq<EntryView>, key: Seq<char>)
    requires
        latest(entries, key) is Some,
    ensures
        latest(entries, key)->0.key == key,
        exists|i: int| 0 <= i < entries.len() && entries[i] == latest(entries, key)->0,
    decreases entries.len(),
{
    if entries.last().key == key {
        assert(entries[entries.len() - 1] == latest(entries, key)->0);
    } else {
        lemma_latest_is_member(entries.drop_last(), key);
        let i = choose|i: int|
            0 <= i < entries.drop_last().len() && entries.drop_last()[i] == latest(
                entries.drop_last(),
                key,
            )->0;
        assert(entries[i] == latest(entries, key)->0);
    }
}

/// One more entry changes the keydir at its key and nowhere else.
pub proof fn lemma_keydir_push(entries: Seq<EntryView>, entry: EntryView)
    ensures
        keydir(entries.push(entry)) == keydir(entries).insert(entry.key, slot(entry)),
{
    let longer = entries.push(entry);
    assert(longer.drop_last() =~= entries);
    assert(keydir(longer) =~= keydir(entries).insert(entry.key, slot(entry)));
}

/// The keydir of one segment.
pub struct Index(StringHashMap<IndexEntry>);

impl View for Index {
    type V = Map<Seq<char>, IndexEntry>;

    closed spec fn view(&self) -> Map<Seq<char>, IndexEntry> {
        self.0@
    }
}

impl Index {
    /// A keydir that speaks of no key.
    pub fn new() -> (index: Index)
        ensures
            index@ == Map::<Seq<char>, IndexEntry>::empty(),
            index@ == keydir(Seq::empty()),
    {
        let index = Index(StringHashMap::new());
        assert(index@ =~= keydir(Seq::empty()));
        index
    }

    /// What the keydir holds for `key`.
    pub fn get(&self, key: &str) -> (found: Option<IndexEntry>)
        ensures
            found == (if self@.contains_key(key@) {
                Some(self@[key@])
            } else {
                None
            }),
    {
        match self.0.get(key) {
            Some(entry) => Some(*entry),
            None => None,
        }
    }

    /// Files `entry` under `key`, in place of what was there.
    pub fn insert(&mut self, key: &str, entry: IndexEntry)
        ensures
            final(self)@ == old(self)@.insert(key@, entry),
    {
        self.0.insert(String::from_str(key), entry);
    }

    /// Takes note of one more entry of the segment: a `Set` files its offset, a
    /// `Delete` files a tombstone.
    pub fn note(&mut self, entry: &Entry)
        ensures
            final(self)@ == old(self)@.insert(entry.key@, slot(entry@)),
    {
        match &entry.operation {
            Operation::Put(_) => self.insert(entry.key.as_str(), IndexEntry::Offset(entry.offset)),
            Operation::Delete => self.insert(entry.key.as_str(), IndexEntry::Tombstone),
        }
    }

    /// The keydir of a segment with these entries, replayed from its first to its last.
    pub fn rebuild(entries: &Vec<Entry>) -> (index: Index)
        ensures
            index@ == keydir(views(entries@)),
    {
        let mut index = Index::new();
        let mut i: usize = 0;
        while i < entries.len()
            invariant
                i <= entries.len(),
                index@ == keydir(views(entries@).take(i as int)),
            decreases entries.len() - i,
        {
            proof {
                let seen = views(entries@).take(i as int);
                lemma_keydir_push(seen, entries[i as int]@);
                assert(views(entries@).take(i + 1) =~= seen.push(entries[i as int]@));
            }
            index.note(&entries[i]);
            i += 1;
        }
        assert(views(entries@).take(i as int) =~= views(entries@));
        index
    }

    /// The number of keys that the keydir speaks of.
    pub fn len(&self) -> (count: usize)
        ensures
            count == self@.len(),
    {
        self.0.len()
    }
}

} // verus!
