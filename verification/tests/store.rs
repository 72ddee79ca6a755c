use silo::ident::{file_name, next_after};
use silo::record::{encode, Operation};
use silo::{lookup, Compaction, Database, Error, Index, IndexEntry, Log, Lookup, MAX_SEGMENT_BYTES};

fn put(value: &str) -> Operation {
    Operation::Put(value.to_string())
}

fn images(database: &Database) -> Vec<(u128, Vec<u8>)> {
    (0..database.segment_count())
        .map(|i| (database.segment(i).id(), database.segment(i).as_bytes().to_vec()))
        .collect()
}

fn ids(database: &Database) -> Vec<u128> {
    (0..database.segment_count()).map(|i| database.segment(i).id()).collect()
}

fn value(text: &str) -> Result<Option<String>, Error> {
    Ok(Some(text.to_string()))
}

#[test]
fn read_write() {
    let mut database = Database::start(Vec::new()).unwrap();

    database.set("hello", "sun").unwrap();
    database.set("goodbye", "moon").unwrap();
    database.set("farewell", "sky").unwrap();

    let hello = database.get("hello").unwrap();
    let goodbye = database.get("goodbye").unwrap();
    let farewell = database.get("farewell").unwrap();

    assert_eq!(hello, Some("sun".into()));
    assert_eq!(goodbye, Some("moon".into()));
    assert_eq!(farewell, Some("sky".into()));
}

#[test]
fn delete() {
    let mut database = Database::start(Vec::new()).unwrap();

    database.set("hello", "world").unwrap();
    database.delete("hello").unwrap();

    let hello = database.get("hello").unwrap();

    assert_eq!(hello, None);
}

#[test]
fn a_missing_key_has_no_value() {
    let mut database = Database::start(Vec::new()).unwrap();
    database.set("hello", "sun").unwrap();
    database.set("goodbye", "moon").unwrap();
    database.set("farewell", "sky").unwrap();
    assert_eq!(database.get("hello"), value("sun"));
    assert_eq!(database.get("goodbye"), value("moon"));
    assert_eq!(database.get("farewell"), value("sky"));
    assert_eq!(database.get("missing"), Ok(None));
}

#[test]
fn delete_is_idempotent() {
    let mut database = Database::start(Vec::new()).unwrap();
    database.set("hello", "world").unwrap();
    assert_eq!(database.delete("hello"), Ok(()));
    assert_eq!(database.get("hello"), Ok(None));
    let size = database.segment(0).size();
    assert_eq!(database.delete("hello"), Ok(()));
    assert_eq!(database.get("hello"), Ok(None));
    assert!(database.segment(0).size() > size);
    assert_eq!(database.delete("never there"), Ok(()));
    assert_eq!(database.get("never there"), Ok(None));
}

#[test]
fn the_latest_set_wins() {
    let mut database = Database::start(Vec::new()).unwrap();
    for round in 0..5 {
        for key in ["a", "b", "c"] {
            database.set(key, &format!("{key}{round}")).unwrap();
            assert_eq!(database.get(key), value(&format!("{key}{round}")));
        }
    }
    assert_eq!(database.get("a"), value("a4"));
    database.delete("b").unwrap();
    database.set("b", "again").unwrap();
    assert_eq!(database.get("b"), value("again"));
    database.set("", "empty key").unwrap();
    database.set("empty value", "").unwrap();
    assert_eq!(database.get(""), value("empty key"));
    assert_eq!(database.get("empty value"), value(""));
}

#[test]
fn a_store_starts_with_one_empty_segment_and_the_default_limit() {
    let database = Database::start(Vec::new()).unwrap();
    assert_eq!(database.segment_count(), 1);
    assert_eq!(database.segment(0).size(), 0);
    assert_eq!(database.limit(), MAX_SEGMENT_BYTES);
    assert_eq!(MAX_SEGMENT_BYTES, 4 * 1024 * 1024);
}

#[test]
fn set_appends_one_record_to_the_tail() {
    let mut database = Database::open(vec![(7, Vec::new())], 1000).unwrap();
    database.set_at("k", "v", 5, 0).unwrap();
    database.delete_at("k", 6).unwrap();
    let mut expected = encode("k", &put("v"), 5);
    expected.extend_from_slice(&encode("k", &Operation::Delete, 6));
    assert_eq!(images(&database), vec![(7, expected)]);
}

#[test]
fn values_survive_closing_and_reopening() {
    let mut database = Database::start(Vec::new()).unwrap();
    database.set("k", "v1").unwrap();
    database.set("k", "v2").unwrap();
    database.set("gone", "x").unwrap();
    database.delete("gone").unwrap();
    let files: Vec<(String, Vec<u8>)> =
        images(&database).into_iter().map(|(id, bytes)| (file_name(id), bytes)).collect();
    drop(database);
    let reopened = Database::start(files).unwrap();
    assert_eq!(reopened.get("k"), value("v2"));
    assert_eq!(reopened.get("gone"), Ok(None));
    assert_eq!(reopened.get("missing"), Ok(None));
}

#[test]
fn reopening_finds_the_segments_in_any_order() {
    let mut database = Database::open(Vec::new(), 64).unwrap();
    for i in 0..40 {
        database.set(&format!("key{}", i % 7), &format!("value{i}")).unwrap();
    }
    database.delete("key3").unwrap();
    assert!(database.segment_count() > 3);
    let first = images(&database);
    let mut shuffled = first.clone();
    shuffled.reverse();
    shuffled.swap(0, 2);
    let reopened = Database::open(shuffled, 64).unwrap();
    assert_eq!(images(&reopened), first);
    for i in 0..7 {
        assert_eq!(reopened.get(&format!("key{i}")), database.get(&format!("key{i}")));
    }
    assert_eq!(reopened.get("key3"), Ok(None));
    assert_eq!(reopened.get("key5"), value("value33"));
}

#[test]
fn start_passes_over_files_that_are_no_segments() {
    let log = encode("k", &put("v"), 1);
    let files = vec![
        ("notes.txt".to_string(), vec![1, 2, 3]),
        (file_name(9), log.clone()),
        ("README".to_string(), Vec::new()),
        ("21850m2ga1850m2ga1850m2ga1.log".to_string(), vec![0xFF]),
        (file_name(3), Vec::new()),
    ];
    let database = Database::start(files).unwrap();
    assert_eq!(images(&database), vec![(3, Vec::new()), (9, log)]);
    assert_eq!(database.get("k"), value("v"));
}

#[test]
fn tombstones_shadow_older_segments() {
    let old = encode("k", &put("old"), 1);
    let mut older = encode("k", &put("older"), 0);
    older.extend_from_slice(&encode("other", &put("kept"), 0));
    let new = encode("k", &Operation::Delete, 2);
    let database =
        Database::open(vec![(2, old.clone()), (3, new), (1, older.clone())], 1000).unwrap();
    assert_eq!(database.get("k"), Ok(None));
    assert_eq!(database.get("other"), value("kept"));
    let database = Database::open(vec![(2, old), (1, older)], 1000).unwrap();
    assert_eq!(database.get("k"), value("old"));
}

#[test]
fn a_corrupt_tail_is_refused_at_start() {
    let mut database = Database::start(Vec::new()).unwrap();
    database.set("a", "1").unwrap();
    database.set("b", "2").unwrap();
    let mut found = images(&database);
    let tail = found.last_mut().unwrap();
    let last = tail.1.len() - 1;
    tail.1[last] ^= 0x01;
    assert_eq!(Database::open(found.clone(), 1000).err(), Some(Error::Bootstrap));
    let files = found.into_iter().map(|(id, bytes)| (file_name(id), bytes)).collect();
    assert_eq!(Database::start(files).err(), Some(Error::Bootstrap));
}

#[test]
fn a_truncated_segment_is_refused_at_start() {
    let mut bytes = encode("a", &put("1"), 1);
    bytes.extend_from_slice(&encode("b", &put("2"), 2));
    bytes.truncate(bytes.len() - 3);
    assert_eq!(Database::open(vec![(1, bytes)], 1000).err(), Some(Error::Bootstrap));
}

#[test]
fn two_segments_under_one_id_are_refused_at_start() {
    let bytes = encode("a", &put("1"), 1);
    let found = vec![(1, Vec::new()), (2, bytes.clone()), (1, bytes)];
    assert_eq!(Database::open(found, 1000).err(), Some(Error::Bootstrap));
}

#[test]
fn the_tail_rolls_over_at_the_limit() {
    let mut database = Database::open(vec![(100, Vec::new())], 100).unwrap();
    let record = encode("key0", &put("0123456789"), 1).len() as u64;
    assert_eq!(record, 41);
    database.set_at("key0", "0123456789", 1, 500).unwrap();
    database.set_at("key1", "0123456789", 2, 500).unwrap();
    assert_eq!(ids(&database), vec![100]);
    database.set_at("key2", "0123456789", 3, 500).unwrap();
    assert_eq!(ids(&database), vec![100, 500]);
    assert_eq!(database.segment(0).size(), 3 * record);
    assert_eq!(database.segment(1).size(), 0);
    database.set_at("key3", "0123456789", 4, 600).unwrap();
    assert_eq!(ids(&database), vec![100, 500]);
    assert_eq!(database.segment(1).size(), record);
    for i in 0..4 {
        assert_eq!(database.get(&format!("key{i}")), value("0123456789"));
    }
    assert_eq!(database.limit(), 100);
}

#[test]
fn a_rollover_takes_the_spare_id_where_it_is_greater() {
    let mut database = Database::open(vec![(100, Vec::new())], 1).unwrap();
    database.set_at("a", "1", 1, 101).unwrap();
    assert_eq!(ids(&database), vec![100, 101]);
    database.set_at("b", "2", 1, u128::MAX).unwrap();
    assert_eq!(ids(&database), vec![100, 101, u128::MAX]);
}

#[test]
fn a_rollover_without_a_greater_spare_id_begins_the_next_millisecond() {
    let millisecond = 1u128 << 80;
    let mut database = Database::open(vec![(100, Vec::new())], 1).unwrap();
    database.set_at("a", "1", 1, 100).unwrap();
    assert_eq!(ids(&database), vec![100, millisecond]);
    database.set_at("b", "2", 1, 7).unwrap();
    assert_eq!(ids(&database), vec![100, millisecond, 2 * millisecond]);
    database.set_at("c", "3", 1, 2 * millisecond + 5).unwrap();
    assert_eq!(ids(&database), vec![100, millisecond, 2 * millisecond, 2 * millisecond + 5]);
    database.set_at("d", "4", 1, 0).unwrap();
    assert_eq!(ids(&database).last(), Some(&(3 * millisecond)));
    assert_eq!(database.get("a"), value("1"));
    assert_eq!(database.get("b"), value("2"));
    assert_eq!(database.get("c"), value("3"));
    assert_eq!(database.get("d"), value("4"));
}

#[test]
fn a_rollover_behind_a_full_random_part_begins_the_next_millisecond() {
    let full = (1u128 << 80) - 1;
    assert_eq!(next_after(full), None);
    let mut database = Database::open(vec![(full, Vec::new())], 1).unwrap();
    database.set_at("a", "1", 0, 0).unwrap();
    assert_eq!(ids(&database), vec![full, full + 1]);
    assert_eq!(database.segment(0).size(), 29);
    assert_eq!(database.segment(1).size(), 0);
}

#[test]
fn a_rollover_in_the_last_millisecond_takes_the_id_after_the_tail() {
    let last = ((1u128 << 48) - 1) << 80;
    let mut database = Database::open(vec![(last, Vec::new())], 1).unwrap();
    database.set_at("a", "1", 0, 0).unwrap();
    assert_eq!(ids(&database), vec![last, last + 1]);
    database.set_at("b", "2", 0, last).unwrap();
    assert_eq!(ids(&database), vec![last, last + 1, last + 2]);
}

#[test]
fn only_the_greatest_id_admits_no_rollover() {
    let mut database = Database::open(vec![(u128::MAX - 1, Vec::new())], 1).unwrap();
    database.set_at("a", "1", 0, 0).unwrap();
    assert_eq!(ids(&database), vec![u128::MAX - 1, u128::MAX]);
    database.set_at("b", "2", 0, 0).unwrap();
    database.set_at("c", "3", 0, u128::MAX).unwrap();
    assert_eq!(ids(&database), vec![u128::MAX - 1, u128::MAX]);
    assert_eq!(database.segment(1).size(), 2 * 29);
    assert_eq!(database.get("a"), value("1"));
    assert_eq!(database.get("c"), value("3"));
}

#[test]
fn a_segment_closed_by_a_rollover_can_be_compacted() {
    let mut database = Database::open(vec![(100, Vec::new())], 50).unwrap();
    database.set_at("k", "1", 1, 0).unwrap();
    database.set_at("k", "2", 1, 0).unwrap();
    assert_eq!(ids(&database), vec![100, 1u128 << 80]);
    assert_eq!(database.compact_logs(2), 1);
    assert_eq!(ids(&database), vec![101, 1u128 << 80]);
    assert_eq!(database.get("k"), value("2"));
}

#[test]
fn delete_does_not_roll_over() {
    let mut database = Database::open(vec![(100, Vec::new())], 1).unwrap();
    database.delete_at("a", 1).unwrap();
    database.delete_at("a", 2).unwrap();
    assert_eq!(ids(&database), vec![100]);
}

#[test]
fn more_than_the_default_limit_makes_a_second_segment() {
    let mut database = Database::start(Vec::new()).unwrap();
    let chunk = "x".repeat(512 * 1024);
    for i in 0..10 {
        database.set(&format!("key{i}"), &format!("{i}{chunk}")).unwrap();
    }
    assert!(database.segment_count() >= 2);
    assert!(database.segment(0).size() >= MAX_SEGMENT_BYTES);
    assert!(database.segment(0).id() < database.segment(1).id());
    for i in 0..10 {
        assert_eq!(database.get(&format!("key{i}")), value(&format!("{i}{chunk}")));
    }
    let first = database.segment(0).entries();
    let second = database.segment(1).entries();
    assert!(first.iter().any(|entry| entry.key == "key0"));
    assert!(second.iter().any(|entry| entry.key == "key9"));
}

#[test]
fn set_refuses_a_field_that_is_too_large() {
    let mut database = Database::open(vec![(1, Vec::new())], 1000).unwrap();
    database.set_at("k", "v", 1, 0).unwrap();
    let before = images(&database);
    let big = "x".repeat(64 * 1024 * 1024 + 1);
    assert_eq!(database.set("k", &big), Err(Error::FieldTooLarge));
    assert_eq!(database.set(&big, "v"), Err(Error::FieldTooLarge));
    assert_eq!(database.delete(&big), Err(Error::FieldTooLarge));
    assert_eq!(images(&database), before);
    assert_eq!(database.get("k"), value("v"));
    assert_eq!(database.get(&big), Ok(None));
}

#[test]
fn compaction_shrinks_a_segment_and_keeps_what_the_store_holds() {
    let mut database = Database::open(vec![(100, Vec::new())], 1_000_000).unwrap();
    database.set_at("seed", "one", 1, 0).unwrap();
    database.set_at("other", "two", 1, 0).unwrap();
    database.set_at("gone", "three", 1, 0).unwrap();
    database.delete_at("gone", 2).unwrap();
    for i in 0..50 {
        database.set_at("busy", &format!("value {i}"), 3, 0).unwrap();
    }
    let size = database.segment(0).size();
    assert_eq!(database.compact_logs(9), 1);
    assert_eq!(ids(&database), vec![101]);
    assert!(database.segment(0).size() < size);
    assert_eq!(database.segment(0).entries().len(), 4);
    assert_eq!(database.get("seed"), value("one"));
    assert_eq!(database.get("other"), value("two"));
    assert_eq!(database.get("gone"), Ok(None));
    assert_eq!(database.get("busy"), value("value 49"));
    assert_eq!(database.get("missing"), Ok(None));
    assert_eq!(database.compact_logs(10), 0);
    assert_eq!(ids(&database), vec![101]);
    database.set_at("busy", "after", 11, 0).unwrap();
    assert_eq!(database.get("busy"), value("after"));
    let reopened = Database::open(images(&database), 1_000_000).unwrap();
    assert_eq!(reopened.get("busy"), value("after"));
    assert_eq!(reopened.get("gone"), Ok(None));
}

#[test]
fn compaction_keeps_tombstones_that_shadow_older_segments() {
    let older = encode("k", &put("old"), 1);
    let mut newer = encode("k", &put("new"), 2);
    newer.extend_from_slice(&encode("k", &Operation::Delete, 3));
    let mut database = Database::open(vec![(10, older), (20, newer)], 1000).unwrap();
    assert_eq!(database.get("k"), Ok(None));
    assert_eq!(database.compact_logs(4), 1);
    assert_eq!(ids(&database), vec![10, 21]);
    assert_eq!(database.get("k"), Ok(None));
    assert_eq!(database.segment(1).as_bytes(), &encode("k", &Operation::Delete, 4)[..]);
}

#[test]
fn compaction_leaves_a_segment_whose_following_id_is_taken() {
    let mut busy = encode("k", &put("1"), 1);
    busy.extend_from_slice(&encode("k", &put("2"), 2));
    let full = (1u128 << 80) - 1;
    let found = vec![(10, busy.clone()), (11, busy.clone()), (full, busy.clone())];
    let mut database = Database::open(found, 1000).unwrap();
    assert_eq!(database.compact_logs(5), 1);
    assert_eq!(ids(&database), vec![10, 12, full]);
    assert_eq!(database.segment(0).as_bytes(), &busy[..]);
    assert_eq!(database.segment(1).as_bytes(), &encode("k", &put("2"), 5)[..]);
    assert_eq!(database.segment(2).as_bytes(), &busy[..]);
    assert_eq!(database.get("k"), value("2"));
}

#[test]
fn a_prepared_compaction_is_swapped_in() {
    let mut database = Database::open(vec![(10, Vec::new())], 140).unwrap();
    for i in 0..4 {
        database.set_at("k", &format!("value {i}"), 1, 30).unwrap();
    }
    database.set_at("tail", "x", 2, 40).unwrap();
    assert_eq!(ids(&database), vec![10, 30]);
    let source = Log::from_file(10, database.segment(0).as_bytes().to_vec()).ok().unwrap();
    let compaction = Compaction::prepare(source, 9).unwrap();
    assert_eq!(compaction.source_id(), 10);
    assert_eq!(compaction.replacement().id(), 11);
    assert_eq!(compaction.replacement().as_bytes(), &encode("k", &put("value 3"), 9)[..]);
    assert!(database.replace_log(compaction));
    assert_eq!(ids(&database), vec![11, 30]);
    assert_eq!(database.segment(0).as_bytes(), &encode("k", &put("value 3"), 9)[..]);
    assert_eq!(database.get("k"), value("value 3"));
    assert_eq!(database.get("tail"), value("x"));
}

#[test]
fn a_compaction_of_a_segment_that_has_changed_is_skipped() {
    let mut database = Database::open(vec![(10, Vec::new())], 1000).unwrap();
    database.set_at("k", "1", 1, 0).unwrap();
    database.set_at("k", "2", 2, 0).unwrap();
    let snapshot = Log::from_file(10, database.segment(0).as_bytes().to_vec()).ok().unwrap();
    let compaction = Compaction::prepare(snapshot, 9).unwrap();
    database.set_at("k", "3", 3, 0).unwrap();
    let before = images(&database);
    assert!(!database.replace_log(compaction));
    assert_eq!(images(&database), before);
    assert_eq!(database.get("k"), value("3"));
}

#[test]
fn a_compaction_of_a_segment_that_is_gone_is_skipped() {
    let mut busy = encode("k", &put("1"), 1);
    busy.extend_from_slice(&encode("k", &put("2"), 2));
    let mut database = Database::open(vec![(10, busy.clone())], 1000).unwrap();
    let first = Compaction::prepare(Log::from_file(10, busy.clone()).ok().unwrap(), 9).unwrap();
    let second = Compaction::prepare(Log::from_file(10, busy.clone()).ok().unwrap(), 9).unwrap();
    let stranger = Compaction::prepare(Log::from_file(5, busy).ok().unwrap(), 9).unwrap();
    assert!(database.replace_log(first));
    assert!(!database.replace_log(second));
    assert!(!database.replace_log(stranger));
    assert_eq!(ids(&database), vec![11]);
    assert_eq!(database.get("k"), value("2"));
}

#[test]
fn nothing_is_prepared_where_nothing_would_be_gained() {
    let mut log = Log::new_with_id(10);
    log.append_at("a", put("1"), 1).unwrap();
    assert!(Compaction::prepare(log, 9).is_none());
    let full = (1u128 << 80) - 1;
    let mut log = Log::new_with_id(full);
    log.append_at("a", put("1"), 1).unwrap();
    log.append_at("a", put("2"), 1).unwrap();
    assert!(Compaction::prepare(log, 9).is_none());
}

#[test]
fn segment_ids_stay_in_ascending_order() {
    let mut database = Database::open(vec![(50, Vec::new()), (20, Vec::new())], 40).unwrap();
    let sizes = |database: &Database| {
        (0..database.segment_count()).map(|i| database.segment(i).size()).collect::<Vec<u64>>()
    };
    let ascending = |database: &Database| ids(database).windows(2).all(|pair| pair[0] < pair[1]);
    assert!(ascending(&database));
    for i in 0..30u128 {
        database.set_at("k", &format!("value {i}"), 1, (i * 7) % 60).unwrap();
        database.set_at("k", &format!("other {i}"), 1, 0).unwrap();
        assert!(ascending(&database));
        let sizes = sizes(&database);
        let (tail, closed) = sizes.split_last().unwrap();
        assert!(*tail < 40);
        assert!(closed.iter().skip(1).all(|size| *size >= 40));
    }
    assert!(database.segment_count() > 10);
    database.compact_logs(2);
    assert!(ascending(&database));
    database.set("k", "last").unwrap();
    assert!(ascending(&database));
    assert_eq!(database.get("k"), value("last"));
}

#[test]
fn the_store_takes_what_any_series_of_writes_leaves() {
    let mut database = Database::open(Vec::new(), 200).unwrap();
    let mut model = std::collections::HashMap::new();
    let mut seed = 12345u32;
    for _ in 0..500 {
        seed = seed.wrapping_mul(1_103_515_245).wrapping_add(12_345);
        let key = format!("key{}", (seed >> 16) % 13);
        match (seed >> 8) % 4 {
            0 => {
                database.delete(&key).unwrap();
                model.remove(&key);
            }
            1 => {
                database.compact_logs(7);
            }
            _ => {
                let text = format!("value{seed}");
                database.set(&key, &text).unwrap();
                model.insert(key.clone(), text);
            }
        }
        assert_eq!(database.get(&key).unwrap(), model.get(&key).cloned());
    }
    let reopened = Database::open(images(&database), 200).unwrap();
    for i in 0..13 {
        let key = format!("key{i}");
        assert_eq!(database.get(&key).unwrap(), model.get(&key).cloned());
        assert_eq!(reopened.get(&key).unwrap(), model.get(&key).cloned());
    }
}

#[test]
fn a_lookup_reads_one_segment_through_a_keydir() {
    let mut log = Log::new_with_id(1);
    log.append_at("a", put("1"), 1).unwrap();
    log.append_at("b", put("2"), 2).unwrap();
    log.append_at("b", Operation::Delete, 3).unwrap();
    let index = Index::rebuild(&log.entries());
    assert_eq!(lookup(&log, &index, "a"), Ok(Lookup::Found("1".to_string())));
    assert_eq!(lookup(&log, &index, "b"), Ok(Lookup::Deleted));
    assert_eq!(lookup(&log, &index, "c"), Ok(Lookup::Absent));
}

#[test]
fn a_keydir_that_points_astray_is_an_inconsistency() {
    let mut log = Log::new_with_id(1);
    let a = log.append_at("a", put("1"), 1).unwrap();
    let b = log.append_at("b", Operation::Delete, 2).unwrap();
    let mut index = Index::new();
    index.insert("a", IndexEntry::Offset(a));
    assert_eq!(lookup(&log, &index, "a"), Ok(Lookup::Found("1".to_string())));
    // The offset of a record of another key.
    index.insert("x", IndexEntry::Offset(a));
    assert_eq!(lookup(&log, &index, "x"), Err(Error::IndexInconsistency));
    // The offset of a `Delete`.
    index.insert("b", IndexEntry::Offset(b));
    assert_eq!(lookup(&log, &index, "b"), Err(Error::IndexInconsistency));
    // An offset at which no record starts, within the log and beyond it.
    index.insert("a", IndexEntry::Offset(a + 1));
    assert_eq!(lookup(&log, &index, "a"), Err(Error::IndexInconsistency));
    index.insert("a", IndexEntry::Offset(log.size()));
    assert_eq!(lookup(&log, &index, "a"), Err(Error::IndexInconsistency));
    index.insert("a", IndexEntry::Offset(u64::MAX));
    assert_eq!(lookup(&log, &index, "a"), Err(Error::IndexInconsistency));
}

#[test]
fn a_store_started_on_its_own_files_is_the_same_store() {
    let mut database = Database::open(Vec::new(), 64).unwrap();
    for i in 0..25 {
        database.set(&format!("key{}", i % 6), &format!("value{i}")).unwrap();
    }
    database.delete("key2").unwrap();
    database.compact_logs(3);
    let mut files = database.files();
    assert_eq!(files.len(), database.segment_count());
    for (i, (name, bytes)) in files.iter().enumerate() {
        assert_eq!(name, &file_name(database.segment(i).id()));
        assert_eq!(&bytes[..], database.segment(i).as_bytes());
    }
    files.reverse();
    files.push(("notes.txt".to_string(), vec![1, 2, 3]));
    let started = Database::start(files).unwrap();
    assert_eq!(images(&started), images(&database));
    for i in 0..6 {
        assert_eq!(started.get(&format!("key{i}")), database.get(&format!("key{i}")));
    }
    assert_eq!(started.get("key2"), Ok(None));
    assert_eq!(started.get("key0"), value("value24"));
}
