//! MemTable correctness tests.

use lib::{Bytes, Lookup, MemTable, MemtableEntry, SkipListMemTable, ValueEntry};

fn b(s: &str) -> Bytes {
    Bytes::copy_from_slice(s.as_bytes())
}

#[test]
fn insert_then_get_roundtrips() {
    let mut mt = SkipListMemTable::new();
    mt.insert(b("alpha"), b("one"), 1).unwrap();

    assert_eq!(mt.get(b"alpha").unwrap(), Some(Lookup::Found(b("one"))));
    assert_eq!(mt.get(b"missing").unwrap(), None);
}

#[test]
fn higher_seq_overwrites_lower() {
    let mut mt = SkipListMemTable::new();
    mt.insert(b("k"), b("v1"), 1).unwrap();
    mt.insert(b("k"), b("v2"), 2).unwrap();

    assert_eq!(mt.get(b"k").unwrap(), Some(Lookup::Found(b("v2"))));
    assert_eq!(mt.len(), 1);
}

#[test]
fn stale_seq_is_rejected() {
    let mut mt = SkipListMemTable::new();
    mt.insert(b("k"), b("new"), 5).unwrap();
    mt.insert(b("k"), b("old"), 3).unwrap();

    assert_eq!(mt.get(b"k").unwrap(), Some(Lookup::Found(b("new"))));
}

#[test]
fn delete_writes_a_distinguishable_tombstone() {
    let mut mt = SkipListMemTable::new();
    mt.insert(b("k"), b("v"), 1).unwrap();
    mt.delete(b("k"), 2).unwrap();

    assert_eq!(mt.get(b"k").unwrap(), Some(Lookup::Deleted));
    assert_eq!(mt.get(b"never-written").unwrap(), None);
    assert_eq!(mt.len(), 1);
}

#[test]
fn iter_yields_latest_values_in_sorted_order() {
    let mut mt = SkipListMemTable::new();
    mt.insert(b("banana"), b("b1"), 1).unwrap();
    mt.insert(b("apple"), b("a1"), 2).unwrap();
    mt.insert(b("cherry"), b("c1"), 3).unwrap();
    mt.insert(b("banana"), b("b2"), 4).unwrap();
    mt.delete(b("apple"), 5).unwrap();

    let entries: Vec<_> = mt.iter();
    assert_eq!(
        entries,
        vec![
            MemtableEntry {
                key: b("apple"),
                entry: ValueEntry::Tombstone,
                seq: 5,
            },
            MemtableEntry {
                key: b("banana"),
                entry: ValueEntry::Value(b("b2")),
                seq: 4,
            },
            MemtableEntry {
                key: b("cherry"),
                entry: ValueEntry::Value(b("c1")),
                seq: 3,
            },
        ]
    );
}

#[test]
fn counters_track_keys_and_bytes() {
    let mut mt = SkipListMemTable::new();
    assert!(mt.is_empty());
    assert_eq!(mt.approximate_size(), 0);

    mt.insert(b("k"), b("v"), 1).unwrap();
    assert_eq!(mt.len(), 1);
    assert_eq!(mt.approximate_size(), 2);

    mt.insert(b("k"), b("vv"), 2).unwrap();
    assert_eq!(mt.len(), 1);
    assert_eq!(mt.approximate_size(), 3);

    mt.delete(b("k"), 3).unwrap();
    assert_eq!(mt.len(), 1);
    assert_eq!(mt.approximate_size(), 1);
}

#[test]
fn many_distinct_keys_are_all_retrievable() {
    let mut mt = SkipListMemTable::new();
    const N: u64 = 5_000;

    for i in 0..N {
        let key = b(&format!("key-{i:08}"));
        let val = b(&format!("val-{i}"));
        mt.insert(key, val, i + 1).unwrap();
    }

    assert_eq!(mt.len(), N as usize);

    for i in 0..N {
        let key = format!("key-{i:08}");
        assert_eq!(
            mt.get(key.as_bytes()).unwrap(),
            Some(Lookup::Found(b(&format!("val-{i}"))))
        );
    }

    let keys: Vec<Bytes> = mt.iter().into_iter().map(|e| e.key).collect();
    let mut sorted = keys.clone();
    sorted.sort();
    assert_eq!(keys, sorted);
    assert_eq!(keys.len(), N as usize);
}
