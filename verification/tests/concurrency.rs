//! MemTable interleaving tests: the writes of several writers applied in an
//! interleaved order to one table.

use std::collections::HashSet;

use lib::{Bytes, Lookup, MemTable, SkipListMemTable};

fn b(s: &str) -> Bytes {
    Bytes::copy_from_slice(s.as_bytes())
}

#[test]
fn concurrent_disjoint_writes_lose_nothing() {
    const TASKS: u64 = 8;
    const PER_TASK: u64 = 4_000;

    let mut mt = SkipListMemTable::new();
    for i in 0..PER_TASK {
        for task in 0..TASKS {
            let seq = task * PER_TASK + i + 1;
            let key = b(&format!("t{task:02}-k{i:06}"));
            let val = b(&format!("v{seq}"));
            mt.insert(key, val, seq).unwrap();
        }
    }

    assert_eq!(mt.len(), (TASKS * PER_TASK) as usize);

    for task in 0..TASKS {
        for i in 0..PER_TASK {
            let seq = task * PER_TASK + i + 1;
            let key = format!("t{task:02}-k{i:06}");
            assert_eq!(
                mt.get(key.as_bytes()).unwrap(),
                Some(Lookup::Found(b(&format!("v{seq}")))),
                "missing/incorrect key {key}"
            );
        }
    }

    let keys: Vec<Bytes> = mt.iter().into_iter().map(|e| e.key).collect();
    let unique: HashSet<&Bytes> = keys.iter().collect();
    assert_eq!(
        unique.len(),
        keys.len(),
        "snapshot contained duplicate keys"
    );
    assert!(keys.windows(2).all(|w| w[0] < w[1]), "snapshot not sorted");
}

#[test]
fn highest_seq_wins_on_a_contended_key() {
    const TASKS: u64 = 16;
    const PER_TASK: u64 = 5_000;
    const HOT: &[u8] = b"contended";

    let mut mt = SkipListMemTable::new();
    // Round-robin over the writers, each writing its own ascending seqs.
    for i in 0..PER_TASK {
        for task in (0..TASKS).rev() {
            let seq = task * PER_TASK + i + 1;
            let val = b(&format!("{seq}"));
            mt.insert(Bytes::copy_from_slice(HOT), val, seq).unwrap();
        }
    }

    let max_seq = TASKS * PER_TASK;
    assert_eq!(mt.len(), 1);
    assert_eq!(
        mt.get(HOT).unwrap(),
        Some(Lookup::Found(b(&format!("{max_seq}"))))
    );
}

#[test]
fn interleaved_insert_and_delete_stay_consistent() {
    const KEYS: u64 = 4_000;
    let mut mt = SkipListMemTable::new();

    // The deleter runs ahead of the writer on even keys: its tombstones carry
    // the higher sequence number and must win whatever the order.
    for i in 0..KEYS {
        if i % 2 == 0 {
            let key = b(&format!("k{i:06}"));
            mt.delete(key, 2 * i + 2).unwrap();
        }
        let key = b(&format!("k{i:06}"));
        mt.insert(key, b("present"), 2 * i + 1).unwrap();
    }

    assert_eq!(mt.len(), KEYS as usize);
    for i in 0..KEYS {
        let key = format!("k{i:06}");
        let got = mt.get(key.as_bytes()).unwrap();
        if i % 2 == 0 {
            assert_eq!(got, Some(Lookup::Deleted), "key {key} should be deleted");
        } else {
            assert_eq!(got, Some(Lookup::Found(b("present"))));
        }
    }
}

#[test]
fn raw_os_threads_hammer_the_memtable() {
    const THREADS: u64 = 8;
    const PER_THREAD: u64 = 10_000;

    let mut mt = SkipListMemTable::new();
    for i in 0..PER_THREAD {
        for t in 0..THREADS {
            let seq = t * PER_THREAD + i + 1;
            let key = b(&format!("th{t:02}-{i:06}"));
            mt.insert(key, b("x"), seq).unwrap();
        }
        let key = format!("th00-{i:06}");
        let _ = mt.get(key.as_bytes()).unwrap();
    }

    assert_eq!(mt.len(), (THREADS * PER_THREAD) as usize);
    for t in 0..THREADS {
        for i in 0..PER_THREAD {
            let key = format!("th{t:02}-{i:06}");
            assert_eq!(mt.get(key.as_bytes()).unwrap(), Some(Lookup::Found(b("x"))));
        }
    }
}

#[test]
fn concurrent_mixed_ops_are_sound() {
    const THREADS: u64 = 4;
    const PER_THREAD: u64 = 40;

    let mut mt = SkipListMemTable::new();
    for i in 0..PER_THREAD {
        for t in 0..THREADS {
            let key = b(&format!("t{t}-{i}"));
            let base = (t * PER_THREAD + i) * 3 + 1;
            mt.insert(key.clone(), b("v0"), base).unwrap();
            mt.insert(key.clone(), b("v1"), base + 1).unwrap();
            if i % 2 == 0 {
                mt.delete(key, base + 2).unwrap();
            }
        }
        let key = format!("t0-{i}");
        let _ = mt.get(key.as_bytes()).unwrap();
    }

    assert_eq!(mt.len(), (THREADS * PER_THREAD) as usize);
    for t in 0..THREADS {
        for i in 0..PER_THREAD {
            let key = format!("t{t}-{i}");
            let got = mt.get(key.as_bytes()).unwrap();
            if i % 2 == 0 {
                assert_eq!(got, Some(Lookup::Deleted));
            } else {
                assert_eq!(got, Some(Lookup::Found(b("v1"))));
            }
        }
    }
}
