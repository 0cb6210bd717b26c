//! Storage integration tests.

use lib::{
    Bytes, Lookup, MemTable, MemoryBackend, MemtableEntry, SkipListMemTable, SsTableId,
    SsTableReader, SsTableWriter, ValueEntry, WalOpKind, WalReader, WalWriter, flush_memtable,
};

fn b(s: &str) -> Bytes {
    Bytes::copy_from_slice(s.as_bytes())
}

#[test]
fn wal_roundtrip_on_memory_backend() {
    let mut writer = WalWriter::new(MemoryBackend::new());

    writer.append_put(1, b"alpha", b"one").unwrap();
    writer.append_put(2, b"beta", b"two").unwrap();
    writer.append_delete(3, b"alpha").unwrap();
    writer.sync().unwrap();

    let records = WalReader::new(writer.into_backend()).replay().unwrap();
    assert_eq!(records.len(), 3);
    assert_eq!(records[0].kind, WalOpKind::Put);
    assert_eq!(records[0].key.as_slice(), b"alpha");
    assert_eq!(
        records[0].value.as_ref().map(Bytes::as_slice),
        Some(b"one".as_ref())
    );
    assert_eq!(records[2].kind, WalOpKind::Delete);
    assert!(records[2].value.is_none());
}

#[test]
fn sstable_write_read_roundtrip() {
    let entries = vec![
        MemtableEntry {
            key: b("a"),
            entry: ValueEntry::Value(b("1")),
            seq: 1,
        },
        MemtableEntry {
            key: b("b"),
            entry: ValueEntry::Tombstone,
            seq: 2,
        },
        MemtableEntry {
            key: b("c"),
            entry: ValueEntry::Value(b("3")),
            seq: 3,
        },
    ];

    let mut writer = SsTableWriter::new(MemoryBackend::new());
    let meta = writer.write(SsTableId(7), 0, entries).unwrap();
    assert_eq!(meta.entry_count, 3);
    assert_eq!(meta.smallest_key.as_slice(), b"a");
    assert_eq!(meta.largest_key.as_slice(), b"c");

    let backend = writer.into_backend();
    let reader = SsTableReader::open(&backend).unwrap();
    assert_eq!(reader.len(), 3);
    assert_eq!(reader.get(b"a").unwrap(), Some(Lookup::Found(b("1"))));
    assert_eq!(reader.get(b"b").unwrap(), Some(Lookup::Deleted));
    assert_eq!(reader.get(b"missing").unwrap(), None);

    let keys: Vec<_> = reader.iter().into_iter().map(|e| e.key).collect();
    assert_eq!(keys, vec![b("a"), b("b"), b("c")]);
}

#[test]
fn flush_memtable_produces_readable_sstable() {
    let mut backend = MemoryBackend::new();
    let mut mt = SkipListMemTable::new();
    mt.insert(b("agent:1"), b("state-a"), 10).unwrap();
    mt.insert(b("agent:2"), b("state-b"), 11).unwrap();
    mt.delete(b("agent:1"), 12).unwrap();

    flush_memtable(&mt, &mut backend, SsTableId(1), 0).unwrap();

    let reader = SsTableReader::open(&backend).unwrap();
    assert_eq!(reader.get(b"agent:1").unwrap(), Some(Lookup::Deleted));
    assert_eq!(
        reader.get(b"agent:2").unwrap(),
        Some(Lookup::Found(b("state-b")))
    );
}

#[test]
fn wal_replay_recovers_memtable_state() {
    let mut wal = WalWriter::new(MemoryBackend::new());
    wal.append_put(1, b"x", b"1").unwrap();
    wal.append_put(2, b"y", b"2").unwrap();
    wal.append_delete(3, b"x").unwrap();
    wal.sync().unwrap();

    let mut mt = SkipListMemTable::new();
    for rec in WalReader::new(wal.into_backend()).replay().unwrap() {
        match rec.kind {
            WalOpKind::Put => {
                let value = rec.value.expect("put has value");
                mt.insert(rec.key, value, rec.seq).unwrap();
            }
            WalOpKind::Delete => {
                mt.delete(rec.key, rec.seq).unwrap();
            }
        }
    }

    assert_eq!(mt.get(b"x").unwrap(), Some(Lookup::Deleted));
    assert_eq!(mt.get(b"y").unwrap(), Some(Lookup::Found(b("2"))));
}
