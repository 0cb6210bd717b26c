//! Checks on concrete values of what the library's contracts and laws state.

use lib::codec::crc32;
use lib::{
    Bytes, Error, FOOTER_SIZE, Lookup, MemTable, MemoryBackend, MemtableEntry, SkipListMemTable,
    SsTableId, SsTableReader, SsTableWriter, StorageBackend, ValueEntry, WalOpKind, WalReader,
    WalWriter, flush_memtable,
};

fn b(s: &str) -> Bytes {
    Bytes::copy_from_slice(s.as_bytes())
}

fn le32(v: u32) -> Vec<u8> {
    v.to_le_bytes().to_vec()
}

fn le64(v: u64) -> Vec<u8> {
    v.to_le_bytes().to_vec()
}

#[test]
fn crc32_matches_the_ieee_check_values() {
    assert_eq!(crc32(b""), 0);
    assert_eq!(crc32(b"a"), 0xE8B7_BE43);
    assert_eq!(crc32(b"123456789"), 0xCBF4_3926);
}

#[test]
fn bytes_accessors() {
    let x = b("abc");
    assert_eq!(x.as_slice(), b"abc");
    assert_eq!(x.len(), 3);
    assert!(!x.is_empty());
    assert!(Bytes::empty().is_empty());
    assert_eq!(Bytes::from(b"abc".to_vec()), x);
    assert_eq!(x.duplicate(), x);
}

#[test]
fn value_entry_and_lookup_accessors() {
    let v = ValueEntry::Value(b("v"));
    assert!(!v.is_tombstone());
    assert_eq!(v.value(), Some(&b("v")));
    assert!(ValueEntry::Tombstone.is_tombstone());
    assert_eq!(ValueEntry::Tombstone.value(), None);
    assert_eq!(Lookup::from(v), Lookup::Found(b("v")));
    assert_eq!(Lookup::from(ValueEntry::Tombstone), Lookup::Deleted);
    assert_eq!(Lookup::Found(b("v")).into_value(), Some(b("v")));
    assert_eq!(Lookup::Deleted.into_value(), None);
}

#[test]
fn error_messages_name_the_kind() {
    assert_eq!(Error::Closed.message(), "engine component is closed");
    assert_eq!(
        Error::Corruption("bad".to_string()).message(),
        "data corruption: bad"
    );
    assert_eq!(
        Error::InvalidArgument("x".to_string()).message(),
        "invalid argument: x"
    );
    assert_eq!(Error::Other("plain".to_string()).message(), "plain");
    let io = Error::from(std::io::Error::new(std::io::ErrorKind::Other, "disk"));
    assert!(matches!(io, Error::Io(_)));
    assert_eq!(io.message(), "i/o error: disk");
}

#[test]
fn memory_backend_reads_back_what_was_appended() {
    let mut m = MemoryBackend::new();
    assert!(m.is_empty().unwrap());
    assert_eq!(m.append(b"hello").unwrap(), 0);
    assert_eq!(m.append(b" world").unwrap(), 5);
    assert_eq!(m.len().unwrap(), 11);
    assert!(!m.is_empty().unwrap());
    assert_eq!(m.read_at(6, 5).unwrap(), b("world"));
    assert_eq!(m.read_at(11, 0).unwrap(), Bytes::empty());
    assert!(matches!(m.read_at(7, 5), Err(Error::Io(_))));
    assert!(matches!(m.read_at(u64::MAX, 1), Err(Error::Io(_))));
    assert_eq!(m.snapshot(), b"hello world".to_vec());
    m.sync().unwrap();
    let from = MemoryBackend::from(b"abc".to_vec());
    assert_eq!(from.snapshot(), b"abc".to_vec());
}

#[test]
fn memtable_last_writer_wins_in_any_order() {
    let mut up = SkipListMemTable::new();
    up.insert(b("k"), b("one"), 1).unwrap();
    up.insert(b("k"), b("two"), 2).unwrap();
    let mut down = SkipListMemTable::new();
    down.insert(b("k"), b("two"), 2).unwrap();
    down.insert(b("k"), b("one"), 1).unwrap();
    assert_eq!(up.iter(), down.iter());
    assert_eq!(up.get(b"k").unwrap(), Some(Lookup::Found(b("two"))));
    // An equal sequence number overwrites.
    up.insert(b("k"), b("three"), 2).unwrap();
    assert_eq!(up.get(b"k").unwrap(), Some(Lookup::Found(b("three"))));
}

#[test]
fn memtable_delete_of_unknown_key_is_a_tombstone() {
    let mut mt = SkipListMemTable::default();
    assert!(mt.is_empty());
    mt.delete(b("ghost"), 7).unwrap();
    assert_eq!(mt.get(b"ghost").unwrap(), Some(Lookup::Deleted));
    assert_eq!(mt.len(), 1);
    assert_eq!(mt.approximate_size(), 5);
    assert_eq!(
        mt.iter(),
        vec![MemtableEntry {
            key: b("ghost"),
            entry: ValueEntry::Tombstone,
            seq: 7
        }]
    );
}

#[test]
fn memtable_orders_keys_bytewise() {
    let mut mt = SkipListMemTable::new();
    for (i, k) in ["b", "ab", "a", "", "ba", "\u{7f}", "aa"].iter().enumerate() {
        mt.insert(b(k), b("v"), i as u64).unwrap();
    }
    let keys: Vec<Vec<u8>> = mt
        .iter()
        .into_iter()
        .map(|e| e.key.as_slice().to_vec())
        .collect();
    let expected: Vec<Vec<u8>> = ["", "a", "aa", "ab", "b", "ba", "\u{7f}"]
        .iter()
        .map(|k| k.as_bytes().to_vec())
        .collect();
    assert_eq!(keys, expected);
}

#[test]
fn wal_bytes_are_header_then_framed_records() {
    let mut w = WalWriter::new(MemoryBackend::new());
    assert_eq!(w.append_put(1, b"k", b"v").unwrap(), 8);
    let mut payload = vec![0u8];
    payload.extend(le64(1));
    payload.extend(le32(1));
    payload.extend(b"k");
    payload.extend(le32(1));
    payload.extend(b"v");
    let mut expected = b"ALOG\x01\x00\x00\x00".to_vec();
    expected.extend(le32(payload.len() as u32));
    expected.extend(le32(crc32(&payload)));
    expected.extend(&payload);
    assert_eq!(w.backend().snapshot(), expected);

    let second = w.append_delete(2, b"k").unwrap();
    assert_eq!(second, expected.len() as u64);
    let records = WalReader::new(w.into_backend()).replay().unwrap();
    assert_eq!(records.len(), 2);
    assert_eq!(records[1].seq, 2);
    assert_eq!(records[1].kind, WalOpKind::Delete);
    assert_eq!(records[1].key, b("k"));
    assert_eq!(records[1].value, None);
}

#[test]
fn wal_replay_of_an_empty_store_is_empty() {
    let records = WalReader::new(MemoryBackend::new()).replay().unwrap();
    assert!(records.is_empty());
    let mut w = WalWriter::new(MemoryBackend::new());
    w.sync().unwrap();
    assert!(WalReader::new(w.into_backend()).replay().unwrap().is_empty());
}

#[test]
fn wal_replay_rejects_damaged_logs() {
    let mut w = WalWriter::new(MemoryBackend::new());
    w.append_put(1, b"alpha", b"one").unwrap();
    let good = w.into_backend().snapshot();

    // A flipped payload byte fails the checksum.
    let mut bad = good.clone();
    let last = bad.len() - 1;
    bad[last] ^= 0xFF;
    let r = WalReader::new(MemoryBackend::from(bad)).replay();
    assert!(matches!(r, Err(Error::Corruption(_))));

    // A wrong magic.
    let mut bad = good.clone();
    bad[0] = b'X';
    assert!(matches!(
        WalReader::new(MemoryBackend::from(bad)).replay(),
        Err(Error::Corruption(_))
    ));

    // A wrong version.
    let mut bad = good.clone();
    bad[4] = 2;
    assert!(matches!(
        WalReader::new(MemoryBackend::from(bad)).replay(),
        Err(Error::Corruption(_))
    ));

    // A header cut short.
    assert!(matches!(
        WalReader::new(MemoryBackend::from(b"ALOG".to_vec())).replay(),
        Err(Error::Corruption(_))
    ));

    // A truncated record.
    let mut bad = good.clone();
    bad.truncate(good.len() - 2);
    assert!(matches!(
        WalReader::new(MemoryBackend::from(bad)).replay(),
        Err(Error::Corruption(_))
    ));

    // An unknown operation byte with a valid checksum.
    let mut payload = vec![7u8];
    payload.extend(le64(1));
    payload.extend(le32(0));
    payload.extend(le32(0));
    let mut bad = b"ALOG\x01\x00\x00\x00".to_vec();
    bad.extend(le32(payload.len() as u32));
    bad.extend(le32(crc32(&payload)));
    bad.extend(&payload);
    assert!(matches!(
        WalReader::new(MemoryBackend::from(bad)).replay(),
        Err(Error::Corruption(_))
    ));
}

fn three_entries() -> Vec<MemtableEntry> {
    vec![
        MemtableEntry {
            key: b("a"),
            entry: ValueEntry::Value(b("1")),
            seq: 1,
        },
        MemtableEntry {
            key: b("b"),
            entry: ValueEntry::Tombstone,
            seq: 2,
        },
        MemtableEntry {
            key: b("c"),
            entry: ValueEntry::Value(b("3")),
            seq: 3,
        },
    ]
}

#[test]
fn sstable_footer_and_meta_describe_the_file() {
    let mut writer = SsTableWriter::new(MemoryBackend::new());
    let meta = writer.write(SsTableId(9), 2, three_entries()).unwrap();
    let backend = writer.into_backend();
    let file = backend.snapshot();
    assert_eq!(meta.id, SsTableId(9));
    assert_eq!(meta.level, 2);
    assert_eq!(meta.size_bytes, file.len() as u64);

    let footer_bytes = &file[file.len() - FOOTER_SIZE..];
    assert_eq!(&footer_bytes[..8], b"SST1\x01\x00\x00\x00");
    assert_eq!(&footer_bytes[36..], &[0, 0, 0, 0]);

    let reader = SsTableReader::open(&backend).unwrap();
    let footer = reader.footer();
    assert_eq!(footer.data_offset, 0);
    assert_eq!(footer.entry_count, 3);
    assert_eq!(
        footer.body_crc,
        crc32(&file[..file.len() - FOOTER_SIZE])
    );
    // Data entry for "a": len-prefixed key, seq, flag, len-prefixed value.
    let mut first = le32(1);
    first.extend(b"a");
    first.extend(le64(1));
    first.push(0);
    first.extend(le32(1));
    first.extend(b"1");
    assert_eq!(&file[..first.len()], &first[..]);
    assert_eq!(reader.smallest_key(), Some(&b("a")));
    assert_eq!(reader.largest_key(), Some(&b("c")));
    assert!(!reader.is_empty());
    assert_eq!(reader.iter(), three_entries());
}

#[test]
fn empty_sstable_reads_back_empty() {
    let mut writer = SsTableWriter::new(MemoryBackend::new());
    let meta = writer.write(SsTableId(1), 0, Vec::new()).unwrap();
    assert_eq!(meta.entry_count, 0);
    assert!(meta.smallest_key.is_empty());
    assert!(meta.largest_key.is_empty());
    let backend = writer.into_backend();
    let reader = SsTableReader::open(&backend).unwrap();
    assert!(reader.is_empty());
    assert_eq!(reader.smallest_key(), None);
    assert_eq!(reader.largest_key(), None);
    assert_eq!(reader.get(b"a").unwrap(), None);
}

#[test]
fn sstable_open_rejects_damaged_files() {
    let mut writer = SsTableWriter::new(MemoryBackend::new());
    writer.write(SsTableId(1), 0, three_entries()).unwrap();
    let good = writer.into_backend().snapshot();

    let open = |bytes: Vec<u8>| SsTableReader::open(&MemoryBackend::from(bytes));

    assert!(matches!(open(good[..10].to_vec()), Err(Error::Corruption(_))));

    let mut bad = good.clone();
    let n = bad.len();
    bad[n - FOOTER_SIZE] = b'X';
    assert!(matches!(open(bad), Err(Error::Corruption(_))));

    let mut bad = good.clone();
    bad[n - FOOTER_SIZE + 4] = 9;
    assert!(matches!(open(bad), Err(Error::Corruption(_))));

    let mut bad = good.clone();
    bad[0] ^= 0xFF;
    assert!(matches!(open(bad), Err(Error::Corruption(_))));
}

#[test]
fn sstable_open_rejects_an_offset_that_holds_no_entry() {
    // A table whose single index entry points past its data section, with
    // every checksum and count right.
    let mut data = le32(1);
    data.extend(b"k");
    data.extend(le64(1));
    data.push(0);
    data.extend(le32(0));
    let mut index = le32(1);
    index.extend(le32(1));
    index.extend(b"k");
    index.extend(le64(1000));
    let mut body = data.clone();
    body.extend(&index);
    let mut file = body.clone();
    file.extend(b"SST1\x01\x00\x00\x00");
    file.extend(le64(0));
    file.extend(le64(data.len() as u64));
    file.extend(le64(1));
    file.extend(le32(crc32(&body)));
    file.extend([0, 0, 0, 0]);
    assert!(matches!(
        SsTableReader::open(&MemoryBackend::from(file)),
        Err(Error::Corruption(_))
    ));
}

#[test]
fn flushed_table_answers_like_the_memtable() {
    let mut mt = SkipListMemTable::new();
    for i in 0..200u64 {
        let key = b(&format!("key-{:03}", (i * 37) % 200));
        if i % 5 == 0 {
            mt.delete(key, i + 1).unwrap();
        } else {
            mt.insert(key, b(&format!("v{i}")), i + 1).unwrap();
        }
    }
    let mut backend = MemoryBackend::new();
    let meta = flush_memtable(&mt, &mut backend, SsTableId(3), 1).unwrap();
    assert_eq!(meta.entry_count, mt.len() as u64);
    let reader = SsTableReader::open(&backend).unwrap();
    for i in 0..210u64 {
        let key = format!("key-{i:03}");
        assert_eq!(reader.get(key.as_bytes()).unwrap(), mt.get(key.as_bytes()).unwrap());
    }
    assert_eq!(reader.iter(), mt.iter());
}
