//! Error texts, the byte-string rendering of buffers, what a write-ahead log
//! appends, and the in-memory backend's reads and appends.

use lib::codec::crc32;
use lib::sst_format::decode_footer;
use lib::wal_record::{decode_record, encode_record, validate_header};
use lib::{
    Bytes, Error, Lookup, MemTable, MemoryBackend, SkipListMemTable, StorageBackend, WalOpKind,
    WalWriter,
};

fn corruption_text(e: Error) -> String {
    match e {
        Error::Corruption(m) => m,
        other => panic!("expected a corruption error, got {other:?}"),
    }
}

#[test]
fn unknown_wal_op_names_the_byte() {
    let mut payload = vec![7u8];
    payload.extend(1u64.to_le_bytes());
    payload.extend(0u32.to_le_bytes());
    payload.extend(0u32.to_le_bytes());
    let mut data = (payload.len() as u32).to_le_bytes().to_vec();
    data.extend(crc32(&payload).to_le_bytes());
    data.extend(&payload);
    let mut off = 0usize;
    let e = decode_record(&data, &mut off).unwrap_err();
    assert_eq!(corruption_text(e), "unknown wal op 7");
}

#[test]
fn unsupported_versions_name_the_version() {
    let e = validate_header(b"ALOG\xc8\x00\x00\x00").unwrap_err();
    assert_eq!(corruption_text(e), "unsupported wal version 200");
    let mut footer = vec![0u8; 40];
    footer[..4].copy_from_slice(b"SST1");
    footer[4] = 9;
    let e = decode_footer(&footer).unwrap_err();
    assert_eq!(corruption_text(e), "unsupported sstable version 9");
    let e = validate_header(b"ALOG\x02\x00\x00\x00").unwrap_err();
    assert_eq!(e.message(), "data corruption: unsupported wal version 2");
}

#[test]
fn offsets_past_the_address_range_are_an_integer_overflow() {
    let data = vec![0u8; 16];
    let mut off = usize::MAX - 2;
    let e = decode_record(&data, &mut off).unwrap_err();
    assert_eq!(corruption_text(e), "integer overflow");
    let mut off = 14usize;
    let e = decode_record(&data, &mut off).unwrap_err();
    assert_eq!(corruption_text(e), "truncated u32");
}

#[test]
fn bytes_render_as_an_escaped_byte_string() {
    let v = Bytes::copy_from_slice(b"a\"\\\x00~\x7f\xff ");
    assert_eq!(v.debug_string(), "b\"a\\\"\\\\\\x00~\\x7f\\xff \"");
    assert_eq!(Bytes::empty().debug_string(), "b\"\"");
}

#[test]
fn wal_writer_appends_the_header_once_then_records() {
    let mut w = WalWriter::new(MemoryBackend::from(Vec::new()));
    assert!(w.backend().snapshot().is_empty());
    assert_eq!(w.append_put(1, b"k", b"v").unwrap(), 8);
    let mut expected = b"ALOG\x01\x00\x00\x00".to_vec();
    expected.extend(encode_record(1, WalOpKind::Put, b"k", Some(b"v")));
    assert_eq!(expected.len(), 35);
    assert_eq!(w.backend().snapshot(), expected);
    assert_eq!(w.append_put(2, b"k", b"w").unwrap(), 35);
    expected.extend(encode_record(2, WalOpKind::Put, b"k", Some(b"w")));
    assert_eq!(w.backend().snapshot(), expected);
}

#[test]
fn memory_backend_from_a_vector_holds_it() {
    let b = MemoryBackend::from(vec![1u8, 2, 3]);
    assert_eq!(b.read_at(1, 2).unwrap(), Bytes::from(vec![2u8, 3]));
    assert_eq!(b.read_at(3, 0).unwrap(), Bytes::from(Vec::new()));
    for (offset, len) in [(2u64, 2usize), (u64::MAX, 1)] {
        match b.read_at(offset, len) {
            Err(Error::Io(e)) => assert_eq!(e.kind(), std::io::ErrorKind::UnexpectedEof),
            other => panic!("expected an i/o error, got {other:?}"),
        }
    }
    assert_eq!(b.snapshot(), vec![1u8, 2, 3]);

    let mut b = MemoryBackend::from(vec![1u8, 2]);
    assert_eq!(b.append(&[3, 4]).unwrap(), 2);
    assert_eq!(b.snapshot(), vec![1u8, 2, 3, 4]);
    assert_eq!(b.len().unwrap(), 4);
}

#[test]
fn successive_appends_concatenate() {
    let mut b = MemoryBackend::from(b"ab".to_vec());
    let chunks: [&[u8]; 4] = [b"c", b"", b"def", b"g"];
    let mut offsets = Vec::new();
    for c in chunks {
        offsets.push(b.append(c).unwrap());
    }
    assert_eq!(offsets, vec![2, 3, 3, 6]);
    assert_eq!(b.snapshot(), b"abcdefg".to_vec());
}

#[test]
fn a_history_of_writes_keeps_every_key_and_the_highest_seq() {
    let mut m = SkipListMemTable::new();
    // Arrival order differs from sequence order; a delete with a higher
    // sequence number lands before an older insert of the same key.
    m.delete(Bytes::copy_from_slice(b"x"), 9).unwrap();
    m.insert(Bytes::copy_from_slice(b"x"), Bytes::copy_from_slice(b"old"), 4).unwrap();
    m.insert(Bytes::copy_from_slice(b"y"), Bytes::copy_from_slice(b"3"), 3).unwrap();
    m.insert(Bytes::copy_from_slice(b"y"), Bytes::copy_from_slice(b"7"), 7).unwrap();
    m.insert(Bytes::copy_from_slice(b"y"), Bytes::copy_from_slice(b"5"), 5).unwrap();
    m.insert(Bytes::copy_from_slice(b"z"), Bytes::copy_from_slice(b"a"), 2).unwrap();
    m.insert(Bytes::copy_from_slice(b"z"), Bytes::copy_from_slice(b"b"), 2).unwrap();
    assert_eq!(m.len(), 3);
    assert_eq!(m.get(b"x").unwrap(), Some(Lookup::Deleted));
    assert_eq!(m.get(b"y").unwrap(), Some(Lookup::Found(Bytes::copy_from_slice(b"7"))));
    assert_eq!(m.get(b"z").unwrap(), Some(Lookup::Found(Bytes::copy_from_slice(b"b"))));
    assert_eq!(m.get(b"w").unwrap(), None);
}

#[test]
fn records_read_back_by_kind_whatever_value_was_given() {
    let mut data = encode_record(4, WalOpKind::Delete, b"k", Some(b"ignored"));
    let first = data.len();
    data.extend(encode_record(5, WalOpKind::Put, b"k", None));
    let mut off = 0usize;
    let r = decode_record(&data, &mut off).unwrap();
    assert_eq!(off, first);
    assert_eq!((r.seq, r.kind, r.key.as_slice(), r.value.clone()), (4, WalOpKind::Delete, &b"k"[..], None));
    let r = decode_record(&data, &mut off).unwrap();
    assert_eq!(off, data.len());
    assert_eq!(r.kind, WalOpKind::Put);
    assert_eq!(r.value, Some(Bytes::empty()));
}

#[test]
fn sync_leaves_the_contents_as_they_were() {
    let mut b = MemoryBackend::new();
    b.append(b"abc").unwrap();
    b.sync().unwrap();
    b.append(b"d").unwrap();
    b.sync().unwrap();
    assert_eq!(b.snapshot(), b"abcd".to_vec());
    let mut w = WalWriter::new(b);
    w.append_delete(1, b"k").unwrap();
    let before = w.backend().snapshot();
    w.sync().unwrap();
    assert_eq!(w.backend().snapshot(), before);
}
