//! The write-ahead-log file format.
//!
//! A log file is an 8-byte header (`ALOG`, version 1, three zero bytes)
//! followed by records. A record is the payload length (`u32`), the payload's
//! CRC-32 (`u32`) and the payload: the operation byte (0 put, 1 delete), the
//! sequence number (`u64`), the length-prefixed key and the length-prefixed
//! value (empty for a delete). Integers are little-endian.
use vstd::prelude::*;
use crate::codec::{
    crc32, parse_prefixed, parse_u32, parse_u64, prefixed, put_bytes, put_u32, put_u64, spec_crc32,
    u32_le, u64_le, len_tag, extend, read_bytes, read_len_prefixed, read_u32, read_u64,
};
use crate::error::{Error, corruption, corruption_with_number};
use crate::types::{Bytes, SeqNum};

verus! {

/// First byte of the log magic `ALOG`.
pub const WAL_MAGIC_0: u8 = 0x41;

/// Second byte of the log magic `ALOG`.
pub const WAL_MAGIC_1: u8 = 0x4C;

/// Third byte of the log magic `ALOG`.
pub const WAL_MAGIC_2: u8 = 0x4F;

/// Fourth byte of the log magic `ALOG`.
pub const WAL_MAGIC_3: u8 = 0x47;

/// Log format version.
pub const WAL_VERSION: u8 = 1;

/// Size of the log header in bytes.
pub const WAL_HEADER_SIZE: usize = 8;

/// WAL mutation kind.
#[derive(Clone, Copy, Debug, PartialEq, Eq)]
pub enum WalOpKind {
    /// Put.
    Put,
    /// Delete.
    Delete,
}

/// Decoded WAL record.
#[derive(Clone, Debug, PartialEq, Eq)]
pub struct WalRecord {
    /// Sequence number.
    pub seq: SeqNum,
    /// Mutation kind.
    pub kind: WalOpKind,
    /// User key.
    pub key: Bytes,
    /// Value, if any.
    pub value: Option<Bytes>,
}

/// The mathematical content of a log record.
pub struct WalRecordView {
    /// Sequence number.
    pub seq: u64,
    /// Mutation kind.
    pub kind: WalOpKind,
    /// User key.
    pub key: Seq<u8>,
    /// Value, if any.
    pub value: Option<Seq<u8>>,
}

impl View for WalRecord {
    type V = WalRecordView;

    open spec fn view(&self) -> WalRecordView {
        WalRecordView {
            seq: self.seq,
            kind: self.kind,
            key: self.key@,
            value: match self.value {
                Some(v) => Some(v@),
                None => None,
            },
        }
    }
}

/// The log header.
pub open spec fn wal_header_bytes() -> Seq<u8> {
    seq![WAL_MAGIC_0, WAL_MAGIC_1, WAL_MAGIC_2, WAL_MAGIC_3, WAL_VERSION, 0u8, 0u8, 0u8]
}

/// The operation byte of a kind.
pub open spec fn kind_byte(kind: WalOpKind) -> u8 {
    match kind {
        WalOpKind::Put => 0,
        WalOpKind::Delete => 1,
    }
}

/// The payload of a record.
pub open spec fn record_payload(seq: u64, kind: WalOpKind, key: Seq<u8>, value: Option<Seq<u8>>) -> Seq<u8> {
    seq![kind_byte(kind)] + u64_le(seq) + prefixed(key) + prefixed(
        match value {
            Some(v) => v,
            None => Seq::empty(),
        },
    )
}

/// The bytes of a record: payload length, payload CRC-32, payload.
pub open spec fn record_bytes(seq: u64, kind: WalOpKind, key: Seq<u8>, value: Option<Seq<u8>>) -> Seq<u8> {
    let payload = record_payload(seq, kind, key, value);
    u32_le(len_tag(payload.len())) + u32_le(spec_crc32(payload)) + payload
}

/// The bytes of a record view.
pub open spec fn record_view_bytes(r: WalRecordView) -> Seq<u8> {
    record_bytes(r.seq, r.kind, r.key, r.value)
}

/// The bytes of a sequence of records, one after another.
pub open spec fn records_bytes(rs: Seq<WalRecordView>) -> Seq<u8>
    decreases rs.len(),
{
    if rs.len() == 0 {
        Seq::empty()
    } else {
        records_bytes(rs.drop_last()) + record_view_bytes(rs.last())
    }
}

/// The record described by a payload: the operation byte must be 0 or 1 and
/// the payload must end exactly after the value. A delete carries no value.
pub open spec fn parse_payload(p: Seq<u8>) -> Option<WalRecordView> {
    if p.len() < 1 || p[0] > 1 {
        None
    } else {
        let kind = if p[0] == 0 {
            WalOpKind::Put
        } else {
            WalOpKind::Delete
        };
        match parse_u64(p, 1) {
            None => None,
            Some((seq, o1)) => match parse_prefixed(p, o1) {
                None => None,
                Some((key, o2)) => match parse_prefixed(p, o2) {
                    None => None,
                    Some((value, o3)) => if o3 != p.len() {
                        None
                    } else {
                        Some(
                            WalRecordView {
                                seq,
                                kind,
                                key,
                                value: if kind == WalOpKind::Delete {
                                    None
                                } else {
                                    Some(value)
                                },
                            },
                        )
                    },
                },
            },
        }
    }
}

/// The record at `off`, and the offset after it: the stored CRC-32 must match
/// the payload's.
pub open spec fn parse_record(data: Seq<u8>, off: int) -> Option<(WalRecordView, int)> {
    match parse_u32(data, off) {
        None => None,
        Some((plen, o1)) => match parse_u32(data, o1) {
            None => None,
            Some((crc, o2)) => if o2 + plen > data.len() {
                None
            } else {
                let payload = data.subrange(o2, o2 + plen);
                if spec_crc32(payload) != crc {
                    None
                } else {
                    match parse_payload(payload) {
                        None => None,
                        Some(r) => Some((r, o2 + plen)),
                    }
                }
            },
        },
    }
}

/// The records from `off` to the end of `data`.
pub open spec fn parse_records(data: Seq<u8>, off: int) -> Option<Seq<WalRecordView>>
    decreases data.len() - off,
{
    if off < 0 || off >= data.len() {
        Some(Seq::empty())
    } else {
        match parse_record(data, off) {
            None => None,
            Some((r, next)) => match parse_records(data, next) {
                None => None,
                Some(rs) => Some(seq![r] + rs),
            },
        }
    }
}

/// Whether `data` starts with a valid log header.
pub open spec fn header_ok(data: Seq<u8>) -> bool {
    &&& data.len() >= WAL_HEADER_SIZE
    &&& data.subrange(0, 4) == wal_header_bytes().subrange(0, 4)
    &&& data[4] == WAL_VERSION
}

/// The records of a log file; an empty file holds none.
pub open spec fn parse_wal(data: Seq<u8>) -> Option<Seq<WalRecordView>> {
    if data.len() == 0 {
        Some(Seq::empty())
    } else if !header_ok(data) {
        None
    } else {
        parse_records(data, WAL_HEADER_SIZE as int)
    }
}

/// The log header.
pub fn wal_header() -> (h: Vec<u8>)
    ensures
        h@ == wal_header_bytes(),
{
    let mut h: Vec<u8> = Vec::new();
    h.push(WAL_MAGIC_0);
    h.push(WAL_MAGIC_1);
    h.push(WAL_MAGIC_2);
    h.push(WAL_MAGIC_3);
    h.push(WAL_VERSION);
    h.push(0);
    h.push(0);
    h.push(0);
    assert(h@ =~= wal_header_bytes());
    h
}

/// Encodes a record; a missing value is written as an empty one.
pub fn encode_record(seq: SeqNum, kind: WalOpKind, key: &[u8], value: Option<&[u8]>) -> (out: Vec<u8>)
    ensures
        out@ == record_bytes(
            seq,
            kind,
            key@,
            match value {
                Some(v) => Some(v@),
                None => None,
            },
        ),
{
    let mut payload: Vec<u8> = Vec::new();
    payload.push(
        match kind {
            WalOpKind::Put => 0u8,
            WalOpKind::Delete => 1u8,
        },
    );
    put_u64(&mut payload, seq);
    put_bytes(&mut payload, key);
    match value {
        Some(v) => put_bytes(&mut payload, v),
        None => {
            let empty: Vec<u8> = Vec::new();
            put_bytes(&mut payload, empty.as_slice());
        },
    }
    let ghost vopt = match value {
        Some(v) => Some(v@),
        None => None::<Seq<u8>>,
    };
    proof {
        let expected = record_payload(seq, kind, key@, vopt);
        assert(payload@ =~= expected);
    }
    let n = payload.len();
    let tag: u32 = if n <= 0xFFFF_FFFFusize {
        n as u32
    } else {
        0xFFFF_FFFFu32
    };
    let mut out: Vec<u8> = Vec::new();
    put_u32(&mut out, tag);
    put_u32(&mut out, crc32(payload.as_slice()));
    extend(&mut out, payload.as_slice());
    proof {
        assert(out@ =~= record_bytes(seq, kind, key@, vopt));
    }
    out
}

/// Decodes the record at `*offset` and advances past it.
pub fn decode_record(data: &[u8], offset: &mut usize) -> (r: Result<WalRecord, Error>)
    ensures
        match r {
            Ok(rec) => parse_record(data@, *old(offset) as int) == Some(
                (rec@, *final(offset) as int),
            ),
            Err(e) => parse_record(data@, *old(offset) as int) is None && e is Corruption,
        },
{
    let payload_len = read_u32(data, offset)?;
    let stored_crc = read_u32(data, offset)?;
    let payload_start = *offset;
    let total = data.len();
    if payload_start > usize::MAX - payload_len as usize {
        return Err(corruption("wal record overflow"));
    }
    let payload_end = payload_start + payload_len as usize;
    if payload_end > total {
        return Err(corruption("truncated wal record"));
    }
    let payload = vstd::slice::slice_subrange(data, payload_start, payload_end);
    if crc32(payload) != stored_crc {
        return Err(corruption("wal record checksum mismatch"));
    }
    *offset = payload_end;
    let mut poff: usize = 0;
    let kind_slice = read_bytes(payload, &mut poff, 1)?;
    let kind_byte = kind_slice[0];
    let kind = if kind_byte == 0 {
        WalOpKind::Put
    } else if kind_byte == 1 {
        WalOpKind::Delete
    } else {
        return Err(corruption_with_number("unknown wal op ", kind_byte as u64));
    };
    let seq = read_u64(payload, &mut poff)?;
    let key = Bytes::copy_from_slice(read_len_prefixed(payload, &mut poff)?);
    let value_slice = read_len_prefixed(payload, &mut poff)?;
    let value = match kind {
        WalOpKind::Delete => None,
        WalOpKind::Put => Some(Bytes::copy_from_slice(value_slice)),
    };
    if poff != payload.len() {
        return Err(corruption("wal record trailing bytes"));
    }
    let rec = WalRecord { seq, kind, key, value };
    proof {
        assert(payload@ == data@.subrange(payload_start as int, payload_end as int));
        assert(payload@[0] == kind_byte);
    }
    Ok(rec)
}

/// Checks the log header and returns the offset of the first record.
pub fn validate_header(data: &[u8]) -> (r: Result<usize, Error>)
    ensures
        match r {
            Ok(off) => header_ok(data@) && off == WAL_HEADER_SIZE,
            Err(e) => !header_ok(data@) && e is Corruption,
        },
{
    if data.len() < WAL_HEADER_SIZE {
        return Err(corruption("wal header too short"));
    }
    let ok_magic = data[0] == WAL_MAGIC_0 && data[1] == WAL_MAGIC_1 && data[2] == WAL_MAGIC_2
        && data[3] == WAL_MAGIC_3;
    if !ok_magic {
        proof {
            if header_ok(data@) {
                assert(data@.subrange(0, 4)[0] == data@[0]);
                assert(data@.subrange(0, 4)[1] == data@[1]);
                assert(data@.subrange(0, 4)[2] == data@[2]);
                assert(data@.subrange(0, 4)[3] == data@[3]);
            }
        }
        return Err(corruption("wal magic mismatch"));
    }
    if data[4] != WAL_VERSION {
        return Err(corruption_with_number("unsupported wal version ", data[4] as u64));
    }
    proof {
        assert(data@.subrange(0, 4) =~= wal_header_bytes().subrange(0, 4));
    }
    Ok(WAL_HEADER_SIZE)
}


// ---------------------------------------------------------------------------
// Round trips
// ---------------------------------------------------------------------------

/// A record that encodes without loss: its payload length fits the `u32`
/// length field, and it carries a value exactly when it is a put.
pub open spec fn record_encodable(r: WalRecordView) -> bool {
    &&& 17 + r.key.len() + match r.value {
        Some(v) => v.len(),
        None => 0,
    } <= u32::MAX
    &&& (r.kind == WalOpKind::Put) == (r.value is Some)
}

/// The record that reading back `record_bytes(seq, kind, key, value)` gives:
/// a put always carries a value (empty when none was given), a delete never
/// does.
pub open spec fn record_read_back(
    seq: u64,
    kind: WalOpKind,
    key: Seq<u8>,
    value: Option<Seq<u8>>,
) -> WalRecordView {
    WalRecordView {
        seq,
        kind,
        key,
        value: match kind {
            WalOpKind::Put => Some(
                match value {
                    Some(v) => v,
                    None => Seq::empty(),
                },
            ),
            WalOpKind::Delete => None,
        },
    }
}

/// Reading a record back at the place it was written gives the record
/// written, for any kind and value: a put written without a value reads back
/// with an empty one, a delete written with a value reads back without it.
pub proof fn lemma_record_bytes_roundtrip(
    pre: Seq<u8>,
    seq: u64,
    kind: WalOpKind,
    key: Seq<u8>,
    value: Option<Seq<u8>>,
    post: Seq<u8>,
)
    requires
        17 + key.len() + match value {
            Some(v) => v.len(),
            None => 0,
        } <= u32::MAX,
    ensures
        parse_record(pre + record_bytes(seq, kind, key, value) + post, pre.len() as int) == Some(
            (
                record_read_back(seq, kind, key, value),
                pre.len() + record_bytes(seq, kind, key, value).len() as int,
            ),
        ),
        record_bytes(seq, kind, key, value).len() >= 8,
{
    let v = match value {
        Some(v) => v,
        None => Seq::<u8>::empty(),
    };
    let payload = record_payload(seq, kind, key, value);
    let plen = len_tag(payload.len());
    let crc = spec_crc32(payload);
    vstd::bytes::lemma_auto_spec_u32_to_from_le_bytes();
    vstd::bytes::lemma_auto_spec_u64_to_from_le_bytes();
    // the payload
    let kb = seq![kind_byte(kind)];
    crate::codec::lemma_parse_u64_of(kb, seq, prefixed(key) + prefixed(v));
    assert(payload =~= kb + u64_le(seq) + (prefixed(key) + prefixed(v)));
    crate::codec::lemma_parse_prefixed_of(kb + u64_le(seq), key, prefixed(v));
    assert(payload =~= kb + u64_le(seq) + prefixed(key) + prefixed(v));
    crate::codec::lemma_parse_prefixed_of(kb + u64_le(seq) + prefixed(key), v, Seq::<u8>::empty());
    assert(payload =~= kb + u64_le(seq) + prefixed(key) + prefixed(v) + Seq::<u8>::empty());
    assert(payload.len() == 17 + key.len() + v.len());
    assert(payload[0] == kind_byte(kind));
    assert(parse_payload(payload) == Some(record_read_back(seq, kind, key, value)));
    // the frame
    let bytes = record_bytes(seq, kind, key, value);
    let d = pre + bytes + post;
    assert(d =~= pre + u32_le(plen) + (u32_le(crc) + payload + post));
    crate::codec::lemma_parse_u32_of(pre, plen, u32_le(crc) + payload + post);
    assert(d =~= (pre + u32_le(plen)) + u32_le(crc) + (payload + post));
    crate::codec::lemma_parse_u32_of(pre + u32_le(plen), crc, payload + post);
    let start: int = pre.len() + 8int;
    assert(d.subrange(start, start + plen as int) =~= payload);
}

/// Reading a record back at the place it was written gives the record
/// written.
pub proof fn lemma_record_roundtrip(pre: Seq<u8>, r: WalRecordView, post: Seq<u8>)
    requires
        record_encodable(r),
    ensures
        parse_record(pre + record_view_bytes(r) + post, pre.len() as int) == Some(
            (r, pre.len() + record_view_bytes(r).len() as int),
        ),
        record_view_bytes(r).len() >= 8,
{
    lemma_record_bytes_roundtrip(pre, r.seq, r.kind, r.key, r.value, post);
    assert(record_read_back(r.seq, r.kind, r.key, r.value) == r);
}

/// The bytes of concatenated records are the concatenated bytes.
pub proof fn lemma_records_bytes_concat(a: Seq<WalRecordView>, b: Seq<WalRecordView>)
    ensures
        records_bytes(a + b) == records_bytes(a) + records_bytes(b),
    decreases b.len(),
{
    if b.len() == 0 {
        assert(a + b =~= a);
        assert(records_bytes(a) + records_bytes(b) =~= records_bytes(a));
    } else {
        assert((a + b).drop_last() =~= a + b.drop_last());
        lemma_records_bytes_concat(a, b.drop_last());
        assert(records_bytes(a) + records_bytes(b.drop_last()) + record_view_bytes(b.last())
            =~= records_bytes(a) + (records_bytes(b.drop_last()) + record_view_bytes(b.last())));
    }
}

/// Records written one after another after `pre` are read back in order.
pub proof fn lemma_records_roundtrip(pre: Seq<u8>, recs: Seq<WalRecordView>)
    requires
        forall|i: int| 0 <= i < recs.len() ==> record_encodable(#[trigger] recs[i]),
    ensures
        parse_records(pre + records_bytes(recs), pre.len() as int) == Some(recs),
    decreases recs.len(),
{
    if recs.len() == 0 {
        assert(records_bytes(recs) =~= Seq::<u8>::empty());
        assert(pre + records_bytes(recs) =~= pre);
        assert(recs =~= Seq::<WalRecordView>::empty());
    } else {
        let r0 = recs[0];
        let rest = recs.skip(1);
        assert(recs =~= seq![r0] + rest);
        lemma_records_bytes_concat(seq![r0], rest);
        assert(seq![r0].drop_last() =~= Seq::<WalRecordView>::empty());
        assert(records_bytes(Seq::<WalRecordView>::empty()) == Seq::<u8>::empty());
        assert(records_bytes(seq![r0]) =~= record_view_bytes(r0));
        let d = pre + records_bytes(recs);
        assert(d =~= pre + record_view_bytes(r0) + records_bytes(rest));
        lemma_record_roundtrip(pre, r0, records_bytes(rest));
        let pre2 = pre + record_view_bytes(r0);
        assert(d =~= pre2 + records_bytes(rest));
        assert forall|i: int| 0 <= i < rest.len() implies record_encodable(#[trigger] rest[i]) by {
            assert(rest[i] == recs[i + 1]);
        }
        lemma_records_roundtrip(pre2, rest);
        assert(seq![r0] + rest =~= recs);
    }
}

/// A log of encodable records, header first, replays to exactly those
/// records, in order.
pub proof fn lemma_wal_roundtrip(recs: Seq<WalRecordView>)
    requires
        forall|i: int| 0 <= i < recs.len() ==> record_encodable(#[trigger] recs[i]),
    ensures
        parse_wal(wal_header_bytes() + records_bytes(recs)) == Some(recs),
{
    let d = wal_header_bytes() + records_bytes(recs);
    assert(d.subrange(0, 4) =~= wal_header_bytes().subrange(0, 4));
    assert(d[4] == WAL_VERSION);
    lemma_records_roundtrip(wal_header_bytes(), recs);
}

} // verus!
