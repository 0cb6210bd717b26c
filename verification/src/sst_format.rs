//! The sorted-string-table file format.
//!
//! A table file is the data section (one entry per row), the index section
//! (the entry count, then for each row its length-prefixed key and the offset
//! of its entry in the data section) and a 40-byte footer (`SST1`, version 1,
//! three zero bytes, the data offset, the index offset and the entry count as
//! `u64`, the CRC-32 of data and index as `u32`, four zero bytes). A data entry
//! is the length-prefixed key, the sequence number (`u64`), a flag byte (bit 0
//! marks a tombstone) and the length-prefixed value (empty for a tombstone).
//! Integers are little-endian.
use vstd::prelude::*;
use vstd::bytes::{spec_u32_from_le_bytes, spec_u64_from_le_bytes};
use crate::codec::{
    parse_prefixed, parse_u32, parse_u64, prefixed, put_bytes, put_u32, put_u64, u32_le, u64_le,
    len_tag, read_bytes, read_len_prefixed, read_u32, read_u64, spec_crc32,
};
use crate::error::{Error, corruption, corruption_with_number};
use crate::types::{Bytes, MemtableEntry, RowView, SeqNum, ValueEntry, lex_lt, rows_sorted};

verus! {

/// SSTable footer size in bytes.
pub const FOOTER_SIZE: usize = 40;

/// First byte of the table magic `SST1`.
pub const SST_MAGIC_0: u8 = 0x53;

/// Second byte of the table magic `SST1`.
pub const SST_MAGIC_1: u8 = 0x53;

/// Third byte of the table magic `SST1`.
pub const SST_MAGIC_2: u8 = 0x54;

/// Fourth byte of the table magic `SST1`.
pub const SST_MAGIC_3: u8 = 0x31;

/// Table format version.
pub const SST_VERSION: u8 = 1;

/// Flag bit of a tombstone entry.
pub const FLAG_TOMBSTONE: u8 = 0x01;

/// Parsed SSTable footer.
#[derive(Clone, Debug, PartialEq, Eq)]
pub struct Footer {
    /// Data section offset.
    pub data_offset: u64,
    /// Index section offset.
    pub index_offset: u64,
    /// Entry count.
    pub entry_count: u64,
    /// Body CRC-32.
    pub body_crc: u32,
}

/// One SSTable index row.
#[derive(Clone, Debug, PartialEq, Eq)]
pub struct IndexEntry {
    /// User key.
    pub key: Bytes,
    /// Offset in the data section.
    pub offset: u64,
}

impl View for IndexEntry {
    /// The key and the offset.
    type V = (Seq<u8>, u64);

    open spec fn view(&self) -> (Seq<u8>, u64) {
        (self.key@, self.offset)
    }
}

/// The views of index entries.
pub open spec fn index_views(ix: Seq<IndexEntry>) -> Seq<(Seq<u8>, u64)> {
    ix.map_values(|e: IndexEntry| e@)
}

// ---------------------------------------------------------------------------
// Footer
// ---------------------------------------------------------------------------

/// The table magic, version and padding that open the footer.
pub open spec fn footer_prefix() -> Seq<u8> {
    seq![SST_MAGIC_0, SST_MAGIC_1, SST_MAGIC_2, SST_MAGIC_3, SST_VERSION, 0u8, 0u8, 0u8]
}

/// The bytes of a footer.
pub open spec fn footer_bytes(f: Footer) -> Seq<u8> {
    footer_prefix() + u64_le(f.data_offset) + u64_le(f.index_offset) + u64_le(f.entry_count)
        + u32_le(f.body_crc) + seq![0u8, 0u8, 0u8, 0u8]
}

/// The footer that `b` holds: it must be 40 bytes with the right magic and
/// version.
pub open spec fn parse_footer(b: Seq<u8>) -> Option<Footer> {
    if b.len() != FOOTER_SIZE || b.subrange(0, 4) != footer_prefix().subrange(0, 4) || b[4]
        != SST_VERSION {
        None
    } else {
        Some(
            Footer {
                data_offset: spec_u64_from_le_bytes(b.subrange(8, 16)),
                index_offset: spec_u64_from_le_bytes(b.subrange(16, 24)),
                entry_count: spec_u64_from_le_bytes(b.subrange(24, 32)),
                body_crc: spec_u32_from_le_bytes(b.subrange(32, 36)),
            },
        )
    }
}

/// Encodes a footer.
pub fn encode_footer(footer: &Footer) -> (out: Vec<u8>)
    ensures
        out@ == footer_bytes(*footer),
        out@.len() == FOOTER_SIZE,
{
    let mut buf: Vec<u8> = Vec::new();
    buf.push(SST_MAGIC_0);
    buf.push(SST_MAGIC_1);
    buf.push(SST_MAGIC_2);
    buf.push(SST_MAGIC_3);
    buf.push(SST_VERSION);
    buf.push(0);
    buf.push(0);
    buf.push(0);
    proof {
        assert(buf@ =~= footer_prefix());
    }
    put_u64(&mut buf, footer.data_offset);
    put_u64(&mut buf, footer.index_offset);
    put_u64(&mut buf, footer.entry_count);
    put_u32(&mut buf, footer.body_crc);
    buf.push(0);
    buf.push(0);
    buf.push(0);
    buf.push(0);
    proof {
        vstd::bytes::lemma_auto_spec_u64_to_from_le_bytes();
        vstd::bytes::lemma_auto_spec_u32_to_from_le_bytes();
        assert(buf@ =~= footer_bytes(*footer));
    }
    buf
}

/// Decodes a footer.
pub fn decode_footer(footer_bytes: &[u8]) -> (r: Result<Footer, Error>)
    ensures
        match r {
            Ok(f) => parse_footer(footer_bytes@) == Some(f),
            Err(e) => parse_footer(footer_bytes@) is None && e is Corruption,
        },
{
    if footer_bytes.len() != FOOTER_SIZE {
        return Err(corruption("bad footer size"));
    }
    let ok_magic = footer_bytes[0] == SST_MAGIC_0 && footer_bytes[1] == SST_MAGIC_1
        && footer_bytes[2] == SST_MAGIC_2 && footer_bytes[3] == SST_MAGIC_3;
    if !ok_magic {
        proof {
            if footer_bytes@.subrange(0, 4) == footer_prefix().subrange(0, 4) {
                assert(footer_bytes@.subrange(0, 4)[0] == footer_bytes@[0]);
                assert(footer_bytes@.subrange(0, 4)[1] == footer_bytes@[1]);
                assert(footer_bytes@.subrange(0, 4)[2] == footer_bytes@[2]);
                assert(footer_bytes@.subrange(0, 4)[3] == footer_bytes@[3]);
            }
        }
        return Err(corruption("sstable magic mismatch"));
    }
    if footer_bytes[4] != SST_VERSION {
        return Err(corruption_with_number("unsupported sstable version ", footer_bytes[4] as u64));
    }
    let mut off: usize = 8;
    let data_offset = read_u64(footer_bytes, &mut off)?;
    let index_offset = read_u64(footer_bytes, &mut off)?;
    let entry_count = read_u64(footer_bytes, &mut off)?;
    let body_crc = read_u32(footer_bytes, &mut off)?;
    proof {
        assert(footer_bytes@.subrange(0, 4) =~= footer_prefix().subrange(0, 4));
    }
    Ok(Footer { data_offset, index_offset, entry_count, body_crc })
}

// ---------------------------------------------------------------------------
// Data entries
// ---------------------------------------------------------------------------

/// The flag byte of a row: bit 0 marks a tombstone.
pub open spec fn row_flag(r: RowView) -> u8 {
    if r.value is None {
        FLAG_TOMBSTONE
    } else {
        0
    }
}

/// The bytes of a data entry.
pub open spec fn data_entry_bytes(r: RowView) -> Seq<u8> {
    prefixed(r.key) + u64_le(r.seq) + seq![row_flag(r)] + prefixed(
        match r.value {
            Some(v) => v,
            None => Seq::empty(),
        },
    )
}

/// The data entry at `off`, and the offset after it. A set tombstone bit
/// drops the stored value.
pub open spec fn parse_data_entry(data: Seq<u8>, off: int) -> Option<(RowView, int)> {
    match parse_prefixed(data, off) {
        None => None,
        Some((key, o1)) => match parse_u64(data, o1) {
            None => None,
            Some((seq, o2)) => if o2 >= data.len() {
                None
            } else {
                let flags = data[o2];
                match parse_prefixed(data, o2 + 1) {
                    None => None,
                    Some((value, o4)) => Some(
                        (
                            RowView {
                                key,
                                value: if flags % 2 == 1 {
                                    None
                                } else {
                                    Some(value)
                                },
                                seq,
                            },
                            o4,
                        ),
                    ),
                }
            },
        },
    }
}

/// Encodes one data entry; returns the bytes with copies of the key, the
/// sequence number and the entry.
pub fn encode_data_entry(entry: &MemtableEntry) -> (out: (Vec<u8>, Bytes, SeqNum, ValueEntry))
    ensures
        out.0@ == data_entry_bytes(entry@),
        out.1@ == entry.key@,
        out.2 == entry.seq,
        out.3@ == entry.entry@,
{
    let mut buf: Vec<u8> = Vec::new();
    put_bytes(&mut buf, entry.key.as_slice());
    put_u64(&mut buf, entry.seq);
    let flags: u8 = if entry.entry.is_tombstone() {
        FLAG_TOMBSTONE
    } else {
        0
    };
    buf.push(flags);
    match &entry.entry {
        ValueEntry::Value(v) => put_bytes(&mut buf, v.as_slice()),
        ValueEntry::Tombstone => {
            let empty: Vec<u8> = Vec::new();
            put_bytes(&mut buf, empty.as_slice());
        },
    }
    proof {
        assert(buf@ =~= data_entry_bytes(entry@));
    }
    (buf, entry.key.duplicate(), entry.seq, entry.entry.duplicate())
}

/// Decodes the data entry at `offset`.
pub fn decode_data_entry(data: &[u8], offset: u64) -> (r: Result<MemtableEntry, Error>)
    ensures
        match r {
            Ok(e) => parse_data_entry(data@, offset as int) matches Some((row, _)) && e@ == row,
            Err(e) => parse_data_entry(data@, offset as int) is None && e is Corruption,
        },
{
    let total = data.len();
    if offset > usize::MAX as u64 {
        proof {
            assert(data@.len() == total);
        }
        return Err(corruption("bad data offset"));
    }
    let mut off = offset as usize;
    let key = Bytes::copy_from_slice(read_len_prefixed(data, &mut off)?);
    let seq = read_u64(data, &mut off)?;
    let flag_slice = read_bytes(data, &mut off, 1)?;
    let flags = flag_slice[0];
    let value_slice = read_len_prefixed(data, &mut off)?;
    let is_tombstone = flags & FLAG_TOMBSTONE != 0;
    proof {
        assert(is_tombstone == (flags % 2 == 1)) by (bit_vector)
            requires
                is_tombstone == (flags & 1u8 != 0),
        ;
    }
    let entry = if is_tombstone {
        ValueEntry::Tombstone
    } else {
        ValueEntry::Value(Bytes::copy_from_slice(value_slice))
    };
    Ok(MemtableEntry { key, entry, seq })
}

// ---------------------------------------------------------------------------
// Index
// ---------------------------------------------------------------------------

/// The bytes of one index entry.
pub open spec fn index_entry_bytes(e: (Seq<u8>, u64)) -> Seq<u8> {
    prefixed(e.0) + u64_le(e.1)
}

/// The bytes of index entries, one after another.
pub open spec fn index_entries_bytes(ix: Seq<(Seq<u8>, u64)>) -> Seq<u8>
    decreases ix.len(),
{
    if ix.len() == 0 {
        Seq::empty()
    } else {
        index_entry_bytes(ix[0]) + index_entries_bytes(ix.skip(1))
    }
}

/// The bytes of an index section: the entry count, then the entries.
pub open spec fn index_bytes(ix: Seq<(Seq<u8>, u64)>) -> Seq<u8> {
    u32_le(len_tag(ix.len())) + index_entries_bytes(ix)
}

/// `count` index entries from `off`, and the offset after them.
pub open spec fn parse_index_entries(data: Seq<u8>, off: int, count: nat) -> Option<
    (Seq<(Seq<u8>, u64)>, int),
>
    decreases count,
{
    if count == 0 {
        Some((Seq::empty(), off))
    } else {
        match parse_prefixed(data, off) {
            None => None,
            Some((key, o1)) => match parse_u64(data, o1) {
                None => None,
                Some((offset, o2)) => match parse_index_entries(data, o2, (count - 1) as nat) {
                    None => None,
                    Some((rest, end)) => Some((seq![(key, offset)] + rest, end)),
                },
            },
        }
    }
}

/// The entries of an index section, which must end exactly after the last
/// entry.
pub open spec fn parse_index(data: Seq<u8>) -> Option<Seq<(Seq<u8>, u64)>> {
    match parse_u32(data, 0) {
        None => None,
        Some((count, o)) => match parse_index_entries(data, o, count as nat) {
            None => None,
            Some((ix, end)) => if end != data.len() {
                None
            } else {
                Some(ix)
            },
        },
    }
}

/// Index bytes of a concatenation are the concatenation of index bytes.
pub proof fn lemma_index_entries_bytes_concat(a: Seq<(Seq<u8>, u64)>, b: Seq<(Seq<u8>, u64)>)
    ensures
        index_entries_bytes(a + b) == index_entries_bytes(a) + index_entries_bytes(b),
    decreases a.len(),
{
    if a.len() == 0 {
        assert(a + b =~= b);
    } else {
        assert((a + b).skip(1) =~= a.skip(1) + b);
        assert((a + b)[0] == a[0]);
        lemma_index_entries_bytes_concat(a.skip(1), b);
    }
}

/// Encodes an index section.
pub fn encode_index(entries: &[IndexEntry]) -> (out: Vec<u8>)
    ensures
        out@ == index_bytes(index_views(entries@)),
{
    let mut buf: Vec<u8> = Vec::new();
    let n = entries.len();
    let tag: u32 = if n <= 0xFFFF_FFFFusize {
        n as u32
    } else {
        0xFFFF_FFFFu32
    };
    put_u32(&mut buf, tag);
    let ghost views = index_views(entries@);
    let mut i: usize = 0;
    while i < entries.len()
        invariant
            i <= entries@.len(),
            views == index_views(entries@),
            buf@ == u32_le(len_tag(entries@.len())) + index_entries_bytes(views.take(i as int)),
        decreases entries@.len() - i,
    {
        let e = &entries[i];
        put_bytes(&mut buf, e.key.as_slice());
        put_u64(&mut buf, e.offset);
        proof {
            let one = seq![views[i as int]];
            assert(views.take(i + 1) =~= views.take(i as int) + one);
            lemma_index_entries_bytes_concat(views.take(i as int), one);
            assert(one.skip(1) =~= Seq::<(Seq<u8>, u64)>::empty());
            assert(index_entries_bytes(Seq::<(Seq<u8>, u64)>::empty()) == Seq::<u8>::empty());
            assert(one[0] == views[i as int]);
            assert(index_entries_bytes(one) =~= index_entry_bytes(views[i as int]));
            assert(buf@ =~= u32_le(len_tag(entries@.len())) + index_entries_bytes(views.take(i + 1)));
        }
        i = i + 1;
    }
    proof {
        assert(views.take(entries@.len() as int) =~= views);
    }
    buf
}

/// Decodes an index section.
pub fn decode_index(data: &[u8]) -> (r: Result<Vec<IndexEntry>, Error>)
    ensures
        match r {
            Ok(ix) => parse_index(data@) == Some(index_views(ix@)),
            Err(e) => parse_index(data@) is None && e is Corruption,
        },
{
    let mut off: usize = 0;
    let count = read_u32(data, &mut off)?;
    let ghost start = off as int;
    let mut out: Vec<IndexEntry> = Vec::new();
    let mut i: u32 = 0;
    while i < count
        invariant
            i <= count,
            start == 4,
            parse_u32(data@, 0) == Some((count, start)),
            parse_index_entries(data@, start, count as nat) == match parse_index_entries(
                data@,
                off as int,
                (count - i) as nat,
            ) {
                Some((rest, end)) => Some((index_views(out@) + rest, end)),
                None => None::<(Seq<(Seq<u8>, u64)>, int)>,
            },
        decreases count - i,
    {
        let key_slice = read_len_prefixed(data, &mut off)?;
        let key = Bytes::copy_from_slice(key_slice);
        let offset = read_u64(data, &mut off)?;
        let ghost views = index_views(out@);
        out.push(IndexEntry { key, offset });
        proof {
            assert(index_views(out@) =~= views.push((key@, offset)));
            let rest = parse_index_entries(data@, off as int, (count - i - 1) as nat);
            if let Some((rs, end)) = rest {
                assert(views + (seq![(key@, offset)] + rs) =~= views.push((key@, offset)) + rs);
            }
        }
        i = i + 1;
    }
    if off != data.len() {
        return Err(corruption("index trailing bytes"));
    }
    proof {
        assert(index_views(out@) + Seq::<(Seq<u8>, u64)>::empty() =~= index_views(out@));
    }
    Ok(out)
}


// ---------------------------------------------------------------------------
// Whole tables
// ---------------------------------------------------------------------------

/// The data section of a table holding `rows`, one entry after another.
pub open spec fn data_bytes(rows: Seq<RowView>) -> Seq<u8>
    decreases rows.len(),
{
    if rows.len() == 0 {
        Seq::empty()
    } else {
        data_entry_bytes(rows[0]) + data_bytes(rows.skip(1))
    }
}

/// The index of a table holding `rows`: each key with the offset of its entry.
pub open spec fn sst_index(rows: Seq<RowView>) -> Seq<(Seq<u8>, u64)> {
    Seq::new(rows.len(), |i: int| (rows[i].key, data_bytes(rows.take(i)).len() as u64))
}

/// The body (data then index) of a table holding `rows`.
pub open spec fn sst_body(rows: Seq<RowView>) -> Seq<u8> {
    data_bytes(rows) + index_bytes(sst_index(rows))
}

/// The footer of a table holding `rows`.
pub open spec fn sst_footer(rows: Seq<RowView>) -> Footer {
    Footer {
        data_offset: 0,
        index_offset: data_bytes(rows).len() as u64,
        entry_count: rows.len() as u64,
        body_crc: spec_crc32(sst_body(rows)),
    }
}

/// The file of a table holding `rows`.
pub open spec fn sst_file(rows: Seq<RowView>) -> Seq<u8> {
    sst_body(rows) + footer_bytes(sst_footer(rows))
}

/// What a table file holds: its footer, its index and its data section.
pub struct SsTableView {
    /// The footer.
    pub footer: Footer,
    /// Keys with the offsets of their entries.
    pub index: Seq<(Seq<u8>, u64)>,
    /// The data section.
    pub data: Seq<u8>,
}

/// The table a file holds: the footer must parse, the CRC-32 of the body must
/// match, the index section (from the index offset to the footer) must parse
/// and count the footer's entries, and every index offset must hold a data
/// entry.
pub open spec fn parse_sstable(file: Seq<u8>) -> Option<SsTableView> {
    if file.len() < FOOTER_SIZE {
        None
    } else {
        let body_len = file.len() - FOOTER_SIZE;
        match parse_footer(file.subrange(body_len, file.len() as int)) {
            None => None,
            Some(f) => {
                let body = file.subrange(0, body_len);
                if spec_crc32(body) != f.body_crc || f.index_offset > body_len {
                    None
                } else {
                    let data = body.subrange(0, f.index_offset as int);
                    match parse_index(body.subrange(f.index_offset as int, body_len)) {
                        None => None,
                        Some(ix) => if ix.len() != f.entry_count || !entries_decodable(data, ix) {
                            None
                        } else {
                            Some(SsTableView { footer: f, index: ix, data })
                        },
                    }
                }
            },
        }
    }
}

/// Every index offset holds a data entry.
pub open spec fn entries_decodable(data: Seq<u8>, ix: Seq<(Seq<u8>, u64)>) -> bool {
    forall|i: int| 0 <= i < ix.len() ==> #[trigger] parse_data_entry(data, ix[i].1 as int) is Some
}

/// The data bytes of a concatenation are the concatenation of data bytes.
pub proof fn lemma_data_bytes_concat(a: Seq<RowView>, b: Seq<RowView>)
    ensures
        data_bytes(a + b) == data_bytes(a) + data_bytes(b),
    decreases a.len(),
{
    if a.len() == 0 {
        assert(a + b =~= b);
        assert(data_bytes(a) == Seq::<u8>::empty());
        assert(data_bytes(a) + data_bytes(b) =~= data_bytes(b));
    } else {
        assert((a + b).skip(1) =~= a.skip(1) + b);
        assert((a + b)[0] == a[0]);
        lemma_data_bytes_concat(a.skip(1), b);
        assert(data_entry_bytes(a[0]) + (data_bytes(a.skip(1)) + data_bytes(b)) =~= data_entry_bytes(
            a[0],
        ) + data_bytes(a.skip(1)) + data_bytes(b));
    }
}

/// The data bytes of one row more are the data bytes with its entry appended.
pub proof fn lemma_data_bytes_push(rows: Seq<RowView>, i: int)
    requires
        0 <= i < rows.len(),
    ensures
        data_bytes(rows.take(i + 1)) == data_bytes(rows.take(i)) + data_entry_bytes(rows[i]),
{
    let one = seq![rows[i]];
    assert(rows.take(i + 1) =~= rows.take(i) + one);
    lemma_data_bytes_concat(rows.take(i), one);
    assert(one.skip(1) =~= Seq::<RowView>::empty());
    assert(data_bytes(Seq::<RowView>::empty()) == Seq::<u8>::empty());
    assert(one[0] == rows[i]);
    assert(data_bytes(one) =~= data_entry_bytes(rows[i]));
}

/// Index keys that strictly ascend.
pub open spec fn keys_ascending(ix: Seq<(Seq<u8>, u64)>) -> bool {
    forall|i: int, j: int| 0 <= i < j < ix.len() ==> lex_lt(#[trigger] ix[i].0, #[trigger] ix[j].0)
}

/// The row stored at index position `i` of table `t`.
pub open spec fn row_at(t: SsTableView, i: int) -> RowView {
    parse_data_entry(t.data, t.index[i].1 as int).unwrap().0
}

/// A row that encodes without loss: key and value lengths fit the `u32`
/// length tags.
pub open spec fn row_encodable(r: RowView) -> bool {
    &&& r.key.len() <= u32::MAX
    &&& match r.value {
        Some(v) => v.len() <= u32::MAX,
        None => true,
    }
}

/// Rows that form a table without loss: each row encodes without loss, the
/// count fits the index's `u32` count and the data section fits `u64`
/// offsets.
pub open spec fn rows_encodable(rows: Seq<RowView>) -> bool {
    &&& forall|i: int| 0 <= i < rows.len() ==> row_encodable(#[trigger] rows[i])
    &&& rows.len() <= u32::MAX
    &&& data_bytes(rows).len() <= u64::MAX
}

/// Reading a data entry back at the place it was written gives the row
/// written.
pub proof fn lemma_data_entry_roundtrip(pre: Seq<u8>, r: RowView, post: Seq<u8>)
    requires
        row_encodable(r),
    ensures
        parse_data_entry(pre + data_entry_bytes(r) + post, pre.len() as int) == Some(
            (r, pre.len() + data_entry_bytes(r).len() as int),
        ),
{
    let value = match r.value {
        Some(v) => v,
        None => Seq::<u8>::empty(),
    };
    let d = pre + data_entry_bytes(r) + post;
    let flag = seq![row_flag(r)];
    assert(d =~= pre + prefixed(r.key) + (u64_le(r.seq) + flag + prefixed(value) + post));
    crate::codec::lemma_parse_prefixed_of(pre, r.key, u64_le(r.seq) + flag + prefixed(value) + post);
    assert(d =~= (pre + prefixed(r.key)) + u64_le(r.seq) + (flag + prefixed(value) + post));
    crate::codec::lemma_parse_u64_of(pre + prefixed(r.key), r.seq, flag + prefixed(value) + post);
    let o2: int = pre.len() + prefixed(r.key).len() + 8int;
    assert(d[o2] == row_flag(r));
    assert(d =~= (pre + prefixed(r.key) + u64_le(r.seq) + flag) + prefixed(value) + post);
    crate::codec::lemma_parse_prefixed_of(pre + prefixed(r.key) + u64_le(r.seq) + flag, value, post);
}

/// A footer reads back as written.
pub proof fn lemma_footer_roundtrip(f: Footer)
    ensures
        parse_footer(footer_bytes(f)) == Some(f),
        footer_bytes(f).len() == FOOTER_SIZE,
{
    vstd::bytes::lemma_auto_spec_u64_to_from_le_bytes();
    vstd::bytes::lemma_auto_spec_u32_to_from_le_bytes();
    let b = footer_bytes(f);
    assert(b.subrange(0, 4) =~= footer_prefix().subrange(0, 4));
    assert(b.subrange(8, 16) =~= u64_le(f.data_offset));
    assert(b.subrange(16, 24) =~= u64_le(f.index_offset));
    assert(b.subrange(24, 32) =~= u64_le(f.entry_count));
    assert(b.subrange(32, 36) =~= u32_le(f.body_crc));
}

/// Index entries read back as written.
pub proof fn lemma_index_entries_roundtrip(pre: Seq<u8>, ix: Seq<(Seq<u8>, u64)>, post: Seq<u8>)
    requires
        forall|i: int| 0 <= i < ix.len() ==> (#[trigger] ix[i]).0.len() <= u32::MAX,
    ensures
        parse_index_entries(pre + index_entries_bytes(ix) + post, pre.len() as int, ix.len()) == Some(
            (ix, pre.len() + index_entries_bytes(ix).len() as int),
        ),
    decreases ix.len(),
{
    let d = pre + index_entries_bytes(ix) + post;
    if ix.len() == 0 {
        assert(ix =~= Seq::<(Seq<u8>, u64)>::empty());
    } else {
        let e = ix[0];
        let rest = ix.skip(1);
        assert(d =~= pre + prefixed(e.0) + (u64_le(e.1) + index_entries_bytes(rest) + post));
        crate::codec::lemma_parse_prefixed_of(pre, e.0, u64_le(e.1) + index_entries_bytes(rest) + post);
        assert(d =~= (pre + prefixed(e.0)) + u64_le(e.1) + (index_entries_bytes(rest) + post));
        crate::codec::lemma_parse_u64_of(pre + prefixed(e.0), e.1, index_entries_bytes(rest) + post);
        let pre2 = pre + prefixed(e.0) + u64_le(e.1);
        assert(d =~= pre2 + index_entries_bytes(rest) + post);
        assert forall|i: int| 0 <= i < rest.len() implies (#[trigger] rest[i]).0.len() <= u32::MAX by {
            assert(rest[i] == ix[i + 1]);
        }
        lemma_index_entries_roundtrip(pre2, rest, post);
        assert(seq![e] + rest =~= ix);
    }
}

/// An index section reads back as written.
pub proof fn lemma_index_roundtrip(ix: Seq<(Seq<u8>, u64)>)
    requires
        ix.len() <= u32::MAX,
        forall|i: int| 0 <= i < ix.len() ==> (#[trigger] ix[i]).0.len() <= u32::MAX,
    ensures
        parse_index(index_bytes(ix)) == Some(ix),
{
    let d = index_bytes(ix);
    crate::codec::lemma_parse_u32_of(Seq::<u8>::empty(), len_tag(ix.len()), index_entries_bytes(ix));
    assert(Seq::<u8>::empty() + u32_le(len_tag(ix.len())) + index_entries_bytes(ix) =~= d);
    lemma_index_entries_roundtrip(u32_le(len_tag(ix.len())), ix, Seq::<u8>::empty());
    assert(u32_le(len_tag(ix.len())) + index_entries_bytes(ix) + Seq::<u8>::empty() =~= d);
}

/// The data section splits at a row into the rows before, the row's entry and
/// the rows after.
pub proof fn lemma_data_bytes_split(rows: Seq<RowView>, i: int)
    requires
        0 <= i < rows.len(),
    ensures
        data_bytes(rows) == data_bytes(rows.take(i)) + data_entry_bytes(rows[i]) + data_bytes(
            rows.skip(i + 1),
        ),
{
    assert(rows =~= rows.take(i) + rows.skip(i));
    lemma_data_bytes_concat(rows.take(i), rows.skip(i));
    assert(rows.skip(i)[0] == rows[i]);
    assert(rows.skip(i).skip(1) =~= rows.skip(i + 1));
    assert(data_bytes(rows.take(i)) + (data_entry_bytes(rows[i]) + data_bytes(rows.skip(i + 1)))
        =~= data_bytes(rows.take(i)) + data_entry_bytes(rows[i]) + data_bytes(rows.skip(i + 1)));
}

/// A table written from rows that encode without loss reads back: its index
/// lists the rows' keys, each offset holds its row, and sorted rows give
/// ascending index keys.
pub proof fn lemma_sstable_roundtrip(rows: Seq<RowView>)
    requires
        rows_encodable(rows),
    ensures
        parse_sstable(sst_file(rows)) == Some(
            SsTableView { footer: sst_footer(rows), index: sst_index(rows), data: data_bytes(rows) },
        ),
        forall|i: int|
            0 <= i < rows.len() ==> #[trigger] row_at(
                SsTableView { footer: sst_footer(rows), index: sst_index(rows), data: data_bytes(rows) },
                i,
            ) == rows[i],
        forall|i: int| 0 <= i < rows.len() ==> #[trigger] sst_index(rows)[i].0 == rows[i].key,
        sst_index(rows).len() == rows.len(),
        rows_sorted(rows) ==> keys_ascending(sst_index(rows)),
{
    let data = data_bytes(rows);
    let ix = sst_index(rows);
    let f = sst_footer(rows);
    let t = SsTableView { footer: f, index: ix, data };
    // every offset holds its row
    assert forall|i: int| 0 <= i < rows.len() implies #[trigger] parse_data_entry(data, ix[i].1 as int)
        == Some((rows[i], data_bytes(rows.take(i)).len() + data_entry_bytes(rows[i]).len() as int)) by {
        lemma_data_bytes_split(rows, i);
        assert(data_bytes(rows.take(i)).len() <= data.len()) by {
            assert(data.len() == data_bytes(rows.take(i)).len() + data_entry_bytes(rows[i]).len()
                + data_bytes(rows.skip(i + 1)).len());
        }
        assert(ix[i].1 as int == data_bytes(rows.take(i)).len());
        assert(row_encodable(rows[i]));
        lemma_data_entry_roundtrip(data_bytes(rows.take(i)), rows[i], data_bytes(rows.skip(i + 1)));
    }
    assert forall|i: int| 0 <= i < rows.len() implies #[trigger] row_at(t, i) == rows[i] by {
        assert(parse_data_entry(data, ix[i].1 as int) is Some);
    }
    assert(entries_decodable(data, ix)) by {
        assert forall|i: int| 0 <= i < ix.len() implies #[trigger] parse_data_entry(data, ix[i].1 as int)
            is Some by {
            assert(parse_data_entry(data, ix[i].1 as int) is Some);
        }
    }
    // the index section
    assert forall|i: int| 0 <= i < ix.len() implies (#[trigger] ix[i]).0.len() <= u32::MAX by {
        assert(row_encodable(rows[i]));
    }
    lemma_index_roundtrip(ix);
    // the footer
    lemma_footer_roundtrip(f);
    let file = sst_file(rows);
    let body = sst_body(rows);
    let body_len = body.len() as int;
    assert(file.subrange(body_len, file.len() as int) =~= footer_bytes(f));
    assert(file.subrange(0, body_len) =~= body);
    assert(f.index_offset as int == data.len());
    assert(body.subrange(0, data.len() as int) =~= data);
    assert(body.subrange(data.len() as int, body_len) =~= index_bytes(ix));
    if rows_sorted(rows) {
        assert forall|i: int, j: int| 0 <= i < j < ix.len() implies lex_lt(
            #[trigger] ix[i].0,
            #[trigger] ix[j].0,
        ) by {
            assert(lex_lt(rows[i].key, rows[j].key));
        }
    }
}


/// Rows each of which encodes without loss.
pub open spec fn rows_each_encodable(rows: Seq<RowView>) -> bool {
    forall|i: int| 0 <= i < rows.len() ==> row_encodable(#[trigger] rows[i])
}

/// Index entries take some bytes.
proof fn lemma_index_entries_bytes_nonempty(ix: Seq<(Seq<u8>, u64)>)
    requires
        ix.len() > 0,
    ensures
        index_entries_bytes(ix).len() > 0,
{
    vstd::bytes::lemma_auto_spec_u64_to_from_le_bytes();
    assert(u64_le(ix[0].1).len() == 8);
}

/// A table whose rows each encode without loss and whose file fits the `u64`
/// length a store reports, and which parses, has at most `u32::MAX` rows:
/// with more, the index's count tag stops short of its entries and the index
/// does not parse.
pub proof fn lemma_opened_table_fits(rows: Seq<RowView>)
    requires
        rows_each_encodable(rows),
        sst_file(rows).len() <= u64::MAX,
        parse_sstable(sst_file(rows)) is Some,
    ensures
        rows_encodable(rows),
{
    let data = data_bytes(rows);
    let ix = sst_index(rows);
    let f = sst_footer(rows);
    let file = sst_file(rows);
    let body = sst_body(rows);
    let body_len = body.len() as int;
    lemma_footer_roundtrip(f);
    assert(file.subrange(body_len, file.len() as int) =~= footer_bytes(f));
    assert(file.subrange(0, body_len) =~= body);
    assert(f.index_offset as int == data.len());
    assert(body.subrange(data.len() as int, body_len) =~= index_bytes(ix));
    if rows.len() > u32::MAX {
        let m = u32::MAX as int;
        let a = ix.take(m);
        let b = ix.skip(m);
        assert(ix =~= a + b);
        lemma_index_entries_bytes_concat(a, b);
        lemma_index_entries_bytes_nonempty(b);
        assert forall|i: int| 0 <= i < a.len() implies (#[trigger] a[i]).0.len() <= u32::MAX by {
            assert(a[i] == ix[i]);
            assert(row_encodable(rows[i]));
        }
        let tag = u32_le(len_tag(ix.len()));
        crate::codec::lemma_parse_u32_of(Seq::<u8>::empty(), len_tag(ix.len()), index_entries_bytes(ix));
        assert(Seq::<u8>::empty() + tag + index_entries_bytes(ix) =~= index_bytes(ix));
        lemma_index_entries_roundtrip(tag, a, index_entries_bytes(b));
        assert(tag + index_entries_bytes(a) + index_entries_bytes(b) =~= index_bytes(ix));
        assert(parse_index(index_bytes(ix)) is None);
        assert(false);
    }
}

/// Reading back a table that opens gives the rows written, in order, as long
/// as each row encodes without loss and the file fits the `u64` length a
/// store reports.
pub proof fn lemma_sstable_opened_roundtrip(rows: Seq<RowView>)
    requires
        rows_each_encodable(rows),
        sst_file(rows).len() <= u64::MAX,
        parse_sstable(sst_file(rows)) is Some,
    ensures
        parse_sstable(sst_file(rows)) == Some(
            SsTableView { footer: sst_footer(rows), index: sst_index(rows), data: data_bytes(rows) },
        ),
        forall|i: int|
            0 <= i < rows.len() ==> #[trigger] row_at(parse_sstable(sst_file(rows)).unwrap(), i)
                == rows[i],
        parse_sstable(sst_file(rows)).unwrap().index.len() == rows.len(),
        rows_sorted(rows) ==> keys_ascending(parse_sstable(sst_file(rows)).unwrap().index),
{
    lemma_opened_table_fits(rows);
    lemma_sstable_roundtrip(rows);
}

/// A file opens only if the CRC-32 of its body (all but the last
/// `FOOTER_SIZE` bytes) equals the checksum its footer records, and then the
/// table's footer is that footer: a file whose body does not match its
/// footer's checksum does not parse.
pub proof fn lemma_parse_sstable_checks_crc(file: Seq<u8>)
    ensures
        parse_sstable(file) matches Some(t) ==> {
            &&& file.len() >= FOOTER_SIZE
            &&& parse_footer(file.subrange(file.len() - FOOTER_SIZE, file.len() as int)) == Some(
                t.footer,
            )
            &&& spec_crc32(file.subrange(0, file.len() - FOOTER_SIZE)) == t.footer.body_crc
        },
        (file.len() >= FOOTER_SIZE && (parse_footer(
            file.subrange(file.len() - FOOTER_SIZE, file.len() as int),
        ) matches Some(f) && spec_crc32(file.subrange(0, file.len() - FOOTER_SIZE)) != f.body_crc))
            ==> parse_sstable(file) is None,
{
}
} // verus!
