//! Reading immutable SSTables.
use vstd::prelude::*;
use crate::codec::{crc32, spec_crc32};
use crate::error::{Error, corruption};
use crate::memtable::entry_rows;
use crate::sst_format::{
    FOOTER_SIZE, Footer, IndexEntry, SsTableView, decode_data_entry, decode_footer, decode_index,
    entries_decodable, index_views, keys_ascending, lemma_sstable_roundtrip, parse_data_entry,
    parse_sstable, row_at, rows_each_encodable, sst_file, data_bytes, lemma_opened_table_fits,
};
use crate::storage::StorageBackend;
use crate::types::{
    Bytes, Lookup, MemtableEntry, RowView, bytes_eq, bytes_lt, lemma_lex_asymmetric,
    lemma_lex_connected, lemma_lex_transitive, lemma_rows_map, lex_lt, rows_map, rows_sorted,
    slot_of,
};

verus! {

/// Reads immutable SSTables.
pub struct SsTableReader {
    footer: Footer,
    index: Vec<IndexEntry>,
    data: Bytes,
}

impl SsTableReader {
    /// Every index offset holds a data entry.
    #[verifier::type_invariant]
    spec fn decodable(&self) -> bool {
        entries_decodable(self.data@, index_views(self.index@))
    }

    /// The table read.
    pub closed spec fn view(&self) -> SsTableView {
        SsTableView { footer: self.footer, index: index_views(self.index@), data: self.data@ }
    }

    /// Opens and validates the SSTable held by `backend`. A failure is either a
    /// corruption found in the bytes or an error the backend reported.
    pub fn open<B: StorageBackend>(backend: &B) -> (r: Result<Self, Error>)
        ensures
            r matches Ok(t) ==> parse_sstable(backend.contents()) == Some(t.view())
                && backend.contents().len() <= u64::MAX,
            r matches Ok(t) ==> backend.contents().len() >= FOOTER_SIZE && spec_crc32(
                backend.contents().subrange(0, backend.contents().len() - FOOTER_SIZE),
            ) == t.view().footer.body_crc,
            backend.reliable() ==> (r is Ok <==> parse_sstable(backend.contents()) is Some),
            backend.reliable() ==> (r matches Err(e) ==> e is Corruption),
            r matches Err(e) ==> e is Corruption || B::reports(e),
    {
        let file_len = match backend.len() {
            Ok(n) => n,
            Err(e) => return Err(e),
        };
        if file_len < FOOTER_SIZE as u64 {
            return Err(corruption("sstable file too small"));
        }
        let footer_offset = file_len - FOOTER_SIZE as u64;
        let footer_bytes = match backend.read_at(footer_offset, FOOTER_SIZE) {
            Ok(b) => b,
            Err(e) => return Err(e),
        };
        let footer = decode_footer(footer_bytes.as_slice())?;
        if footer_offset > usize::MAX as u64 {
            return Err(corruption("sstable length overflow"));
        }
        let body_len = footer_offset as usize;
        let body = match backend.read_at(0, body_len) {
            Ok(b) => b,
            Err(e) => return Err(e),
        };
        let ghost file = backend.contents();
        proof {
            assert(body@ =~= file.subrange(0, body_len as int));
        }
        if crc32(body.as_slice()) != footer.body_crc {
            return Err(corruption("sstable body checksum mismatch"));
        }
        if footer.index_offset > body_len as u64 {
            return Err(corruption("data section out of bounds"));
        }
        let data_len = footer.index_offset as usize;
        let body_slice = body.as_slice();
        let data = Bytes::copy_from_slice(vstd::slice::slice_subrange(body_slice, 0, data_len));
        let index_slice = vstd::slice::slice_subrange(body_slice, data_len, body_len);
        proof {
            let body_s = file.subrange(0, body_len as int);
            assert(footer_bytes@ =~= file.subrange(body_len as int, file.len() as int));
            assert(data@ =~= body_s.subrange(0, footer.index_offset as int));
            assert(index_slice@ =~= body_s.subrange(footer.index_offset as int, body_len as int));
        }
        let index = decode_index(index_slice)?;
        if index.len() as u64 != footer.entry_count {
            return Err(corruption("sstable entry count mismatch"));
        }
        let ghost tview = SsTableView { footer, index: index_views(index@), data: data@ };
        proof {
            assert(parse_sstable(file) == if entries_decodable(data@, index_views(index@)) {
                Some(tview)
            } else {
                None::<SsTableView>
            });
        }
        let mut i: usize = 0;
        while i < index.len()
            invariant
                i <= index@.len(),
                file == backend.contents(),
                tview == (SsTableView { footer, index: index_views(index@), data: data@ }),
                parse_sstable(file) == if entries_decodable(data@, index_views(index@)) {
                    Some(tview)
                } else {
                    None::<SsTableView>
                },
                forall|k: int|
                    0 <= k < i ==> #[trigger] parse_data_entry(data@, index@[k].offset as int) is Some,
            decreases index@.len() - i,
        {
            match decode_data_entry(data.as_slice(), index[i].offset) {
                Ok(_) => {},
                Err(e) => {
                    proof {
                        assert(index_views(index@)[i as int].1 == index@[i as int].offset);
                        assert(!entries_decodable(data@, index_views(index@)));
                    }
                    return Err(e);
                },
            }
            i = i + 1;
        }
        proof {
            assert forall|k: int| 0 <= k < index_views(index@).len() implies #[trigger] parse_data_entry(
                data@,
                index_views(index@)[k].1 as int,
            ) is Some by {
                assert(index_views(index@)[k].1 == index@[k].offset);
            }
        }
        Ok(SsTableReader { footer, index, data })
    }

    /// Returns the parsed footer.
    pub fn footer(&self) -> (f: &Footer)
        ensures
            *f == self.view().footer,
    {
        &self.footer
    }

    /// Returns the entry count.
    pub fn len(&self) -> (r: usize)
        ensures
            r == self.view().index.len(),
    {
        self.index.len()
    }

    /// Returns whether the table is empty.
    pub fn is_empty(&self) -> (r: bool)
        ensures
            r == (self.view().index.len() == 0),
    {
        self.index.len() == 0
    }

    /// Point lookup in this table: a binary search of the index.
    ///
    /// A lookup that finds something returns the entry at an index position
    /// holding `key`; when the index keys ascend, a lookup finds nothing only
    /// if no position holds `key`.
    pub fn get(&self, key: &[u8]) -> (r: Result<Option<Lookup>, Error>)
        ensures
            r is Ok,
            r matches Ok(Some(l)) ==> exists|i: int|
                0 <= i < self.view().index.len() && self.view().index[i].0 == key@ && l@ == row_at(
                    self.view(),
                    i,
                ).value,
            r matches Ok(None) ==> keys_ascending(self.view().index) ==> forall|i: int|
                0 <= i < self.view().index.len() ==> self.view().index[i].0 != key@,
    {
        proof {
            use_type_invariant(self);
        }
        let ghost ix = index_views(self.index@);
        let mut lo: usize = 0;
        let mut hi: usize = self.index.len();
        while lo < hi
            invariant
                lo <= hi <= self.index@.len(),
                ix == index_views(self.index@),
                keys_ascending(ix) ==> forall|i: int| 0 <= i < lo ==> lex_lt(#[trigger] ix[i].0, key@),
                keys_ascending(ix) ==> forall|i: int|
                    hi <= i < ix.len() ==> lex_lt(key@, #[trigger] ix[i].0),
            decreases hi - lo,
        {
            let mid = lo + (hi - lo) / 2;
            let k = self.index[mid].key.as_slice();
            proof {
                assert(ix[mid as int].0 == k@);
            }
            if bytes_lt(k, key) {
                proof {
                    if keys_ascending(ix) {
                        assert forall|i: int| 0 <= i < mid + 1 implies lex_lt(#[trigger] ix[i].0, key@) by {
                            if i < mid {
                                lemma_lex_transitive(ix[i].0, ix[mid as int].0, key@, 0);
                            }
                        }
                    }
                }
                lo = mid + 1;
            } else if bytes_eq(k, key) {
                proof {
                    use_type_invariant(self);
                    assert(ix[mid as int].1 == self.index@[mid as int].offset);
                    assert(parse_data_entry(self.data@, ix[mid as int].1 as int) is Some);
                }
                match decode_data_entry(self.data.as_slice(), self.index[mid].offset) {
                    Ok(entry) => {
                        let l = Lookup::from(entry.entry);
                        proof {
                            assert(row_at(self.view(), mid as int).value == l@);
                        }
                        return Ok(Some(l));
                    },
                    Err(e) => {
                        return Err(e);
                    },
                }
            } else {
                proof {
                    lemma_lex_connected(k@, key@);
                    if keys_ascending(ix) {
                        assert forall|i: int| mid <= i < ix.len() implies lex_lt(key@, #[trigger] ix[i].0) by {
                            if i > mid {
                                lemma_lex_transitive(key@, ix[mid as int].0, ix[i].0, 0);
                            }
                        }
                    }
                }
                hi = mid;
            }
        }
        proof {
            if keys_ascending(ix) {
                assert forall|i: int| 0 <= i < ix.len() implies ix[i].0 != key@ by {
                    if i < lo {
                        lemma_lex_asymmetric(ix[i].0, key@);
                    } else {
                        lemma_lex_asymmetric(key@, ix[i].0);
                    }
                }
            }
        }
        Ok(None)
    }

    /// Returns the entries in index order.
    pub fn iter(&self) -> (r: Vec<MemtableEntry>)
        ensures
            entry_rows(r@) == Seq::new(self.view().index.len(), |i: int| row_at(self.view(), i)),
    {
        proof {
            use_type_invariant(self);
        }
        let ghost t = self.view();
        let mut out: Vec<MemtableEntry> = Vec::new();
        let mut i: usize = 0;
        while i < self.index.len()
            invariant
                i <= self.index@.len(),
                t == self.view(),
                entries_decodable(t.data, t.index),
                out@.len() == i,
                forall|k: int| 0 <= k < i ==> #[trigger] out@[k]@ == row_at(t, k),
            decreases self.index@.len() - i,
        {
            proof {
                assert(t.index[i as int].1 == self.index@[i as int].offset);
                assert(parse_data_entry(t.data, t.index[i as int].1 as int) is Some);
            }
            match decode_data_entry(self.data.as_slice(), self.index[i].offset) {
                Ok(entry) => {
                    out.push(entry);
                },
                Err(_) => {
                    proof {
                        assert(false);
                    }
                },
            }
            i = i + 1;
        }
        proof {
            assert(entry_rows(out@) =~= Seq::new(t.index.len(), |i: int| row_at(t, i)));
        }
        out
    }

    /// Returns the smallest key, if any.
    pub fn smallest_key(&self) -> (r: Option<&Bytes>)
        ensures
            match r {
                Some(k) => self.view().index.len() > 0 && k@ == self.view().index[0].0,
                None => self.view().index.len() == 0,
            },
    {
        if self.index.len() > 0 {
            Some(&self.index[0].key)
        } else {
            None
        }
    }

    /// Returns the largest key, if any.
    pub fn largest_key(&self) -> (r: Option<&Bytes>)
        ensures
            match r {
                Some(k) => self.view().index.len() > 0 && k@ == self.view().index.last().0,
                None => self.view().index.len() == 0,
            },
    {
        if self.index.len() > 0 {
            Some(&self.index[self.index.len() - 1].key)
        } else {
            None
        }
    }
}


/// Reading a table written from sorted rows gives back what the rows map each
/// key to: its index keys ascend, some position holds a key exactly when the
/// rows map it, and the row at such a position carries the key's slot. This
/// holds of every such table that opens (each row encoding without loss and
/// the file fitting the `u64` length a store reports), and every one with at
/// most `u32::MAX` rows opens.
pub proof fn lemma_sstable_lookup(rows: Seq<RowView>, key: Seq<u8>)
    requires
        rows_sorted(rows),
        rows_each_encodable(rows),
        sst_file(rows).len() <= u64::MAX,
        rows.len() <= u32::MAX || parse_sstable(sst_file(rows)) is Some,
    ensures
        parse_sstable(sst_file(rows)) is Some,
        keys_ascending(parse_sstable(sst_file(rows)).unwrap().index),
        (exists|i: int|
            0 <= i < parse_sstable(sst_file(rows)).unwrap().index.len() && parse_sstable(
                sst_file(rows),
            ).unwrap().index[i].0 == key) <==> rows_map(rows).contains_key(key),
        forall|i: int|
            0 <= i < parse_sstable(sst_file(rows)).unwrap().index.len() && parse_sstable(
                sst_file(rows),
            ).unwrap().index[i].0 == key ==> slot_of(
                #[trigger] row_at(parse_sstable(sst_file(rows)).unwrap(), i),
            ) == rows_map(rows)[key],
{
    if rows.len() > u32::MAX {
        lemma_opened_table_fits(rows);
    } else {
        assert(data_bytes(rows).len() <= sst_file(rows).len());
    }
    lemma_sstable_roundtrip(rows);
    lemma_rows_map(rows);
    let t = parse_sstable(sst_file(rows)).unwrap();
    if rows_map(rows).contains_key(key) {
        let i = choose|i: int| 0 <= i < rows.len() && rows[i].key == key;
        assert(t.index[i].0 == key);
    }
    assert forall|i: int| 0 <= i < t.index.len() && t.index[i].0 == key implies slot_of(
        #[trigger] row_at(t, i),
    ) == rows_map(rows)[key] by {
        assert(rows[i].key == key);
        assert(row_at(t, i) == rows[i]);
    }
}

} // verus!
