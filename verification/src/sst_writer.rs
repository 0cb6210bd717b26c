//! Writing immutable SSTables.
use vstd::prelude::*;
use crate::codec::{crc32, extend};
use crate::compaction::{SsTableId, SsTableMeta};
use crate::error::Error;
use crate::memtable::{MemTable, entry_rows};
use crate::sst_format::{
    FOOTER_SIZE, Footer, IndexEntry, data_bytes, encode_data_entry, encode_footer, encode_index,
    index_views, lemma_data_bytes_push, sst_body, sst_file, sst_footer, sst_index,
};
use crate::storage::StorageBackend;
use crate::types::{Bytes, MemtableEntry, RowView};

verus! {

/// The metadata of a table holding `rows`, written as table `id` on `level`.
pub open spec fn meta_of(meta: SsTableMeta, id: SsTableId, level: usize, rows: Seq<RowView>) -> bool {
    &&& meta.id == id
    &&& meta.level == level
    &&& meta.smallest_key@ == (if rows.len() > 0 {
        rows[0].key
    } else {
        Seq::<u8>::empty()
    })
    &&& meta.largest_key@ == (if rows.len() > 0 {
        rows.last().key
    } else {
        Seq::<u8>::empty()
    })
    &&& meta.size_bytes as int == (if sst_file(rows).len() <= u64::MAX {
        sst_file(rows).len() as int
    } else {
        u64::MAX as int
    })
    &&& meta.entry_count == rows.len()
}

/// Appends a table holding `entries`, in the order given, to `backend` and
/// syncs it; returns its metadata. On success everything the backend holds,
/// the new table included, survives a crash.
///
/// On success the backend holds what it held before followed by the table
/// file. A failure is the error the backend reported, and leaves the backend
/// as it was (the body's append failed), or with the body (the footer's
/// append failed), or with the whole file (the sync failed).
pub fn write_sstable<B: StorageBackend>(
    backend: &mut B,
    id: SsTableId,
    level: usize,
    entries: Vec<MemtableEntry>,
) -> (r: Result<SsTableMeta, Error>)
    ensures
        final(backend).reliable() == old(backend).reliable(),
        old(backend).reliable() ==> r is Ok,
        r matches Ok(meta) ==> final(backend).contents() == old(backend).contents() + sst_file(
            entry_rows(entries@),
        ) && meta_of(meta, id, level, entry_rows(entries@)),
        r is Ok ==> final(backend).durable() == final(backend).contents(),
        r matches Err(e) ==> B::reports(e),
        r is Err ==> {
            ||| final(backend).contents() == old(backend).contents()
            ||| final(backend).contents() == old(backend).contents() + sst_body(entry_rows(entries@))
            ||| final(backend).contents() == old(backend).contents() + sst_file(entry_rows(entries@))
        },
{
    let ghost rows = entry_rows(entries@);
    let entry_count = entries.len();
    let mut data: Vec<u8> = Vec::new();
    let mut index: Vec<IndexEntry> = Vec::new();
    let mut i: usize = 0;
    while i < entries.len()
        invariant
            i <= entries@.len(),
            rows == entry_rows(entries@),
            data@ == data_bytes(rows.take(i as int)),
            index_views(index@) == sst_index(rows).take(i as int),
        decreases entries@.len() - i,
    {
        let entry = &entries[i];
        let offset = data.len() as u64;
        let ghost prev = index_views(index@);
        index.push(IndexEntry { key: entry.key.duplicate(), offset });
        proof {
            assert(index_views(index@) =~= prev.push((entry.key@, offset)));
            assert(rows[i as int] == entry@);
            assert(offset as int == data_bytes(rows.take(i as int)).len());
            assert(sst_index(rows)[i as int] == (entry.key@, offset));
        }
        let (encoded, _, _, _) = encode_data_entry(entry);
        extend(&mut data, encoded.as_slice());
        proof {
            lemma_data_bytes_push(rows, i as int);
            assert(rows[i as int] == entry@);
            assert(index_views(index@) =~= sst_index(rows).take(i + 1));
        }
        i = i + 1;
    }
    proof {
        assert(rows.take(entries@.len() as int) =~= rows);
        assert(sst_index(rows).take(entries@.len() as int) =~= sst_index(rows));
    }
    let index_bytes = encode_index(index.as_slice());
    let index_offset = data.len() as u64;
    let mut body: Vec<u8> = Vec::new();
    extend(&mut body, data.as_slice());
    extend(&mut body, index_bytes.as_slice());
    let body_crc = crc32(body.as_slice());
    let footer = Footer {
        data_offset: 0,
        index_offset,
        entry_count: entry_count as u64,
        body_crc,
    };
    let footer_bytes = encode_footer(&footer);
    proof {
        assert(footer == sst_footer(rows));
    }
    match backend.append(body.as_slice()) {
        Ok(_) => {},
        Err(e) => return Err(e),
    }
    match backend.append(footer_bytes.as_slice()) {
        Ok(_) => {},
        Err(e) => return Err(e),
    }
    proof {
        assert(old(backend).contents() + body@ + footer_bytes@ =~= old(backend).contents()
            + sst_file(rows));
    }
    match backend.sync() {
        Ok(_) => {},
        Err(e) => return Err(e),
    }
    let size_bytes = (body.len() as u64).saturating_add(FOOTER_SIZE as u64);
    let smallest_key = if entries.len() > 0 {
        entries[0].key.duplicate()
    } else {
        Bytes::empty()
    };
    let largest_key = if entries.len() > 0 {
        entries[entries.len() - 1].key.duplicate()
    } else {
        Bytes::empty()
    };
    Ok(
        SsTableMeta {
            id,
            level,
            smallest_key,
            largest_key,
            size_bytes,
            entry_count: entry_count as u64,
        },
    )
}

/// Writes immutable SSTables.
pub struct SsTableWriter<B: StorageBackend> {
    backend: B,
}

impl<B: StorageBackend> SsTableWriter<B> {
    /// The backend.
    pub closed spec fn store(&self) -> B {
        self.backend
    }

    /// Creates a writer over `backend`.
    pub fn new(backend: B) -> (w: Self)
        ensures
            w.store() == backend,
    {
        SsTableWriter { backend }
    }

    /// Writes `entries` (expected in ascending key order) as a table and
    /// returns its metadata.
    pub fn write(&mut self, id: SsTableId, level: usize, entries: Vec<MemtableEntry>) -> (r: Result<
        SsTableMeta,
        Error,
    >)
        ensures
            final(self).store().reliable() == old(self).store().reliable(),
            old(self).store().reliable() ==> r is Ok,
            r matches Ok(meta) ==> final(self).store().contents() == old(self).store().contents()
                + sst_file(entry_rows(entries@)) && meta_of(meta, id, level, entry_rows(entries@)),
            r is Ok ==> final(self).store().durable() == final(self).store().contents(),
            r matches Err(e) ==> B::reports(e),
            r is Err ==> {
                ||| final(self).store().contents() == old(self).store().contents()
                ||| final(self).store().contents() == old(self).store().contents() + sst_body(
                    entry_rows(entries@),
                )
                ||| final(self).store().contents() == old(self).store().contents() + sst_file(
                    entry_rows(entries@),
                )
            },
    {
        write_sstable(&mut self.backend, id, level, entries)
    }

    /// The backing store.
    pub fn backend(&self) -> (b: &B)
        ensures
            *b == self.store(),
    {
        &self.backend
    }

    /// Gives the backing store back.
    pub fn into_backend(self) -> (b: B)
        ensures
            b == self.store(),
    {
        self.backend
    }
}

/// Flushes a [`MemTable`] into a new SSTable appended to `backend`.
pub fn flush_memtable<M: MemTable, B: StorageBackend>(
    memtable: &M,
    backend: &mut B,
    id: SsTableId,
    level: usize,
) -> (r: Result<SsTableMeta, Error>)
    requires
        memtable.inv(),
    ensures
        final(backend).reliable() == old(backend).reliable(),
        old(backend).reliable() ==> r is Ok,
        r matches Err(e) ==> B::reports(e),
        r matches Ok(meta) ==> exists|rows: Seq<RowView>|
            #![trigger sst_file(rows)]
            {
                &&& crate::types::rows_sorted(rows)
                &&& crate::types::rows_map(rows) == memtable.contents()
                &&& final(backend).contents() == old(backend).contents() + sst_file(rows)
                &&& meta_of(meta, id, level, rows)
            },
        r is Ok ==> final(backend).durable() == final(backend).contents(),
{
    let entries = memtable.iter();
    let ghost rows = entry_rows(entries@);
    let r = write_sstable(backend, id, level, entries);
    proof {
        if r is Ok {
            assert(sst_file(rows) == sst_file(rows));
        }
    }
    r
}

} // verus!
