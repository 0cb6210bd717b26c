//! The [`MemTable`] trait, the in-memory write buffer of the LSM, and its
//! default implementation [`SkipListMemTable`].
use vstd::prelude::*;
use crate::error::Error;
use crate::skiplist::SkipList;
use crate::types::{
    Bytes, Lookup, MemtableEntry, RowView, SeqNum, ValueEntry, lemma_rows_map, put_slot, rows_map,
    rows_size, rows_sorted, usize_range,
};

verus! {

/// The rows described by memtable entries.
pub open spec fn entry_rows(entries: Seq<MemtableEntry>) -> Seq<RowView> {
    entries.map_values(|e: MemtableEntry| e@)
}

/// An in-memory, ordered, mutable buffer that absorbs writes before they are
/// flushed to immutable on-disk SSTables.
///
/// Its content is a map from key to slot: the sequence number of the winning
/// write and its value (`None` for a tombstone). Writes are last-writer-wins
/// by sequence number, and a delete is the write of a tombstone, which shadows
/// older values living in SSTables.
pub trait MemTable: Sized {
    /// The map from key to (sequence number, value or `None` for a tombstone).
    spec fn contents(&self) -> Map<Seq<u8>, (u64, Option<Seq<u8>>)>;

    /// The implementation's well-formedness.
    spec fn inv(&self) -> bool;

    /// Inserts (or overwrites) `key` with `value` at sequence number `seq`;
    /// a write whose `seq` is below the stored one for the key is discarded.
    fn insert(&mut self, key: Bytes, value: Bytes, seq: SeqNum) -> (r: Result<(), Error>)
        requires
            old(self).inv(),
        ensures
            final(self).inv(),
            r is Ok ==> final(self).contents() == put_slot(
                old(self).contents(),
                key@,
                seq,
                Some(value@),
            ),
            r is Err ==> final(self).contents() == old(self).contents(),
    ;

    /// Records a deletion of `key` at sequence number `seq` by writing a
    /// tombstone.
    fn delete(&mut self, key: Bytes, seq: SeqNum) -> (r: Result<(), Error>)
        requires
            old(self).inv(),
        ensures
            final(self).inv(),
            r is Ok ==> final(self).contents() == put_slot(old(self).contents(), key@, seq, None),
            r is Err ==> final(self).contents() == old(self).contents(),
    ;

    /// Looks `key` up: `Some(Found(v))` for a live value, `Some(Deleted)` for a
    /// tombstone, `None` if the key was never written.
    fn get(&self, key: &[u8]) -> (r: Result<Option<Lookup>, Error>)
        requires
            self.inv(),
        ensures
            r matches Ok(res) ==> match res {
                Some(l) => self.contents().contains_key(key@) && l@ == self.contents()[key@].1,
                None => !self.contents().contains_key(key@),
            },
    ;

    /// The number of distinct keys stored (tombstones included).
    fn len(&self) -> (r: usize)
        requires
            self.inv(),
        ensures
            r == self.contents().len(),
    ;

    /// Whether the table holds no entries.
    fn is_empty(&self) -> (r: bool)
        requires
            self.inv(),
        ensures
            r == (self.contents().len() == 0),
    {
        self.len() == 0
    }

    /// An estimate, in bytes, of the user data held.
    fn approximate_size(&self) -> (r: usize)
        requires
            self.inv(),
    ;

    /// The latest entry for each key, in ascending key order.
    fn iter(&self) -> (r: Vec<MemtableEntry>)
        requires
            self.inv(),
        ensures
            rows_sorted(entry_rows(r@)),
            rows_map(entry_rows(r@)) == self.contents(),
    ;
}

/// The default [`MemTable`]: an ordered skiplist.
pub struct SkipListMemTable {
    list: SkipList,
}

impl SkipListMemTable {
    /// The rows held, in ascending key order.
    pub closed spec fn rows(&self) -> Seq<RowView> {
        self.list.rows()
    }

    /// Creates a new, empty MemTable.
    pub fn new() -> (m: Self)
        ensures
            m.inv(),
            m.contents() == Map::<Seq<u8>, (u64, Option<Seq<u8>>)>::empty(),
            m.rows() == Seq::<RowView>::empty(),
    {
        SkipListMemTable { list: SkipList::new() }
    }
}

impl MemTable for SkipListMemTable {
    closed spec fn contents(&self) -> Map<Seq<u8>, (u64, Option<Seq<u8>>)> {
        self.list.view()
    }

    closed spec fn inv(&self) -> bool {
        self.list.wf()
    }

    fn insert(&mut self, key: Bytes, value: Bytes, seq: SeqNum) -> (r: Result<(), Error>)
        ensures
            r is Ok,
    {
        self.list.insert(key, ValueEntry::Value(value), seq);
        Ok(())
    }

    fn delete(&mut self, key: Bytes, seq: SeqNum) -> (r: Result<(), Error>)
        ensures
            r is Ok,
    {
        self.list.insert(key, ValueEntry::Tombstone, seq);
        Ok(())
    }

    fn get(&self, key: &[u8]) -> (r: Result<Option<Lookup>, Error>)
        ensures
            r is Ok,
    {
        match self.list.get(key) {
            Some(entry) => Ok(Some(Lookup::from(entry))),
            None => Ok(None),
        }
    }

    fn len(&self) -> (r: usize) {
        proof {
            self.list.lemma_model();
            lemma_rows_map(self.list.rows());
        }
        self.list.entry_count()
    }

    fn approximate_size(&self) -> (r: usize)
        ensures
            r as int == rows_size(self.rows()) as int % usize_range(),
    {
        self.list.byte_size()
    }

    fn iter(&self) -> (r: Vec<MemtableEntry>)
        ensures
            entry_rows(r@) == self.rows(),
    {
        let out = self.list.snapshot();
        proof {
            self.list.lemma_model();
            assert(entry_rows(out@) =~= self.list.rows());
        }
        out
    }
}

impl Default for SkipListMemTable {
    fn default() -> (m: Self)
        ensures
            m.inv(),
            m.contents() == Map::<Seq<u8>, (u64, Option<Seq<u8>>)>::empty(),
    {
        Self::new()
    }
}

} // verus!
