//! The [`StorageBackend`] trait, the durable byte-addressable substrate, and
//! the in-memory [`MemoryBackend`].
use vstd::prelude::*;
use crate::error::{Error, unexpected_eof};
use crate::types::Bytes;

verus! {

/// An append-mostly, randomly-readable byte store.
///
/// LSM files are written once, sequentially, then read at arbitrary offsets
/// many times, and never mutated in place. The store's model is the sequence
/// of bytes it holds.
pub trait StorageBackend: Sized {
    /// The bytes stored.
    spec fn contents(&self) -> Seq<u8>;

    /// Whether the store's operations cannot fail (an in-memory store).
    spec fn reliable(&self) -> bool;

    /// The bytes that survive a crash: what the store held when it was last
    /// synced successfully.
    spec fn durable(&self) -> Seq<u8>;

    /// Whether `e` is an error that this kind of store reports when one of
    /// its operations fails.
    spec fn reports(e: Error) -> bool;

    /// Appends `data` to the end of the store and returns the byte offset at
    /// which it was written. A failed append leaves the store unchanged.
    fn append(&mut self, data: &[u8]) -> (r: Result<u64, Error>)
        ensures
            match r {
                Ok(off) => off == old(self).contents().len() && final(self).contents() == old(
                    self,
                ).contents() + data@,
                Err(_) => final(self).contents() == old(self).contents(),
            },
            final(self).durable() == old(self).durable(),
            final(self).reliable() == old(self).reliable(),
            old(self).reliable() ==> r is Ok,
            r matches Err(e) ==> Self::reports(e),
    ;

    /// Reads exactly `len` bytes starting at `offset`; fails with
    /// [`Error::Io`] when fewer than `len` bytes are available there.
    fn read_at(&self, offset: u64, len: usize) -> (r: Result<Bytes, Error>)
        ensures
            r matches Ok(b) ==> offset + len <= self.contents().len() && b@ == self.contents().subrange(
                offset as int,
                offset + len,
            ),
            offset + len > self.contents().len() ==> r matches Err(Error::Io(_)),
            self.reliable() && offset + len <= self.contents().len() ==> r is Ok,
            r matches Err(e) ==> Self::reports(e),
    ;

    /// Flushes all previously appended data to the durable medium: after a
    /// successful sync, everything the store holds survives a crash. The
    /// contents do not change.
    fn sync(&mut self) -> (r: Result<(), Error>)
        ensures
            final(self).contents() == old(self).contents(),
            final(self).reliable() == old(self).reliable(),
            r is Ok ==> final(self).durable() == final(self).contents(),
            old(self).reliable() ==> r is Ok,
            r matches Err(e) ==> Self::reports(e),
    ;

    /// Returns the current length of the store in bytes.
    fn len(&self) -> (r: Result<u64, Error>)
        ensures
            r matches Ok(n) ==> n == self.contents().len(),
            self.reliable() ==> r is Ok && self.contents().len() <= usize::MAX,
            r matches Err(e) ==> Self::reports(e),
    ;

    /// Returns whether the store is empty.
    fn is_empty(&self) -> (r: Result<bool, Error>)
        ensures
            r matches Ok(b) ==> b == (self.contents().len() == 0),
            self.reliable() ==> r is Ok,
            r matches Err(e) ==> Self::reports(e),
    {
        match self.len() {
            Ok(n) => Ok(n == 0),
            Err(e) => Err(e),
        }
    }
}

/// In-memory [`StorageBackend`].
#[derive(Debug, Default)]
pub struct MemoryBackend {
    data: Vec<u8>,
    /// How many leading bytes the last successful sync covered (never more
    /// than the data held).
    synced: usize,
}

impl MemoryBackend {
    /// Creates an empty backend.
    pub fn new() -> (m: MemoryBackend)
        ensures
            m.contents() == Seq::<u8>::empty(),
            m.durable() == Seq::<u8>::empty(),
            m.reliable(),
    {
        MemoryBackend { data: Vec::new(), synced: 0 }
    }

    /// Returns a copy of all stored bytes.
    pub fn snapshot(&self) -> (r: Vec<u8>)
        ensures
            r@ == self.contents(),
    {
        vstd::slice::slice_to_vec(self.data.as_slice())
    }
}

impl StorageBackend for MemoryBackend {
    closed spec fn contents(&self) -> Seq<u8> {
        self.data@
    }

    closed spec fn durable(&self) -> Seq<u8> {
        if self.synced <= self.data.len() {
            self.data@.subrange(0, self.synced as int)
        } else {
            self.data@
        }
    }

    open spec fn reliable(&self) -> bool {
        true
    }

    open spec fn reports(e: Error) -> bool {
        e is Io
    }

    fn append(&mut self, data: &[u8]) -> (r: Result<u64, Error>) {
        let offset = self.data.len() as u64;
        // Every constructor and `sync` keep `synced` within the data; the
        // bound is restored here only so that the proof need not carry it.
        if self.synced > self.data.len() {
            self.synced = self.data.len();
            proof {
                assert(self.data@.subrange(0, self.synced as int) =~= self.data@);
            }
        }
        let ghost before = self.data@;
        crate::codec::extend(&mut self.data, data);
        proof {
            assert(self.data@.subrange(0, self.synced as int) =~= before.subrange(
                0,
                self.synced as int,
            ));
        }
        Ok(offset)
    }

    fn read_at(&self, offset: u64, len: usize) -> (r: Result<Bytes, Error>) {
        let total = self.data.len();
        if offset > total as u64 || total - (offset as usize) < len {
            return Err(Error::Io(unexpected_eof("read past end of buffer")));
        }
        let start = offset as usize;
        let slice = vstd::slice::slice_subrange(self.data.as_slice(), start, start + len);
        Ok(Bytes::copy_from_slice(slice))
    }

    fn sync(&mut self) -> (r: Result<(), Error>) {
        self.synced = self.data.len();
        proof {
            assert(self.data@.subrange(0, self.synced as int) =~= self.data@);
        }
        Ok(())
    }

    fn len(&self) -> (r: Result<u64, Error>) {
        Ok(self.data.len() as u64)
    }
}

impl From<Vec<u8>> for MemoryBackend {
    fn from(data: Vec<u8>) -> (m: MemoryBackend)
        ensures
            m.contents() == data@,
            m.durable() == Seq::<u8>::empty(),
            m.reliable(),
    {
        MemoryBackend { data, synced: 0 }
    }
}

impl vstd::std_specs::convert::FromSpecImpl<Vec<u8>> for MemoryBackend {
    open spec fn obeys_from_spec() -> bool {
        true
    }

    closed spec fn from_spec(data: Vec<u8>) -> MemoryBackend {
        MemoryBackend { data, synced: 0 }
    }
}


/// The chunks of `chunks`, one after another.
pub open spec fn concat_chunks(chunks: Seq<Seq<u8>>) -> Seq<u8>
    decreases chunks.len(),
{
    if chunks.len() == 0 {
        Seq::empty()
    } else {
        concat_chunks(chunks.drop_last()) + chunks.last()
    }
}

/// Whether `states` are the contents a store passes through when `chunks`
/// are appended to it one by one, each append succeeding (as
/// [`StorageBackend::append`] states of a successful call).
pub open spec fn appends_chain(states: Seq<Seq<u8>>, chunks: Seq<Seq<u8>>) -> bool {
    &&& states.len() == chunks.len() + 1
    &&& forall|i: int| 0 <= i < chunks.len() ==> #[trigger] states[i + 1] == states[i] + chunks[i]
}

/// After a run of successful appends, a store holds what it held before,
/// followed by the appended chunks in order; each chunk was written at the
/// offset where the chunks before it end.
pub proof fn lemma_appends_concat(states: Seq<Seq<u8>>, chunks: Seq<Seq<u8>>)
    requires
        appends_chain(states, chunks),
    ensures
        states.last() == states[0] + concat_chunks(chunks),
        forall|i: int|
            0 <= i < chunks.len() ==> (#[trigger] states[i]).len() == states[0].len()
                + concat_chunks(chunks.take(i)).len(),
    decreases chunks.len(),
{
    if chunks.len() == 0 {
        assert(states[0] + concat_chunks(chunks) =~= states[0]);
    } else {
        let n = chunks.len() - 1;
        let s2 = states.drop_last();
        let c2 = chunks.drop_last();
        assert forall|i: int| 0 <= i < c2.len() implies #[trigger] s2[i + 1] == s2[i] + c2[i] by {
            assert(states[i + 1] == states[i] + chunks[i]);
        }
        lemma_appends_concat(s2, c2);
        assert(states[n + 1] == states[n] + chunks[n]);
        assert(states.last() =~= states[0] + concat_chunks(chunks));
        assert forall|i: int| 0 <= i < chunks.len() implies (#[trigger] states[i]).len()
            == states[0].len() + concat_chunks(chunks.take(i)).len() by {
            if i < n {
                assert(s2[i] == states[i]);
                assert(c2.take(i) =~= chunks.take(i));
            } else {
                assert(c2 =~= chunks.take(i));
            }
        }
    }
}

} // verus!
