//! Append-only write-ahead-log writer.
use vstd::prelude::*;
use crate::error::Error;
use crate::storage::StorageBackend;
use crate::types::SeqNum;
use crate::wal_record::{
    WalOpKind, WalRecordView, encode_record, lemma_wal_roundtrip, parse_wal, record_encodable,
    record_view_bytes, records_bytes, wal_header, wal_header_bytes,
};

verus! {

/// Append-only WAL writer. The log header is written before the first record.
pub struct WalWriter<B: StorageBackend> {
    backend: B,
    initialized: bool,
    /// What the backend held when the writer was made.
    base: Ghost<Seq<u8>>,
    /// The records appended so far.
    written: Ghost<Seq<WalRecordView>>,
}

impl<B: StorageBackend> WalWriter<B> {
    /// The backend holds what it held at the start, then, once the header is
    /// written, the header and the records appended so far.
    pub closed spec fn inv(&self) -> bool {
        if self.initialized {
            self.backend.contents() == self.base@ + wal_header_bytes() + records_bytes(self.written@)
        } else {
            self.backend.contents() == self.base@ && self.written@ == Seq::<WalRecordView>::empty()
        }
    }

    /// The backend.
    pub closed spec fn store(&self) -> B {
        self.backend
    }

    /// Whether the header has been written.
    pub closed spec fn header_written(&self) -> bool {
        self.initialized
    }

    /// What the backend held when the writer was made.
    pub closed spec fn base(&self) -> Seq<u8> {
        self.base@
    }

    /// The records appended so far.
    pub closed spec fn written(&self) -> Seq<WalRecordView> {
        self.written@
    }

    /// Creates a writer over `backend`.
    pub fn new(backend: B) -> (w: Self)
        ensures
            w.inv(),
            w.store() == backend,
            !w.header_written(),
            w.base() == backend.contents(),
            w.written() == Seq::<WalRecordView>::empty(),
    {
        let ghost base = backend.contents();
        WalWriter { backend, initialized: false, base: Ghost(base), written: Ghost(Seq::empty()) }
    }

    /// Writes the header unless it was written already.
    fn ensure_header(&mut self) -> (r: Result<(), Error>)
        requires
            old(self).inv(),
        ensures
            final(self).inv(),
            final(self).base() == old(self).base(),
            final(self).written() == old(self).written(),
            final(self).store().reliable() == old(self).store().reliable(),
            final(self).store().durable() == old(self).store().durable(),
            r is Ok ==> final(self).header_written(),
            r is Ok ==> final(self).store().contents() == old(self).store().contents() + (
            if old(self).header_written() {
                Seq::<u8>::empty()
            } else {
                wal_header_bytes()
            }),
            r is Err ==> final(self).store().contents() == old(self).store().contents()
                && final(self).header_written() == old(self).header_written(),
            old(self).store().reliable() ==> r is Ok,
            r matches Err(e) ==> B::reports(e),
    {
        if self.initialized {
            proof {
                assert(self.backend.contents() =~= self.backend.contents() + Seq::<u8>::empty());
            }
            return Ok(());
        }
        let header = wal_header();
        match self.backend.append(header.as_slice()) {
            Ok(_) => {},
            Err(e) => return Err(e),
        }
        self.initialized = true;
        proof {
            assert(records_bytes(self.written@) =~= Seq::<u8>::empty());
            assert(self.backend.contents() =~= self.base@ + wal_header_bytes() + records_bytes(
                self.written@,
            ));
        }
        Ok(())
    }

    /// Appends the record `rec`, whose bytes are `bytes`.
    fn append_record(&mut self, bytes: &[u8], rec: Ghost<WalRecordView>) -> (r: Result<u64, Error>)
        requires
            old(self).inv(),
            bytes@ == record_view_bytes(rec@),
        ensures
            final(self).inv(),
            final(self).base() == old(self).base(),
            final(self).store().reliable() == old(self).store().reliable(),
            final(self).store().durable() == old(self).store().durable(),
            match r {
                Ok(off) => {
                    &&& final(self).written() == old(self).written().push(rec@)
                    &&& off == old(self).store().contents().len() + (if old(
                        self,
                    ).header_written() {
                        0
                    } else {
                        wal_header_bytes().len()
                    })
                    &&& final(self).store().contents() == old(self).store().contents() + (
                    if old(self).header_written() {
                        Seq::<u8>::empty()
                    } else {
                        wal_header_bytes()
                    }) + bytes@
                    &&& final(self).header_written()
                },
                Err(_) => final(self).written() == old(self).written(),
            },
            old(self).store().reliable() ==> r is Ok,
            r matches Err(e) ==> B::reports(e),
    {
        match self.ensure_header() {
            Ok(()) => {},
            Err(e) => return Err(e),
        }
        let r = self.backend.append(bytes);
        match r {
            Ok(off) => {
                self.written = Ghost(self.written@.push(rec@));
                proof {
                    let ws = self.written@;
                    assert(ws.drop_last() =~= old(self).written@);
                    assert(ws.last() == rec@);
                    assert(self.backend.contents() =~= self.base@ + wal_header_bytes()
                        + records_bytes(self.written@));
                }
                Ok(off)
            },
            Err(e) => Err(e),
        }
    }

    /// Appends a put record.
    pub fn append_put(&mut self, seq: SeqNum, key: &[u8], value: &[u8]) -> (r: Result<u64, Error>)
        requires
            old(self).inv(),
        ensures
            final(self).inv(),
            final(self).base() == old(self).base(),
            final(self).store().reliable() == old(self).store().reliable(),
            final(self).store().durable() == old(self).store().durable(),
            match r {
                Ok(off) => {
                    &&& final(self).written() == old(self).written().push(
                        WalRecordView { seq, kind: WalOpKind::Put, key: key@, value: Some(value@) },
                    )
                    &&& final(self).store().contents() == old(self).store().contents() + (
                    if old(self).header_written() {
                        Seq::<u8>::empty()
                    } else {
                        wal_header_bytes()
                    }) + record_view_bytes(
                        WalRecordView { seq, kind: WalOpKind::Put, key: key@, value: Some(value@) },
                    )
                    &&& final(self).header_written()
                    &&& off == old(self).store().contents().len() + (if old(
                        self,
                    ).header_written() {
                        0
                    } else {
                        wal_header_bytes().len()
                    })
                },
                Err(_) => final(self).written() == old(self).written(),
            },
            old(self).store().reliable() ==> r is Ok,
            r matches Err(e) ==> B::reports(e),
    {
        let record = encode_record(seq, WalOpKind::Put, key, Some(value));
        self.append_record(
            record.as_slice(),
            Ghost(WalRecordView { seq, kind: WalOpKind::Put, key: key@, value: Some(value@) }),
        )
    }

    /// Appends a delete record.
    pub fn append_delete(&mut self, seq: SeqNum, key: &[u8]) -> (r: Result<u64, Error>)
        requires
            old(self).inv(),
        ensures
            final(self).inv(),
            final(self).base() == old(self).base(),
            final(self).store().reliable() == old(self).store().reliable(),
            final(self).store().durable() == old(self).store().durable(),
            match r {
                Ok(off) => {
                    &&& final(self).written() == old(self).written().push(
                        WalRecordView { seq, kind: WalOpKind::Delete, key: key@, value: None },
                    )
                    &&& final(self).store().contents() == old(self).store().contents() + (
                    if old(self).header_written() {
                        Seq::<u8>::empty()
                    } else {
                        wal_header_bytes()
                    }) + record_view_bytes(
                        WalRecordView { seq, kind: WalOpKind::Delete, key: key@, value: None },
                    )
                    &&& final(self).header_written()
                    &&& off == old(self).store().contents().len() + (if old(
                        self,
                    ).header_written() {
                        0
                    } else {
                        wal_header_bytes().len()
                    })
                },
                Err(_) => final(self).written() == old(self).written(),
            },
            old(self).store().reliable() ==> r is Ok,
            r matches Err(e) ==> B::reports(e),
    {
        let record = encode_record(seq, WalOpKind::Delete, key, None);
        self.append_record(
            record.as_slice(),
            Ghost(WalRecordView { seq, kind: WalOpKind::Delete, key: key@, value: None }),
        )
    }

    /// Flushes the backing store: once it succeeds, everything written so
    /// far, header and records, survives a crash.
    pub fn sync(&mut self) -> (r: Result<(), Error>)
        requires
            old(self).inv(),
        ensures
            final(self).inv(),
            final(self).base() == old(self).base(),
            final(self).written() == old(self).written(),
            final(self).header_written() == old(self).header_written(),
            final(self).store().contents() == old(self).store().contents(),
            final(self).store().reliable() == old(self).store().reliable(),
            r is Ok ==> final(self).store().durable() == final(self).store().contents(),
            old(self).store().reliable() ==> r is Ok,
            r matches Err(e) ==> B::reports(e),
    {
        self.backend.sync()
    }

    /// The backing store.
    pub fn backend(&self) -> (b: &B)
        ensures
            *b == self.store(),
    {
        &self.backend
    }

    /// A log written by one writer over an empty store replays, with
    /// `parse_wal`, to exactly the records appended, in order, as long as each
    /// encodes without loss.
    pub proof fn lemma_log_replays_written(&self)
        requires
            self.inv(),
            self.base() == Seq::<u8>::empty(),
            forall|i: int|
                0 <= i < self.written().len() ==> record_encodable(#[trigger] self.written()[i]),
        ensures
            parse_wal(self.store().contents()) == Some(self.written()),
    {
        if self.initialized {
            assert forall|i: int| 0 <= i < self.written@.len() implies record_encodable(
                #[trigger] self.written@[i],
            ) by {
                assert(self.written()[i] == self.written@[i]);
            }
            lemma_wal_roundtrip(self.written@);
            assert(self.base@ + wal_header_bytes() + records_bytes(self.written@) =~= wal_header_bytes()
                + records_bytes(self.written@));
        } else {
            assert(self.backend.contents() =~= Seq::<u8>::empty());
        }
    }

    /// Gives the backing store back.
    pub fn into_backend(self) -> (b: B)
        ensures
            b == self.store(),
    {
        self.backend
    }
}

} // verus!
