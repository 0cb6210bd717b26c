//! Write-ahead-log replay.
use vstd::prelude::*;
use crate::error::{Error, corruption};
use crate::storage::StorageBackend;
use crate::wal_record::{
    WalRecord, WalRecordView, decode_record, parse_record, parse_records, parse_wal,
    validate_header,
};

verus! {

/// The views of decoded records.
pub open spec fn record_views(rs: Seq<WalRecord>) -> Seq<WalRecordView> {
    rs.map_values(|r: WalRecord| r@)
}

/// The part of a store's bytes that one read can return: all of them, or the
/// first `usize::MAX` when there are more.
pub open spec fn readable(s: Seq<u8>) -> Seq<u8> {
    if s.len() > usize::MAX {
        s.take(usize::MAX as int)
    } else {
        s
    }
}

/// WAL replay reader.
pub struct WalReader<B: StorageBackend> {
    backend: B,
}

impl<B: StorageBackend> WalReader<B> {
    /// The backend.
    pub closed spec fn store(&self) -> B {
        self.backend
    }

    /// Creates a reader over `backend`.
    pub fn new(backend: B) -> (r: Self)
        ensures
            r.store() == backend,
    {
        WalReader { backend }
    }

    /// Replays all records in order: the records of the log held by the
    /// backend, as `parse_wal` reads them. A failure is either a corruption
    /// found in the bytes or an error the backend reported.
    pub fn replay(&self) -> (r: Result<Vec<WalRecord>, Error>)
        ensures
            r matches Ok(rs) ==> parse_wal(readable(self.store().contents())) == Some(
                record_views(rs@),
            ),
            self.store().reliable() ==> readable(self.store().contents()) == self.store().contents(),
            self.store().reliable() ==> (r is Ok <==> parse_wal(self.store().contents()) is Some),
            self.store().reliable() ==> (r matches Err(e) ==> e is Corruption),
            r matches Err(e) ==> e is Corruption || B::reports(e),
    {
        let n = match self.backend.len() {
            Ok(n) => n,
            Err(e) => return Err(e),
        };
        let len: usize = if n > usize::MAX as u64 {
            usize::MAX
        } else {
            n as usize
        };
        if len == 0 {
            proof {
                assert(readable(self.backend.contents()) =~= Seq::<u8>::empty());
                assert(record_views(Seq::<WalRecord>::empty()) =~= Seq::<WalRecordView>::empty());
            }
            return Ok(Vec::new());
        }
        let bytes = match self.backend.read_at(0, len) {
            Ok(b) => b,
            Err(e) => return Err(e),
        };
        let data = bytes.as_slice();
        proof {
            assert(data@ =~= readable(self.backend.contents()));
        }
        let mut offset = validate_header(data)?;
        let mut records: Vec<WalRecord> = Vec::new();
        while offset < data.len()
            invariant
                offset <= data@.len(),
                data@ == readable(self.backend.contents()),
                self.backend.reliable() ==> self.backend.contents().len() <= usize::MAX,
                parse_wal(data@) == match parse_records(data@, offset as int) {
                    Some(rest) => Some(record_views(records@) + rest),
                    None => None::<Seq<WalRecordView>>,
                },
            decreases data@.len() - offset,
        {
            let ghost before = offset as int;
            let ghost views = record_views(records@);
            let rec = decode_record(data, &mut offset)?;
            proof {
                assert(parse_record(data@, before) == Some((rec@, offset as int)));
                let rest = parse_records(data@, offset as int);
                assert(record_views(records@.push(rec)) =~= views.push(rec@));
                if let Some(rs) = rest {
                    assert(views + (seq![rec@] + rs) =~= views.push(rec@) + rs);
                }
            }
            records.push(rec);
        }
        if offset != data.len() {
            return Err(corruption("wal trailing garbage"));
        }
        proof {
            assert(record_views(records@) + Seq::<WalRecordView>::empty() =~= record_views(records@));
        }
        Ok(records)
    }

    /// Gives the backing store back.
    pub fn into_backend(self) -> (b: B)
        ensures
            b == self.store(),
    {
        self.backend
    }
}

} // verus!
