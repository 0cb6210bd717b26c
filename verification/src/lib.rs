//! AeroLSM: the building blocks of a log-structured merge-tree storage engine.
//!
//! The crate holds the value types shared by every layer, the ordered
//! in-memory write buffer (a skiplist), the byte codec with its CRC-32, the
//! write-ahead log and the sorted-string-table file formats, and the traits
//! through which these pieces are plugged together.
pub mod error;
pub mod types;
pub mod codec;
mod skiplist;
pub mod memtable;
pub mod storage;
pub mod wal_record;
pub mod wal_writer;
pub mod wal_reader;
pub mod sst_format;
pub mod compaction;
pub mod sst_writer;
pub mod sst_reader;

pub use compaction::{CompactionPolicy, CompactionTask, SsTableId, SsTableMeta};
pub use error::Error;
pub use memtable::{MemTable, SkipListMemTable};
pub use sst_format::{FOOTER_SIZE, Footer, IndexEntry};
pub use sst_reader::SsTableReader;
pub use sst_writer::{SsTableWriter, flush_memtable};
pub use storage::{MemoryBackend, StorageBackend};
pub use types::{Bytes, Lookup, MemtableEntry, SeqNum, ValueEntry};
pub use wal_reader::WalReader;
pub use wal_record::{WalOpKind, WalRecord};
pub use wal_writer::WalWriter;
