//! The [`CompactionPolicy`] trait and its supporting metadata types.
use vstd::prelude::*;
use crate::types::Bytes;

verus! {

/// A stable identifier for a single on-disk SSTable file.
#[derive(Clone, Copy, Debug, PartialEq, Eq, PartialOrd, Ord, Hash)]
pub struct SsTableId(
    /// The raw, monotonically assigned file number.
    pub u64,
);

/// Lightweight metadata describing one SSTable, without its payload.
///
/// A compaction policy reasons purely over this metadata (sizes, key ranges,
/// levels) to decide what to compact; it never reads the key/value blocks.
#[derive(Clone, Debug, PartialEq, Eq)]
pub struct SsTableMeta {
    /// Unique identifier of the SSTable.
    pub id: SsTableId,
    /// The LSM level this SSTable currently resides on (0 == freshest).
    pub level: usize,
    /// Smallest user key contained in the SSTable (inclusive).
    pub smallest_key: Bytes,
    /// Largest user key contained in the SSTable (inclusive).
    pub largest_key: Bytes,
    /// Approximate on-disk size in bytes.
    pub size_bytes: u64,
    /// Number of entries (including tombstones) in the SSTable.
    pub entry_count: u64,
}

/// A unit of compaction work selected by a [`CompactionPolicy`]: the inputs
/// (by id) and the level their merged output should be written to.
#[derive(Clone, Debug, PartialEq, Eq)]
pub struct CompactionTask {
    /// SSTables to be merged together.
    pub inputs: Vec<SsTableId>,
    /// The destination level for the merged output.
    pub output_level: usize,
}

/// A pluggable strategy that decides which SSTables to merge, and when.
///
/// Policies are pure, synchronous decision functions: given the current shape
/// of the tree they return the next [`CompactionTask`], or `None` if nothing
/// is worth doing right now.
pub trait CompactionPolicy {
    /// A short, human-readable name for diagnostics and metrics.
    fn name(&self) -> &str;

    /// Inspects the per-level layout (`levels[i]` lists the SSTables on level
    /// `i`) and returns the next compaction to run, or `None`.
    fn pick_compaction(&self, levels: &[Vec<SsTableMeta>]) -> Option<CompactionTask>;
}

} // verus!
