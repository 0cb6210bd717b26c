# aerolsm building blocks, verified with Verus

The library crate (`src/`) holds the parts of a log-structured merge-tree
storage engine, each with a contract that Verus proves:

- `types` — byte buffers, value entries, lookups, memtable rows; the
  lexicographic order on byte strings and the row model of an ordered table.
- `skiplist`, `memtable` — the `MemTable` trait and `SkipListMemTable`, an
  arena skiplist whose rows stay sorted and whose writes are
  last-writer-wins by sequence number.
- `codec` — little-endian integers, length-prefixed byte strings, CRC-32.
- `storage` — the `StorageBackend` trait (contents, and the durable prefix a
  successful sync makes of them) and the in-memory `MemoryBackend`.
- `wal_record`, `wal_writer`, `wal_reader` — the write-ahead-log format, its
  writer and its replay; a log replays to exactly the records appended.
- `sst_format`, `sst_writer`, `sst_reader` — the sorted-string-table format,
  its writer (and memtable flush) and its reader; a table reads back the rows
  it was written from.
- `compaction` — SSTable metadata and the `CompactionPolicy` trait.

`app/` adds a file-backed store: it loads a file into a `MemoryBackend` for the
verified code and appends what that code wrote back to the file.

`tests/` runs the library on concrete values.
