# tiny-lsm

A compact log-structured merge-tree key-value engine: memtables, write-ahead log, sorted string
tables, merge iterators, compaction, a manifest, and reads as of a timestamp.

`src/` is the engine, verified with Verus. It reads and writes byte strings, not files.

| module | what it is about |
| --- | --- |
| `key`, `model` | keys with timestamps, their order, runs of entries, and what a reader sees of versions |
| `codec` | numbers as big-endian bytes |
| `block`, `table` | blocks, tables, their bloom filters and their files |
| `wal`, `mem_table` | the log and the memtable |
| `iterators`, `lsm_iterator` | merging, concatenating, and hiding what a reader does not see |
| `lsm_storage` | the state of the engine, reads, writes, flushes and restarts |
| `compact` | which tables are merged, how, and what that keeps |
| `mvcc` | commit timestamps and transactions |
| `manifest` | the record of what happened to memtables and tables |
| `deps` | what is taken from other crates, and what is believed of it |

`app/` puts the engine on a directory: files, locks and threads.

Stored lengths of keys and values are 16 bits wide, and offsets in the file of a table 32 bits. The
engine takes larger ones and stores what is left of them; the laws that say that something is read
back leave them out. `lsm_storage::write::can_store` tells which batches are safe, and `app/` refuses
the others.

A compaction keeps what every reader gets, at each timestamp. It drops a mark of deletion only where
nothing lies below and no older version is left that the mark would hide.
