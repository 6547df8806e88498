//! A log-structured merge-tree key-value engine: memtables, write-ahead log, sorted-string
//! tables, merge iterators, compaction and multi-version reads.
pub mod block;
pub mod codec;
pub mod compact;
pub mod deps;
pub mod error;
pub mod iterators;
pub mod key;
pub mod lsm_iterator;
pub mod lsm_storage;
pub mod manifest;
pub mod mem_table;
pub mod model;
pub mod mvcc;
pub mod table;
pub mod wal;
