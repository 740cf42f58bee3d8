//! A log-structured merge-tree key-value storage engine: sorted string
//! tables with prefix-compressed, checksummed blocks, a write-ahead log, a
//! memtable, a manifest and a multi-level catalog of tables.

pub mod coding;
pub mod compaction;
pub mod manifest;
pub mod memtable;
pub mod options;
pub mod parser;
pub mod record;
pub mod request;
pub mod response;
pub mod sstable;
pub mod sstable_reader;
pub mod store;
pub mod util;
pub mod wal;
