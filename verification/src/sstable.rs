//! Sorted string tables: the block codec, the table builder and the table reader.

pub mod block;
pub mod block_builder;
pub mod block_format;
pub mod block_handle;
pub mod block_iter;
pub mod cache;
pub mod checksum;
pub mod compression;
pub mod footer;
pub mod options;
pub mod result;
pub mod table_builder;
pub mod table_format;
pub mod table_iter;
pub mod table_reader;
