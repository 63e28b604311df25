//! An embedded, ordered key/value store built on a log-structured merge tree:
//! the byte formats (record log, sorted tables, manifest edits), the memtable,
//! and the bookkeeping of versions, each with its contract.

pub mod coding;
pub mod comparator;
pub mod ikey;
pub mod error;
pub mod block_format;
pub mod block_builder;
pub mod block;
pub mod format;
pub mod table_builder;
pub mod table;
pub mod memdb;
pub mod metadata;
pub mod version_edit;
pub mod compaction;
pub mod filename;
pub mod version;
pub mod version_set;
pub mod log_record;
pub mod batch;
pub mod db;
pub mod configure;
pub mod table_cache;
pub mod flush;
