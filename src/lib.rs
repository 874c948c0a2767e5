//! A log-structured event store: events, their on-disk record format, the
//! write-ahead log, the memtable, sorted tables and their merge, recovery,
//! the storage engine, and the decisions of a cluster node.

pub mod cluster;
pub mod codec;
pub mod common;
pub mod config;
pub mod engine;
pub mod errors;
pub mod bloom;
pub mod event;
pub mod memtable;
pub mod recovery;
pub mod request;
pub mod sstable;
pub mod wal;
