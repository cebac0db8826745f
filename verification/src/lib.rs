//! An embedded, single-writer, persistent ordered key-value store in the
//! log-structured merge-tree style.
//!
//! The library holds the whole storage engine as verified logic over
//! in-memory file images: the block codec, the write-ahead log, the
//! memtable, the sorted-table builder and reader, and the engine that
//! merges the tiers.  A thin unverified shell is expected to move the
//! byte images between this library and the file system.
use vstd::prelude::*;

pub mod codec;
pub mod database;
pub mod laws;
pub mod memtable;
pub mod model;
pub mod names;
pub mod order;
pub mod sstable;
pub mod wal;

pub use database::CompactionPolicy;
pub use database::Database;
pub use database::FileOp;
pub use database::SstFile;
pub use memtable::MemTable;
pub use sstable::SSTableBuilder;
pub use sstable::SSTableIterator;
pub use sstable::SSTableReader;
pub use sstable::SearchResult;
pub use wal::WALIterator;
pub use wal::WAL;

verus! {

/// The error kinds the engine surfaces: damaged persisted state.
#[derive(Clone, Copy, Debug, PartialEq, Eq, Structural)]
pub enum DbError {
    Corruption,
}

} // verus!
