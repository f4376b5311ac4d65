//! The core of a log-structured merge-tree storage engine: block and log formats, iterator
//! merging, reader watermarks, compaction strategies and the bookkeeping of the storage state.
//!
//! Reading and writing files, locking and background threads are left to the embedding
//! program, which hands plain values in and takes plain values back.

pub mod block;
pub mod calls;
pub mod checksum;
pub mod codec;
pub mod compact;
pub mod double;
pub mod hash;
pub mod ids;
pub mod iterators;
pub mod key;
pub mod lsm_storage;
pub mod manifest;
pub mod mem_table;
pub mod mvcc;
pub mod rounding;
pub mod search;
pub mod skiplist;
pub mod table;
pub mod wal;
