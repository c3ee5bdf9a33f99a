//! Core storage engine of an on-disk, single-file relational database:
//! a page-oriented store with a bounded-memory buffer cache, an
//! extendible hash index and a B+ tree index that operate through it.
//!
//! The indexes use a fixed schema: four-byte keys and values for the
//! hash index, four-byte keys paired with row identifiers for the B+
//! tree. The engine is single-threaded; callers wanting to share a
//! [`disk_management::buffer_pool::BufferPool`] across threads wrap it
//! in a mutex of their own, and the embedding program loads the backing
//! file into the page store and saves it back.

pub mod b_plus_tree;
pub mod common;
pub mod disk_management;
pub mod extendible_hashing;
pub mod table;
