//! A small key-value storage engine: fixed-size pages, a page cache with
//! least-recently-used eviction, a single-leaf B-tree node stored in a page,
//! a write-ahead log codec and transaction bookkeeping.
pub mod storage;
pub mod btree;
pub mod wal;
pub mod db;
pub mod tx;
