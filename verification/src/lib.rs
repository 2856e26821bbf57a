//! A log-structured key-value storage engine.
//!
//! Records live in append-only segment files.  A segment manager routes writes
//! to the newest segment, reads segments newest first, and merges old segments
//! when too many pile up.  Two segment strategies are provided: one with a full
//! in-memory hash index, and one whose file is sorted by key and carries a
//! sparse index.
//!
//! The engine works on file images held in memory; reading them from and
//! writing them to a directory is left to the caller.

pub mod error;


pub mod in_memory_db;
pub mod kv_file;
pub mod kvdb;
pub mod segmented_files_db;
pub mod segmented_logs_with_indices_db;
pub mod sstable;
pub mod utils;
