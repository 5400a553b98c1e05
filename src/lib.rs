//! An in-memory key-value store partitioned into column families.
//!
//! Each column family is an ordered map from string keys to string values,
//! ordered byte-lexicographically by key, supporting point reads, writes,
//! deletes and range scans.

pub mod keys;
pub mod table;
pub mod family;
pub mod error;
pub mod memory_storage;
pub mod storage;
pub mod laws;
pub mod proto;
pub mod service;
