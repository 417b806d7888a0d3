//! An ordered in-memory write buffer for a log-structured storage engine.
pub mod keys;
pub mod mem_table;

pub use mem_table::{MemTable, MemTableEntry};
