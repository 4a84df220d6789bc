//! A growable buffer for plain values that keeps its elements as raw bytes in
//! a block obtained from a pluggable allocator.

pub mod alloc_api;
pub mod plain;
pub mod slots;
pub mod raw;
pub mod pod;
pub mod laws;
pub mod region;
