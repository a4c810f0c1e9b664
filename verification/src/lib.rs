//! External-memory sorting of newline-delimited unsigned 64-bit integers.
//!
//! The input is split into fixed-size batches, each batch is sorted and
//! spilled to a numbered partition, and the partitions are then merged into
//! a single fully sorted output through a min-priority queue keyed on
//! (value, stream index).  This crate holds the verified core: batching,
//! sorting, merging, the decimal line format, and the partition naming
//! scheme.  File handling around it stays with the caller.

pub mod merge;
pub mod order;
pub mod sorter;
pub mod spill;
pub mod text;
