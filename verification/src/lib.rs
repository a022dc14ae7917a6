//! Duplicate-file detection engine.
//!
//! The library finds groups of byte-for-byte identical files in a directory
//! tree in two phases: files are first partitioned into buckets by exact byte
//! size, and only buckets holding two or more files are confirmed by a content
//! digest. Traversal and file reading are performed by the caller, which hands
//! the engine plain path/size records and raw bytes; everything the engine
//! decides is verified.

pub mod digest;
pub mod scanner;
pub mod selection;
