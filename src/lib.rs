//! A persistent key-value store for string keys and values, kept as an
//! append-only log of records in numbered segment files. This crate holds
//! its verified core: the record format, the in-memory index, replay of
//! segments on open, the decisions that follow each operation, and the
//! planning of compaction.

pub mod codec;
pub mod engine;
pub mod err;
pub mod index;
pub mod laws;
pub mod pointer;
pub mod segments;
