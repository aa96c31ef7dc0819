//! MiniKVP: a minimal key-value store backed by an append-only log.
//!
//! The verified library holds the on-disk entry format (`io`), the log replay
//! that rebuilds the in-memory index and the engine state that every write
//! keeps equal to that replay (`engine`), the laws that relate them (`log`),
//! and the text helpers of the command line (`cli`). Reading and writing the
//! store file happens outside the library.

pub mod model;
pub mod strings;
pub mod io;
pub mod log;
pub mod index;
pub mod engine;
pub mod cli;
