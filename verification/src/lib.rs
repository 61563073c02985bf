//! A Bitcask-style, log-structured, embedded key-value store.
//!
//! Keys and values are UTF-8 strings. Records live in append-only log
//! segments; an in-memory key directory maps each live key to the byte
//! range of its latest record. The segment contents are held by the
//! store itself as plain byte vectors, so every operation on them is
//! verified; persisting those bytes to files is left to the caller.

pub mod args;
pub mod commands;
pub mod format;
pub mod key_dir;
pub mod laws;
pub mod segment;
pub mod store;
