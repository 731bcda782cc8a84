//! An embedded, versioned key-value store: a graph of branches and versions,
//! as in a version control system, laid over flat, ordered maps from bytes
//! to bytes.
//!
//! - [`versioned::mapx_raw`] holds the versioned map: the model of its seven
//!   tables, the store that is proved against the model, and the laws that
//!   hold of the model across calls.
//! - [`basic`] holds what the tables are made of: ordered keys, the ordered
//!   map in memory, and the raw map that lives in a backend.
//! - [`common`] holds identifiers and error kinds, the encodings of keys,
//!   the signature of what a reader sees, and the backend: where a key lies
//!   in it, and a backend in memory.
//!
//! Every executable function of this crate carries a contract that Verus
//! proves. One contract is taken on trust: that of `String::from_utf8` of
//! the standard library, on which strings as keys rest.

pub mod basic;
pub mod common;
pub mod versioned;
