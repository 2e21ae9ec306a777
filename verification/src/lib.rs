//! Storage-engine core of an embedded key-value store: an on-disk B+tree
//! whose nodes are fixed-size pages encoded as flat byte buffers, mutated
//! through copy-on-write page replacement.
//!
//! The layers, leaf-first:
//! - `bytes`: little-endian integer fields of the page format;
//! - `order`: lexicographic byte-string order used for keys;
//! - `node`: the decoded form of a page and its well-formedness;
//! - `codec`: the page binary format, encoding and decoding;
//! - `navigator`: read-only child selection and key lookup within one node;
//! - `planner`: splitting an oversized node, deciding and performing merges;
//! - `store`: the abstract page store and an in-memory implementation;
//! - `btree`: the copy-on-write tree mutator and its public surface.
//!
//! A physical backing medium (file, memory map) is an external collaborator:
//! it implements the `PageStore` trait and persists pages in the byte layout
//! that `codec` defines.

pub mod btree;
pub mod bytes;
pub mod codec;
pub mod errors;
pub mod navigator;
pub mod node;
pub mod order;
pub mod planner;
pub mod store;
