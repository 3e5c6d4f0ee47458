//! A versioned, authenticated key-value store: a sparse Merkle tree with
//! per-version value history, inclusion/exclusion proofs, a column-family
//! organized in-memory backend, and a left-right style concurrency front-end
//! built on an operation log with explicit publish semantics.

pub mod assoc;
pub mod backend;
pub mod column_family;
pub mod db_adapter;
pub mod digest;
pub mod domain;
pub mod errors;
pub mod index_map;
pub mod jmt;
pub mod node;
pub mod op;
pub mod pebble_db;
pub mod tree_hash;
pub mod tree_wrapper;
pub mod trie;
