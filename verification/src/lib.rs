//! A persistent, authenticated AVL map: every write yields a new version that
//! shares its untouched subtrees with the versions before it, and every version
//! reduces to one content hash.

pub mod api;
pub mod balance;
pub mod basics;
pub mod codec;
pub mod durable;
pub mod find;
pub mod hash_serialize;
pub mod laws;
pub mod lru;
pub mod remove;
pub mod resolve;
pub mod shape;
pub mod store;
pub mod tree;
