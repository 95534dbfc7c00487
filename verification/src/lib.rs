//! Verified core of an IndexedDB-backed document store adapter: revision
//! identifiers, revision hashing, the decisions taken on writes, the layout of
//! the records written to the object stores, and the selections made by the
//! read queries.

pub mod revision;
pub mod digest;
pub mod body;
pub mod tree;
pub mod store;
pub mod edits;
pub mod order;
pub mod query;
