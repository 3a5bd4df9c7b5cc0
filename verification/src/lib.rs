//! A minimal content-addressable object store, modeled after the internal
//! plumbing of a version-control system.  Objects come in three kinds
//! (blob, tree, commit); each is serialized to a byte format, identified by
//! the lowercase-hex digest of that serialization, and persisted through a
//! compression envelope.  This crate holds the verified core: the object
//! codec, the hashing and compression envelope, identifier-prefix
//! resolution, and the deterministic assembly of tree snapshots.

pub mod builder;
pub mod codec;
pub mod dec;
pub mod hex;
pub mod objects;
pub mod resolver;
pub mod scan;
pub mod store;
