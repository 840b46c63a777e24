//! A content-addressed object store for a filesystem subtree.
//!
//! Every regular file becomes a blob object addressed by the SHA-1 hash of
//! its contents, and every directory becomes a tree object addressed by the
//! hash of a canonical binary encoding of its (name, kind, child-hash)
//! entries.  The encoding is deterministic: entries are sorted by a total
//! order before serialization, so identical directory contents always hash
//! identically, independent of enumeration order.

pub mod builder;
pub mod hash;
pub mod hex;
pub mod store;
pub mod tree;
