//! A content-addressable object store in the manner of a version-control system's storage
//! layer. Objects (blobs, trees, commits, tags) are written in a canonical byte form
//! `"<kind> <len>\0<payload>"`, named by the SHA-1 digest of that form, and stored zlib
//! compressed. Trees snapshot a directory with entries in a fixed order; commits link a tree
//! to an optional parent.
//!
//! The functions here compute; reading and writing files is left to the caller, which hands
//! in what a file holds and persists what comes back.

pub mod codec;
pub mod commit_tree;
pub mod ls_tree;
pub mod objects;
pub mod primitives;
pub mod snapshot;
pub mod store;
pub mod tree;
