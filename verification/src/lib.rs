//! Tree engine of a content-addressed version-control library.
//!
//! The crate provides a prefix index over object identifiers
//! (`IdIndex`, `HexPrefix`, `IdPrefixContext`), immutable directory
//! snapshots backed by an in-memory content-addressed `Store`, a
//! matcher-driven recursive diff between two snapshots, and a
//! recursive three-way merge with algebraic conflict simplification.

pub mod hex;
pub mod repo_path;
pub mod backend;
pub mod hex_prefix;
pub mod id_prefix;
pub mod matchers;
pub mod files;
pub mod store;
pub mod tree;
