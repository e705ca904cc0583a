//! A single-user, local version-control engine: a content-addressed object
//! store, a commit graph, a staging area and the working-tree reconciliation
//! that ties them together. Every operation is a verified transition on
//! in-memory state; reading and writing the repository directory is left to
//! the caller.

pub mod blob;
pub mod checkout;
pub mod commit;
pub mod digest;
pub mod error;
pub mod index;
pub mod merge;
pub mod paths;
pub mod refs;
pub mod repo;
pub mod snapshot;
pub mod sort;
pub mod strmap;
pub mod worktree;
