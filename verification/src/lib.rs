//! Metadata core of a version-control repository: object ids, reference
//! names, a reference store with atomic transactions, and merge-base
//! resolution over the commit graph.

pub mod error;
pub mod graph;
pub mod merge_base;
pub mod object_id;
pub mod reflog;
pub mod refname;
pub mod refs;
pub mod repository;
pub mod shallow;
pub mod store;
pub mod time;
pub mod walk;
