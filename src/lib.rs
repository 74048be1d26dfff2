//! The engine of a small version-control tool: a content-addressed object
//! store, a staging index, commits over flat trees, line and tree diffs,
//! and merges. A repository is held in memory as a [`repo::Repo`]; reading
//! it from disk and writing it back is left to the caller.
use vstd::prelude::*;

pub mod commands;
pub mod compression;
pub mod diff;
pub mod error;
pub mod hashing;
pub mod history;
pub mod ignore;
pub mod index;
pub mod merge;
pub mod objects;
pub mod repo;
pub mod store;
pub mod summary;
pub mod text;

verus! {

} // verus!
