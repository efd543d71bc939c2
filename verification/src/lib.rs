//! The operation store of a replicated document: run-length encoded id sets
//! and maps, the per-subtree index built on them, the visibility window and
//! the queries that walk the operation tree.

pub mod actor_map;
pub mod fx_map;
pub mod indexed_cache;
pub mod op_tree;
pub mod opid_map;
pub mod opid_set;
pub mod protocol;
pub mod query;
pub mod rle_map;
pub mod rle_set;
pub mod types;
