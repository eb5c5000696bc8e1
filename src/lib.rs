//! Binary-tree shapes encoded as Dyck paths, and the search for the bit that
//! separates a node's left subtree from its right one.
pub mod model;
pub mod split;
pub mod bigint;
pub mod encoding;
pub mod wide;
pub mod catalog;
pub mod zipper;

pub use bigint::left_branch_big;
pub use catalog::all_trees;
pub use encoding::{BoundedDyck, Dyck, UnboundedDyck};
pub use split::left_branch_u64;
pub use wide::left_branch_u512;
