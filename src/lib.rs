//! An in-memory B-tree of `i32` keys with split-on-insert and
//! borrow/merge-on-delete rebalancing, verified against a set model.

pub mod node;
pub mod tree;
pub mod laws;

pub use node::BTreeNode;
pub use tree::{BTree, DegreeError, NodeSnapshot};
