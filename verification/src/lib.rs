//! A binary tree that grows breadth-first: each inserted value is attached at
//! the first missing child slot in level order, left to right, so a tree built
//! from a sequence always has the complete (left-filled per level) shape.

mod pos;
mod tree;

pub use tree::BinaryTree;
pub use tree::TreeError;
pub use tree::complete_node_value;
