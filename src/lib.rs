//! An unbalanced binary search tree with insertion and in-order traversal,
//! verified with Verus.
pub mod node;
pub mod laws;
pub mod order;
pub mod tree;

pub use node::TreeNode;
pub use tree::BinaryTree;
