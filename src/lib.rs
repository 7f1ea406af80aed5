//! A binary search tree over `i32` values with parent links and a
//! movable cursor. Nodes live in an arena owned by the tree and link to each
//! other by index: a node's children hang from it in the arena, and the
//! parent link only names the node above, so no node keeps another alive.
//! A cursor is an index into the arena that may name nothing; it can walk
//! the links, search downward, and insert below its node.

pub mod arena;
pub mod cursor;
pub mod node;
pub mod render;
pub mod shape;
pub mod tree;

pub use cursor::{BSTNodeCursor, CursorError, NodeCursor, Step};
pub use node::Node;
pub use tree::{BinarySearchTree, NotFound};
