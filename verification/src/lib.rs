//! Dictionary data structures implemented with an AVL tree (nearly balanced
//! binary search tree), verified with Verus.

pub mod map;
pub mod set;
pub mod tree;

pub use map::AvlTreeMap;
pub use map::set::AvlTreeSet;
