//! An ordered binary search tree with insertion, an in-order rendering and a
//! lazy in-order iterator.

pub mod cursor;
pub mod laws;
pub mod order;
pub mod render;
pub mod sorted;
pub mod tree;

pub use cursor::BstIter;
pub use tree::Bst;
