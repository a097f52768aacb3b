//! Classic container algorithms with machine-checked contracts: a binary heap
//! driven by a caller-supplied ordering, a binary search tree, an adjacency-list
//! graph with breadth-first traversal, and a singly linked list with sorted
//! merge.

pub mod bst;
pub mod graph;
pub mod heap;
pub mod list;
pub mod order;
