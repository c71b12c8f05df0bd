//! Classic data structures and graph algorithms, each with a contract that Verus proves
//! of its code: union-find, a binary max-heap, shortest distances, lowest common
//! ancestors by binary lifting, the layout of a segment tree, and the longest common
//! subsequence and edit distance of two sequences.

pub mod ancestry;
pub mod bounded;
pub mod disjoint_set;
pub mod graph;
pub mod graph_view;
pub mod heap;
pub mod lca;
pub mod order;
pub mod powers;
pub mod reachability;
pub mod segment_tree;
pub mod sequence;
mod traversal;
