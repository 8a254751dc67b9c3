//! Sequence containers with verified contracts: a gap buffer for cursor-centred editing, a
//! binary search tree, a prefix tree, a stack, and two double-ended lists.

pub mod binary_search_tree;
pub mod data_structures;
pub mod gap_buffer;
pub mod linked_list1;
pub mod linked_list3;
pub mod linked_list5;
