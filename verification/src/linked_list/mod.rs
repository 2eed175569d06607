//! Linked lists.

pub mod mutable_linked_list;
