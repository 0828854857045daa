//! The disk-resident B-tree index: nodes in encrypted pages, preemptive splits.
pub mod node;
pub mod manager;
