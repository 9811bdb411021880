//! Internals the workbench builds on.
pub mod tree_adapter;
