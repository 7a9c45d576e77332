//! A small library for reading a directory subtree into an in-memory tree
//! and rendering that tree as indented text with box-drawing connectors,
//! in the style of the classic `tree` utility.
//!
//! The walk itself is split from the I/O: [`walk::DirWalk`] is a step
//! machine that filters and orders each directory level and assembles the
//! tree, while the caller performs the actual directory listings and
//! metadata lookups and feeds the results back in as events.

pub mod order;
pub mod render;
pub mod tree;
pub mod walk;
