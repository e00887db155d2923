//! A peripheral-side UI core: an addressable element tree, a page manager
//! that tracks dirtied nodes and drains them as incremental diffs, and a
//! small controller state machine that maps inbound input events to tree
//! mutations and outbound updates.

pub mod controller;
pub mod element;
pub mod laws;
pub mod message;
pub mod numfmt;
pub mod page;
pub mod path;
pub mod tree;
