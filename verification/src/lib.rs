//! Verified layout engine for a tiling window manager.
//!
//! The engine keeps a rooted tree of outputs, workspaces, split containers
//! and views. It offers structural edits on the node store, view insertion
//! and removal, focus, movement and resize actions — each preserving the
//! structural and geometric invariants of the tree — and a read-only nested
//! description of the whole tree for diagnostics.

pub mod container;
pub mod display;
pub mod graph_tree;
pub mod sync;
pub mod tree;

use vstd::prelude::*;

verus! {

} // verus!
