//! Drawing non-layered tidy trees in linear time: the shape of the trees, their
//! bookkeeping, the breadth-first mirror the sweeps run over, the flat arrays API, the walks
//! of the fringe helpers, the phase trace and the generator of random trees.
//!
//! Nodes live in an [`Arena`] and refer to one another by [`NodeId`]; what a node carries
//! besides its place in the tree is a payload chosen by the caller, which is where a layout
//! keeps the boxes and the coordinates.
use vstd::prelude::*;

pub mod arena;
pub mod bookkeeping;
pub mod corpus;
pub mod flat;
pub mod flatapi;
pub mod fringe;
pub mod phases;
pub mod trace;
pub mod treegen;

pub use arena::{Arena, Node, NodeId};
pub use flatapi::reify_flat_chunks;

verus! {

} // verus!
