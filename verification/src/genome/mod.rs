//! The genome model: typed nodes and innovation-tagged weighted connections.

pub mod node;
pub mod recurrent;

use vstd::prelude::*;

verus! {

/// The role of a node inside a network.
///
/// Sensory nodes read input, action nodes produce output, internal nodes are
/// hidden, and static nodes yield a fixed value regardless of input.
#[derive(Clone, Copy, Debug, PartialEq, Eq, Structural)]
pub enum NodeKind {
    Sensory,
    Action,
    Internal,
    Static,
}

} // verus!
