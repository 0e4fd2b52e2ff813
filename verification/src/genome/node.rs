//! A node flavor without mutable parameters.

use crate::genome::NodeKind;
use crate::fp::R_ONE;
use crate::fp::R_ZERO;
use vstd::prelude::*;

verus! {

/// A node carrying no parameters apart from the fixed value of its static
/// variant (held as a binary64 bit pattern).
#[derive(Clone, Copy, Debug, PartialEq, Eq, Structural)]
pub enum NonBNode {
    Sensory,
    Action,
    Internal,
    Static(u64),
}

impl NonBNode {
    /// A new node of the given kind; a static node holds the value 1.0.
    pub fn new(kind: NodeKind) -> (r: Self)
        ensures
            r.kind_spec() == kind,
            kind == NodeKind::Static ==> r == NonBNode::Static(R_ONE),
    {
        match kind {
            NodeKind::Sensory => NonBNode::Sensory,
            NodeKind::Action => NonBNode::Action,
            NodeKind::Internal => NonBNode::Internal,
            NodeKind::Static => NonBNode::Static(R_ONE),
        }
    }

    pub open spec fn kind_spec(self) -> NodeKind {
        match self {
            NonBNode::Sensory => NodeKind::Sensory,
            NonBNode::Action => NodeKind::Action,
            NonBNode::Internal => NodeKind::Internal,
            NonBNode::Static(_) => NodeKind::Static,
        }
    }

    /// The kind of node this is.
    pub fn kind(&self) -> (r: NodeKind)
        ensures
            r == self.kind_spec(),
    {
        match self {
            NonBNode::Sensory => NodeKind::Sensory,
            NonBNode::Action => NodeKind::Action,
            NonBNode::Internal => NodeKind::Internal,
            NonBNode::Static(_) => NodeKind::Static,
        }
    }

    /// This flavor has no mutable parameters, so two nodes never differ.
    pub fn param_diff(&self, _other: &Self) -> (r: u64)
        ensures
            r == R_ZERO,
    {
        R_ZERO
    }
}

} // verus!
