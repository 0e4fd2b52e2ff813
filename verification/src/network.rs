//! The dense form of a compiled genome, ready for a continuous-time
//! integrator.

use vstd::prelude::*;

verus! {

/// A compiled network: one state, bias and time-constant entry per node
/// (all binary64 bit patterns), a dense node-by-node weight matrix in
/// row-major order, and the index ranges of the sensory and action nodes.
#[derive(Debug)]
pub struct Ctrnn {
    pub y: Vec<u64>,
    pub theta: Vec<u64>,
    pub tau: Vec<u64>,
    pub w: Vec<u64>,
    pub sensory: (usize, usize),
    pub action: (usize, usize),
}

} // verus!
