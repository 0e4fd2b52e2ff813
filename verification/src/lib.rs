//! A NEAT-style neuroevolution kernel for continuous-time recurrent neural
//! networks.
//!
//! Genomes carry innovation-tagged weighted connections; evolution proceeds
//! by structural mutation, topology-aware crossover under historical
//! innovation markings, compatibility-based speciation and per-species
//! reproduction budgeting. A genome compiles into a dense matrix form that an
//! integrator can run.

pub mod crossover;
pub mod genome;
pub mod fp;
pub mod network;
pub mod rng;
pub mod specie;

use vstd::prelude::*;

verus! {

/// The failures of the evolutionary operators.
#[derive(Clone, Copy, Debug, PartialEq, Eq, Structural)]
pub enum EvolutionError {
    /// Every (from, to) pair of the genome is already connected.
    Saturated,
    /// There is no connection to bisect.
    NoConnections,
    /// Reproduction was asked of a species with too few members.
    TooFewMembers,
    /// A retained share outside (0, 1].
    OutOfRange,
    /// A freshly assigned innovation id did not lie above the genome's
    /// existing ids: the registry was not set up for this generation.
    StaleRegistry,
}

} // verus!

pub use genome::NodeKind;
pub use genome::node::NonBNode;
pub use genome::recurrent::CTRConnection;
pub use genome::recurrent::CTRGenome;
pub use genome::recurrent::CTRNode;
pub use network::Ctrnn;
pub use rng::EvolutionEvent;
pub use rng::Prob;
pub use rng::ProbBinding;
pub use rng::ProbStatic;
pub use specie::InnoGen;
pub use specie::Specie;
pub use specie::SpecieRepr;
