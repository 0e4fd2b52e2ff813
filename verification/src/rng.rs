//! Randomness for the evolutionary search.
//!
//! A single `StdRng` is threaded by explicit `&mut` reference through every
//! stochastic operation. The events that drive evolution are enumerated, and
//! a table of rational probabilities decides how often each event happens.
//! Nothing is promised of a random draw beyond its range: every caller is
//! verified for every outcome.

use vstd::prelude::*;

verus! {

#[verifier::external_type_specification]
#[verifier::external_body]
pub struct ExStdRng(rand::rngs::StdRng);

/// The stochastic events of one evolution round.
#[derive(Clone, Copy, Debug, PartialEq, Eq, Structural)]
pub enum EvolutionEvent {
    MutateWeight,
    MutateConnection,
    MutateBisection,
    PickLEQ,
    KeepDisabled,
    NewDisabled,
}

/// A probability expressed as a rational: `num` chances in `den`.
#[derive(Clone, Copy, Debug, PartialEq, Eq, Structural)]
pub struct Prob {
    pub num: u32,
    pub den: u32,
}

impl Prob {
    /// A well-formed probability lies in [0, 1].
    pub open spec fn wf(self) -> bool {
        0 < self.den && self.num <= self.den
    }
}

/// A static table holding one rational probability per evolution event.
#[derive(Clone, Copy, Debug, PartialEq, Eq, Structural)]
pub struct ProbStatic {
    pub mutate_weight: Prob,
    pub mutate_connection: Prob,
    pub mutate_bisection: Prob,
    pub pick_l_eq: Prob,
    pub keep_disabled: Prob,
    pub new_disabled: Prob,
}

impl ProbStatic {
    pub open spec fn wf(self) -> bool {
        self.mutate_weight.wf() && self.mutate_connection.wf() && self.mutate_bisection.wf()
            && self.pick_l_eq.wf() && self.keep_disabled.wf() && self.new_disabled.wf()
    }

    pub open spec fn spec_prob_of(self, event: EvolutionEvent) -> Prob {
        match event {
            EvolutionEvent::MutateWeight => self.mutate_weight,
            EvolutionEvent::MutateConnection => self.mutate_connection,
            EvolutionEvent::MutateBisection => self.mutate_bisection,
            EvolutionEvent::PickLEQ => self.pick_l_eq,
            EvolutionEvent::KeepDisabled => self.keep_disabled,
            EvolutionEvent::NewDisabled => self.new_disabled,
        }
    }

    pub fn prob_of(&self, event: EvolutionEvent) -> (r: Prob)
        ensures
            r == self.spec_prob_of(event),
    {
        match event {
            EvolutionEvent::MutateWeight => self.mutate_weight,
            EvolutionEvent::MutateConnection => self.mutate_connection,
            EvolutionEvent::MutateBisection => self.mutate_bisection,
            EvolutionEvent::PickLEQ => self.pick_l_eq,
            EvolutionEvent::KeepDisabled => self.keep_disabled,
            EvolutionEvent::NewDisabled => self.new_disabled,
        }
    }
}

impl Default for ProbStatic {
    /// The default probability table of the search.
    fn default() -> (r: Self)
        ensures
            r.wf(),
    {
        ProbStatic {
            mutate_weight: Prob { num: 8u32, den: 10u32 },
            mutate_connection: Prob { num: 15u32, den: 100u32 },
            mutate_bisection: Prob { num: 8u32, den: 100u32 },
            pick_l_eq: Prob { num: 1u32, den: 2u32 },
            keep_disabled: Prob { num: 3u32, den: 4u32 },
            new_disabled: Prob { num: 1u32, den: 100u32 },
        }
    }
}

/// An `StdRng` bound to a probability table: the one stochastic handle that
/// every mutation, crossover and selection draws from.
pub struct ProbBinding {
    pub probs: ProbStatic,
    pub rng: rand::rngs::StdRng,
}

impl ProbBinding {
    pub open spec fn wf(self) -> bool {
        self.probs.wf()
    }

    pub fn new(probs: ProbStatic, rng: rand::rngs::StdRng) -> (r: Self)
        requires
            probs.wf(),
        ensures
            r.wf(),
            r.probs == probs,
    {
        ProbBinding { probs, rng }
    }

    /// Whether the event happens this time, with its tabled probability.
    pub fn happens(&mut self, event: EvolutionEvent) -> (r: bool)
        requires
            old(self).wf(),
        ensures
            final(self).wf(),
            final(self).probs == old(self).probs,
    {
        let p = self.probs.prob_of(event);
        rng_ratio(&mut self.rng, p.num, p.den)
    }

    /// Replaces the probability of one event.
    pub fn update(&mut self, event: EvolutionEvent, p: Prob)
        requires
            old(self).wf(),
            p.wf(),
        ensures
            final(self).wf(),
            final(self).probs.spec_prob_of(event) == p,
            forall|e: EvolutionEvent|
                e != event ==> final(self).probs.spec_prob_of(e) == old(self).probs.spec_prob_of(
                    e,
                ),
    {
        match event {
            EvolutionEvent::MutateWeight => {
                self.probs.mutate_weight = p;
            },
            EvolutionEvent::MutateConnection => {
                self.probs.mutate_connection = p;
            },
            EvolutionEvent::MutateBisection => {
                self.probs.mutate_bisection = p;
            },
            EvolutionEvent::PickLEQ => {
                self.probs.pick_l_eq = p;
            },
            EvolutionEvent::KeepDisabled => {
                self.probs.keep_disabled = p;
            },
            EvolutionEvent::NewDisabled => {
                self.probs.new_disabled = p;
            },
        }
    }

    /// A uniformly random index below `n`.
    pub fn below(&mut self, n: usize) -> (r: usize)
        requires
            n > 0,
        ensures
            r < n,
            final(self).probs == old(self).probs,
    {
        rng_below(&mut self.rng, n)
    }

    /// Whether an event of the given rational probability happens this
    /// time.
    pub fn ratio(&mut self, num: u32, den: u32) -> (r: bool)
        requires
            0 < den,
            num <= den,
        ensures
            final(self).probs == old(self).probs,
    {
        rng_ratio(&mut self.rng, num, den)
    }

    /// A fresh standard-normal sample, as a binary64 bit pattern.
    pub fn standard_normal(&mut self) -> (r: u64)
        ensures
            final(self).probs == old(self).probs,
    {
        sample_standard_normal(&mut self.rng)
    }
}

/// Relies on rand's `Rng::random_range` over `0..n`: a uniformly random
/// value of the range, which is never empty here.
#[verifier::external_body]
fn rng_below(rng: &mut rand::rngs::StdRng, n: usize) -> (r: usize)
    requires
        n > 0,
    ensures
        r < n,
{
    rand::Rng::random_range(rng, 0..n)
}

/// Relies on rand's `Rng::random_ratio`: true with probability
/// `num / den`; `den` is positive and `num <= den`, so the call cannot
/// panic. Nothing is promised of the outcome.
#[verifier::external_body]
fn rng_ratio(rng: &mut rand::rngs::StdRng, num: u32, den: u32) -> bool
    requires
        0 < den,
        num <= den,
{
    rand::Rng::random_ratio(rng, num, den)
}

/// Relies on rand_distr's `StandardNormal`: a fresh sample, returned as its
/// bit pattern. A standard-normal draw is always finite, so the
/// `serde_json::Number` that carries the sample (and thereby selects the
/// double-precision sampler) is always built.
#[verifier::external_body]
fn sample_standard_normal(rng: &mut rand::rngs::StdRng) -> u64 {
    let sample = rand::Rng::sample(rng, rand_distr::StandardNormal);
    match serde_json::Number::from_f64(sample) {
        Some(_) => sample.to_bits(),
        None => 0,
    }
}

/// Relies on rand's `SeedableRng::from_os_rng`: a fresh operating-system
/// seeded generator.
#[verifier::external_body]
pub fn default_rng() -> rand::rngs::StdRng {
    <rand::rngs::StdRng as rand::SeedableRng>::from_os_rng()
}

/// Relies on rand's `SeedableRng::seed_from_u64`: a deterministic generator
/// for reproducible runs.
#[verifier::external_body]
pub fn seeded_rng(seed: u64) -> rand::rngs::StdRng {
    <rand::rngs::StdRng as rand::SeedableRng>::seed_from_u64(seed)
}

} // verus!
