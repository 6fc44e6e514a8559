//! What the optimizer asks of a candidate representation.

use vstd::prelude::*;
use crate::config::{Config, Goal};

verus! {

/// A kind of candidate that the optimizer can evolve.
pub trait Specimen: Sized {
    /// The configurations that this representation can run under.
    spec fn admits(cfg: &Config) -> bool;

    /// The candidate is well formed under the configuration.
    spec fn fits(&self, cfg: &Config) -> bool;

    /// The fitness last computed for the candidate.
    spec fn cached_fitness(&self) -> usize;

    /// The cached fitness is that of the candidate as it is now.
    spec fn evaluated(&self) -> bool;

    /// The direction in which this representation's fitness improves.
    spec fn goal() -> Goal;

    /// `child` is what breeding may make of the family.
    spec fn bred_from(child: Self, family: Seq<Self>, cfg: &Config) -> bool;

    /// `after` is what mutation may make of `before`.
    spec fn mutated_from(after: Self, before: Self, cfg: &Config) -> bool;

    /// `after` is what evaluation may make of `before`.
    spec fn reevaluated_from(after: Self, before: Self, cfg: &Config) -> bool;

    /// `candidate` is what a first population may hold.
    spec fn spawned(candidate: Self, cfg: &Config) -> bool;

    /// Whether this representation can run under the configuration.
    fn supports(cfg: &Config) -> (ok: bool)
        ensures
            ok == Self::admits(cfg),
    ;

    /// The direction in which the fitness improves.
    fn direction() -> (g: Goal)
        ensures
            g == Self::goal(),
    ;

    /// The fitness last computed.
    fn fitness(&self) -> (f: usize)
        ensures
            f == self.cached_fitness(),
    ;

    /// Computes the candidate's fitness anew; the candidate may improve
    /// itself on the way.
    fn reevaluate(&mut self, cfg: &Config, rng: &mut rand::XorShiftRng)
        requires
            Self::admits(cfg),
            old(self).fits(cfg),
        ensures
            final(self).fits(cfg),
            final(self).evaluated(),
            Self::reevaluated_from(*final(self), *old(self), cfg),
    ;

    /// Perturbs each candidate with the configured probability.
    fn mutate(generation: &mut [Self], cfg: &Config, rng: &mut rand::XorShiftRng)
        requires
            Self::admits(cfg),
            forall|k: int| 0 <= k < old(generation)@.len() ==> old(generation)@[k].fits(cfg),
        ensures
            final(generation)@.len() == old(generation)@.len(),
            forall|k: int| 0 <= k < final(generation)@.len() ==> final(generation)@[k].fits(cfg),
            forall|k: int|
                0 <= k < final(generation)@.len() ==> Self::mutated_from(
                    #[trigger] final(generation)@[k],
                    old(generation)@[k],
                    cfg,
                ),
    ;

    /// Recombines one family of parents into a child.
    fn breed(parents: &[Self], cfg: &Config, rng: &mut rand::XorShiftRng) -> (child: Self)
        requires
            Self::admits(cfg),
            parents@.len() == cfg.parents_per_family,
            forall|k: int| 0 <= k < parents@.len() ==> parents@[k].fits(cfg),
        ensures
            child.fits(cfg),
            Self::bred_from(child, parents@, cfg),
    ;

    /// The first population, every candidate evaluated.
    fn initial(cfg: &Config, rng: &mut rand::XorShiftRng) -> (population: Vec<Self>)
        requires
            Self::admits(cfg),
        ensures
            population@.len() == cfg.initial_population(),
            forall|k: int|
                0 <= k < population@.len() ==> population@[k].fits(cfg)
                    && population@[k].evaluated() && Self::spawned(population@[k], cfg),
    ;
}

} // verus!
