//! The generation controller: families, one evolutionary step, and the run
//! loop that tracks the best candidate seen.
//!
//! What a step and a run may produce is stated over the generations
//! themselves: a generation follows another where its survivors are a
//! selection of it and every child was bred from a family of the
//! survivors, mutated and evaluated; a run's result is the strongest
//! candidate of a lineage of such generations.

use vstd::prelude::*;
use vstd::seq_lib::lemma_multiset_commutative;
use crate::config::Config;
use crate::selection::{
    cost_of, filter_strongest, is_selection_of, lemma_lowest_cost_attained,
    lemma_lowest_cost_bounds, lemma_lowest_cost_ceiling, lemma_same_members,
    lemma_selection_keeps_lowest, lemma_selection_keeps_the_strongest, lowest_cost,
};
use crate::specimen::Specimen;
use crate::board::Board;
use crate::placement::lemma_probe_fits;
use crate::stream::{draw_below, reseed, unseeded, usable_seed};

verus! {

/// Every candidate of the population is well formed and evaluated.
pub open spec fn all_ready<S: Specimen>(pop: Seq<S>, cfg: &Config) -> bool {
    forall|k: int| 0 <= k < pop.len() ==> (#[trigger] pop[k]).fits(cfg) && pop[k].evaluated()
}

/// Every candidate of the population is well formed.
pub open spec fn all_fit<S: Specimen>(pop: Seq<S>, cfg: &Config) -> bool {
    forall|k: int| 0 <= k < pop.len() ==> (#[trigger] pop[k]).fits(cfg)
}

/// Moving the candidate at `i` from a population to the end of a family,
/// the population's last candidate taking its place, keeps all candidates.
proof fn lemma_draw_keeps_candidates<T>(pool: Seq<T>, family: Seq<T>, i: int)
    requires
        0 <= i < pool.len(),
    ensures
        (pool.update(i, pool.last()).drop_last() + family.push(pool[i])).to_multiset() == (pool
            + family).to_multiset(),
{
    broadcast use vstd::seq_lib::group_to_multiset_ensures;
    broadcast use vstd::multiset::group_multiset_axioms;

    let moved = pool.update(i, pool.last());
    let rest = moved.drop_last();
    assert(rest =~= moved.remove(moved.len() - 1));
    assert(moved.to_multiset() == pool.to_multiset().insert(pool.last()).remove(pool[i]));
    assert(rest.to_multiset() == moved.to_multiset().remove(pool.last()));
    lemma_multiset_commutative(rest, family.push(pool[i]));
    lemma_multiset_commutative(pool, family);
    assert(pool.to_multiset().count(pool[i]) > 0);
    assert(pool.to_multiset().count(pool.last()) > 0) by {
        assert(pool[pool.len() - 1] == pool.last());
    }
    assert(rest.to_multiset().add(family.push(pool[i]).to_multiset()) =~= pool.to_multiset().add(
        family.to_multiset(),
    ));
}

/// One pick for each parent, each naming a position among the candidates
/// still in the pool: the first among `len`, the next among `len - 1`, and
/// so on.
pub open spec fn picks_fit(picks: Seq<usize>, len: nat) -> bool {
    &&& picks.len() <= len
    &&& forall|k: int| 0 <= k < picks.len() ==> #[trigger] picks[k] < len - k
}

/// The pool after the picks: each pick takes the candidate at its position
/// out, and the pool's last candidate moves into the gap.
pub open spec fn left_by<T>(pool: Seq<T>, picks: Seq<usize>) -> Seq<T>
    decreases picks.len(),
{
    if picks.len() == 0 {
        pool
    } else {
        left_by(pool.update(picks[0] as int, pool.last()).drop_last(), picks.drop_first())
    }
}

/// The candidates that the picks take out of the pool, in the order they
/// are picked.
pub open spec fn drawn_by<T>(pool: Seq<T>, picks: Seq<usize>) -> Seq<T>
    decreases picks.len(),
{
    if picks.len() == 0 {
        Seq::<T>::empty()
    } else {
        seq![pool[picks[0] as int]] + drawn_by(
            pool.update(picks[0] as int, pool.last()).drop_last(),
            picks.drop_first(),
        )
    }
}

/// Moves the picked candidates from the population into the family.
pub fn draw_family<S: Specimen>(species: &mut Vec<S>, picks: &[usize], family: &mut Vec<S>)
    requires
        old(family)@.len() == 0,
        picks_fit(picks@, old(species)@.len()),
    ensures
        final(species)@ == left_by(old(species)@, picks@),
        final(family)@ == drawn_by(old(species)@, picks@),
        final(family)@.len() == picks@.len(),
        final(species)@.len() == old(species)@.len() - picks@.len(),
        (final(species)@ + final(family)@).to_multiset() == old(species)@.to_multiset(),
{
    let n = picks.len();
    let mut k: usize = 0;
    assert(species@ + family@ =~= species@);
    assert(picks@.skip(0) =~= picks@);
    assert(family@ + drawn_by(species@, picks@.skip(0)) =~= drawn_by(old(species)@, picks@));
    while k < n
        invariant
            k <= n,
            n == picks@.len(),
            picks_fit(picks@, old(species)@.len()),
            family@.len() == k,
            species@.len() == old(species)@.len() - k,
            (species@ + family@).to_multiset() == old(species)@.to_multiset(),
            left_by(species@, picks@.skip(k as int)) == left_by(old(species)@, picks@),
            family@ + drawn_by(species@, picks@.skip(k as int)) == drawn_by(
                old(species)@,
                picks@,
            ),
        decreases n - k,
    {
        let ghost pool = species@;
        let ghost got = family@;
        let next = picks[k];
        proof {
            lemma_draw_keeps_candidates(pool, got, next as int);
            let rest = picks@.skip(k as int);
            assert(rest[0] == next);
            assert(rest.drop_first() =~= picks@.skip(k + 1));
        }
        let s = species.swap_remove(next);
        family.push(s);
        proof {
            let rest = picks@.skip(k as int);
            assert(drawn_by(pool, rest) == seq![pool[next as int]] + drawn_by(
                species@,
                picks@.skip(k + 1),
            ));
            assert(family@ + drawn_by(species@, picks@.skip(k + 1)) =~= got + drawn_by(
                pool,
                rest,
            ));
        }
        k += 1;
    }
    assert(picks@.skip(n as int) =~= Seq::<usize>::empty());
    assert(family@ + Seq::<S>::empty() =~= family@);
}

/// `family` and what is left of the pool are what some picks make of it.
pub open spec fn is_family_of<T>(family: Seq<T>, left: Seq<T>, pool: Seq<T>, nparents: nat) -> bool {
    exists|picks: Seq<usize>|
        picks.len() == nparents && picks_fit(picks, pool.len()) && left == #[trigger] left_by(
            pool,
            picks,
        ) && family == drawn_by(pool, picks)
}

/// Draws `nparents` candidates from the population, without replacement,
/// into the family.
pub fn make_family<S: Specimen>(
    species: &mut Vec<S>,
    nparents: usize,
    family: &mut Vec<S>,
    rng: &mut rand::XorShiftRng,
)
    requires
        old(family)@.len() == 0,
        nparents <= old(species)@.len(),
    ensures
        is_family_of(final(family)@, final(species)@, old(species)@, nparents as nat),
        final(family)@.len() == nparents,
        final(species)@.len() == old(species)@.len() - nparents,
        (final(species)@ + final(family)@).to_multiset() == old(species)@.to_multiset(),
{
    let len = species.len();
    let mut picks: Vec<usize> = Vec::new();
    let mut drawn: usize = 0;
    while drawn < nparents
        invariant
            drawn <= nparents,
            nparents <= len,
            picks@.len() == drawn,
            forall|k: int| 0 <= k < drawn ==> #[trigger] picks@[k] < len - k,
        decreases nparents - drawn,
    {
        let next = draw_below(rng, len - drawn);
        picks.push(next);
        drawn += 1;
    }
    draw_family(species, picks.as_slice(), family);
}

/// The size of the generation that follows one of `len` candidates.
pub open spec fn next_size(len: int, cfg: &Config) -> int {
    if cfg.kill_parents {
        cfg.children_per_cycle as int
    } else if len <= cfg.population_capacity {
        len + cfg.children_per_cycle
    } else {
        cfg.population_capacity + cfg.children_per_cycle
    }
}

/// `child` was bred from a family of the retained candidates, then mutated,
/// then evaluated.
pub open spec fn is_offspring<S: Specimen>(child: S, kept: Seq<S>, cfg: &Config) -> bool {
    exists|family: Seq<S>, bred: S, mutated: S|
        family.len() == cfg.parents_per_family && family.to_multiset().subset_of(
            kept.to_multiset(),
        ) && #[trigger] S::bred_from(bred, family, cfg) && #[trigger] S::mutated_from(
            mutated,
            bred,
            cfg,
        ) && S::reevaluated_from(child, mutated, cfg)
}

/// The children of one generation: as many as configured, each ready, each
/// an offspring of the retained candidates.
pub open spec fn is_brood<S: Specimen>(children: Seq<S>, kept: Seq<S>, cfg: &Config) -> bool {
    &&& children.len() == cfg.children_per_cycle
    &&& all_ready(children, cfg)
    &&& forall|k: int| 0 <= k < children.len() ==> is_offspring(#[trigger] children[k], kept, cfg)
}

/// `survivors` are, in some order, what selection retains of `pool`, and
/// `children` are their brood.
pub open spec fn is_step<S: Specimen>(
    survivors: Seq<S>,
    children: Seq<S>,
    pool: Seq<S>,
    cfg: &Config,
) -> bool {
    exists|kept: Seq<S>| #[trigger]
        is_selection_of(kept, pool, cfg.population_capacity as int) && survivors.to_multiset()
            == kept.to_multiset() && is_brood(children, kept, cfg)
}

/// `next` is a generation that may follow `pool`: the children alone where
/// parents are killed, else the survivors followed by the children.
pub open spec fn follows<S: Specimen>(next: Seq<S>, pool: Seq<S>, cfg: &Config) -> bool {
    exists|survivors: Seq<S>, children: Seq<S>| #[trigger]
        is_step(survivors, children, pool, cfg) && next == if cfg.kill_parents {
            children
        } else {
            survivors + children
        }
}

/// A population whose candidates all stand in another one is ready where
/// the other is.
proof fn lemma_members_ready<S: Specimen>(part: Seq<S>, whole: Seq<S>, cfg: &Config)
    requires
        all_ready(whole, cfg),
        forall|x: S| part.contains(x) ==> whole.contains(x),
    ensures
        all_ready(part, cfg),
{
    assert forall|k: int| 0 <= k < part.len() implies (#[trigger] part[k]).fits(cfg)
        && part[k].evaluated() by {
        assert(part.contains(part[k]));
        let m = choose|m: int| 0 <= m < whole.len() && whole[m] == part[k];
        assert(whole[m].fits(cfg));
    }
}

/// A population that holds every candidate of another one has a lowest
/// cost that is no higher.
proof fn lemma_lowest_cost_of_members<S: Specimen>(part: Seq<S>, whole: Seq<S>)
    requires
        forall|x: S| part.contains(x) ==> whole.contains(x),
    ensures
        lowest_cost(whole) <= lowest_cost(part),
{
    if part.len() > 0 {
        let k = lemma_lowest_cost_attained(part);
        assert(part.contains(part[k]));
        let m = choose|m: int| 0 <= m < whole.len() && whole[m] == part[k];
        lemma_lowest_cost_bounds(whole, m);
    } else {
        lemma_lowest_cost_ceiling(whole);
    }
}

/// The members of the second of two joined populations are members of the
/// whole.
proof fn lemma_part_is_subset<T>(a: Seq<T>, b: Seq<T>)
    ensures
        b.to_multiset().subset_of((a + b).to_multiset()),
        a.to_multiset().subset_of((a + b).to_multiset()),
{
    broadcast use vstd::multiset::group_multiset_axioms;

    lemma_multiset_commutative(a, b);
}

/// What one generation does before the next is put together: selection,
/// then `children_per_cycle` times a family of parents drawn, a child bred
/// and the family returned, then the children mutated and evaluated.  The
/// population is left holding the survivors; the children are returned.
pub fn breed_generation<S: Specimen>(
    species: &mut Vec<S>,
    cfg: &Config,
    rng: &mut rand::XorShiftRng,
) -> (children: Vec<S>)
    requires
        S::admits(cfg),
        all_ready(old(species)@, cfg),
        cfg.children_per_cycle > 0 ==> cfg.parents_per_family <= old(species)@.len()
            && cfg.parents_per_family <= cfg.population_capacity,
    ensures
        is_step(final(species)@, children@, old(species)@, cfg),
        all_ready(final(species)@, cfg),
        all_ready(children@, cfg),
        children@.len() == cfg.children_per_cycle,
        final(species)@.len() == if old(species)@.len() <= cfg.population_capacity {
            old(species)@.len()
        } else {
            cfg.population_capacity as nat
        },
        cfg.population_capacity >= 1 ==> lowest_cost(final(species)@) <= lowest_cost(
            old(species)@,
        ),
        forall|x: S| final(species)@.contains(x) ==> old(species)@.contains(x),
{
    let ghost pool = species@;
    filter_strongest(species, cfg.population_capacity);
    let ghost kept = species@;
    proof {
        lemma_selection_keeps_the_strongest(kept, pool, cfg.population_capacity as int);
        if cfg.population_capacity >= 1 {
            if pool.len() > 0 {
                lemma_selection_keeps_lowest(kept, pool, cfg.population_capacity as int);
            } else {
                lemma_lowest_cost_ceiling(kept);
            }
        }
        lemma_members_ready(kept, pool, cfg);
    }
    let mut children: Vec<S> = Vec::new();
    let mut family: Vec<S> = Vec::new();
    let ghost mut families: Seq<Seq<S>> = Seq::empty();
    let mut born: usize = 0;
    while born < cfg.children_per_cycle
        invariant
            born <= cfg.children_per_cycle,
            S::admits(cfg),
            family@.len() == 0,
            children@.len() == born,
            families.len() == born,
            species@.len() == kept.len(),
            cfg.children_per_cycle > 0 ==> kept.len() >= cfg.parents_per_family,
            species@.to_multiset() == kept.to_multiset(),
            all_ready(kept, cfg),
            all_fit(children@, cfg),
            forall|m: int|
                0 <= m < born ==> (#[trigger] families[m]).len() == cfg.parents_per_family
                    && families[m].to_multiset().subset_of(kept.to_multiset()) && S::bred_from(
                    children@[m],
                    families[m],
                    cfg,
                ),
        decreases cfg.children_per_cycle - born,
    {
        let ghost before = species@;
        proof {
            lemma_same_members(before, kept);
            lemma_members_ready(before, kept, cfg);
        }
        make_family(species, cfg.parents_per_family, &mut family, rng);
        proof {
            let drawn = species@ + family@;
            lemma_same_members(drawn, before);
            lemma_part_is_subset(species@, family@);
            assert forall|x: S| family@.contains(x) implies before.contains(x) by {
                let m = choose|m: int| 0 <= m < family@.len() && family@[m] == x;
                assert(drawn[species@.len() + m] == x);
                assert(drawn.contains(x));
            }
            lemma_members_ready(family@, before, cfg);
            families = families.push(family@);
        }
        let child = S::breed(family.as_slice(), cfg, rng);
        children.push(child);
        species.append(&mut family);
        born += 1;
    }
    let ghost bred = children@;
    S::mutate(children.as_mut_slice(), cfg, rng);
    let ghost mutated = children@;
    let mut k: usize = 0;
    while k < children.len()
        invariant
            k <= children@.len(),
            children@.len() == cfg.children_per_cycle,
            mutated.len() == children@.len(),
            S::admits(cfg),
            all_fit(children@, cfg),
            forall|m: int|
                0 <= m < k ==> (#[trigger] children@[m]).evaluated() && S::reevaluated_from(
                    children@[m],
                    mutated[m],
                    cfg,
                ),
            forall|m: int| k <= m < children@.len() ==> #[trigger] children@[m] == mutated[m],
        decreases children@.len() - k,
    {
        children[k].reevaluate(cfg, rng);
        k += 1;
    }
    proof {
        lemma_same_members(species@, kept);
        lemma_members_ready(species@, kept, cfg);
        lemma_lowest_cost_of_members(kept, species@);
        assert forall|m: int| 0 <= m < children@.len() implies is_offspring(
            #[trigger] children@[m],
            kept,
            cfg,
        ) by {
            assert(S::bred_from(bred[m], families[m], cfg));
            assert(S::mutated_from(mutated[m], bred[m], cfg));
            assert(S::reevaluated_from(children@[m], mutated[m], cfg));
        }
        assert(is_brood(children@, kept, cfg));
        assert(is_selection_of(kept, pool, cfg.population_capacity as int));
    }
    children
}

/// One evolutionary step: selection, then `children_per_cycle` times a
/// family of parents drawn, a child bred and the family returned, then the
/// children mutated and evaluated.  The next generation is the children
/// alone where parents are killed, else the survivors followed by the
/// children; then its strongest candidate is no weaker than the strongest
/// before.
pub fn next_gen<S: Specimen>(species: Vec<S>, cfg: &Config, rng: &mut rand::XorShiftRng) -> (next:
    Vec<S>)
    requires
        S::admits(cfg),
        all_ready(species@, cfg),
        cfg.children_per_cycle > 0 ==> cfg.parents_per_family <= species@.len()
            && cfg.parents_per_family <= cfg.population_capacity,
    ensures
        follows(next@, species@, cfg),
        exists|kept: Seq<S>| #[trigger]
            is_selection_of(kept, species@, cfg.population_capacity as int) && (forall|k: int|
                next@.len() - cfg.children_per_cycle <= k < next@.len() ==> is_offspring(
                    #[trigger] next@[k],
                    kept,
                    cfg,
                )) && (!cfg.kill_parents ==> next@.take(kept.len() as int).to_multiset()
                == kept.to_multiset()),
        all_ready(next@, cfg),
        next@.len() == next_size(species@.len() as int, cfg),
        !cfg.kill_parents && cfg.population_capacity >= 1 ==> lowest_cost(next@) <= lowest_cost(
            species@,
        ),
{
    let mut species = species;
    let ghost pool = species@;
    let mut children = breed_generation(&mut species, cfg, rng);
    let ghost survivors = species@;
    let ghost brood = children@;
    proof {
        let kept = choose|kept: Seq<S>| #[trigger]
            is_selection_of(kept, pool, cfg.population_capacity as int) && survivors.to_multiset()
                == kept.to_multiset() && is_brood(brood, kept, cfg);
        lemma_same_members(survivors, kept);
        assert((survivors + brood).take(kept.len() as int) =~= survivors);
        assert forall|k: int|
            survivors.len() <= k < (survivors + brood).len() implies is_offspring(
            #[trigger] (survivors + brood)[k],
            kept,
            cfg,
        ) by {
            assert((survivors + brood)[k] == brood[k - survivors.len()]);
        }
        assert(is_step(survivors, brood, pool, cfg));
    }
    if cfg.kill_parents {
        children
    } else {
        species.append(&mut children);
        proof {
            assert(species@ =~= survivors + brood);
            assert forall|x: S| survivors.contains(x) implies species@.contains(x) by {
                let m = choose|m: int| 0 <= m < survivors.len() && survivors[m] == x;
                assert(species@[m] == x);
            }
            lemma_lowest_cost_of_members(survivors, species@);
        }
        species
    }
}

/// Scans a population for its strongest candidate, starting from the best
/// fitness and index so far: a candidate at least as good as the best so
/// far takes its place.  The result is the best fitness of all, and the
/// index of the last candidate that has it, or the start where every
/// candidate is weaker.
pub fn scan_best<S: Specimen>(species: &Vec<S>, start: (usize, usize)) -> (best: (usize, usize))
    ensures
        S::goal().no_worse(best.0, start.0),
        forall|k: int|
            0 <= k < species@.len() ==> S::goal().no_worse(
                best.0,
                (#[trigger] species@[k]).cached_fitness(),
            ),
        ({
            ||| {
                &&& best == start
                &&& forall|k: int|
                    0 <= k < species@.len() ==> !S::goal().no_worse(
                        (#[trigger] species@[k]).cached_fitness(),
                        start.0,
                    )
            }
            ||| {
                &&& best.1 < species@.len()
                &&& species@[best.1 as int].cached_fitness() == best.0
                &&& forall|k: int|
                    best.1 < k < species@.len() ==> !S::goal().no_worse(
                        (#[trigger] species@[k]).cached_fitness(),
                        best.0,
                    )
            }
        }),
{
    let goal = S::direction();
    let mut best = start;
    let mut i: usize = 0;
    while i < species.len()
        invariant
            i <= species@.len(),
            goal == S::goal(),
            goal.no_worse(best.0, start.0),
            forall|k: int|
                0 <= k < i ==> goal.no_worse(best.0, (#[trigger] species@[k]).cached_fitness()),
            ({
                ||| {
                    &&& best == start
                    &&& forall|k: int|
                        0 <= k < i ==> !goal.no_worse(
                            (#[trigger] species@[k]).cached_fitness(),
                            start.0,
                        )
                }
                ||| {
                    &&& best.1 < i
                    &&& species@[best.1 as int].cached_fitness() == best.0
                    &&& forall|k: int|
                        best.1 < k < i ==> !goal.no_worse(
                            (#[trigger] species@[k]).cached_fitness(),
                            best.0,
                        )
                }
            }),
        decreases species@.len() - i,
    {
        let fitness = species[i].fitness();
        if goal.is_no_worse(fitness, best.0) {
            best = (fitness, i);
        }
        i += 1;
    }
    best
}

/// The generations of a run: the first population, and after it each
/// generation following the one before.
pub open spec fn is_lineage<S: Specimen>(gens: Seq<Seq<S>>, first: Seq<S>, cfg: &Config) -> bool {
    &&& gens.len() >= 1
    &&& gens[0] == first
    &&& forall|i: int| 1 <= i < gens.len() ==> follows(#[trigger] gens[i], gens[i - 1], cfg)
}

/// The candidate stands in one of the generations.
pub open spec fn is_member<S: Specimen>(candidate: S, gens: Seq<Seq<S>>) -> bool {
    exists|i: int, k: int|
        0 <= i < gens.len() && 0 <= k < gens[i].len() && (#[trigger] gens[i][k]) == candidate
}

/// No candidate of the generations `from..upto` costs less than `floor`.
pub open spec fn none_below<S: Specimen>(
    floor: int,
    gens: Seq<Seq<S>>,
    from: int,
    upto: int,
) -> bool {
    forall|i: int, k: int|
        from <= i < upto && 0 <= k < gens[i].len() ==> floor <= cost_of(#[trigger] gens[i][k])
}

/// `best` is what a run through the generations returns.  Without a
/// generation run it is the first candidate given.  Otherwise it is a
/// candidate of one of the generations, of the last one where parents
/// survive, and no candidate of any generation is stronger.  The run had
/// not reached the success threshold before its last generation, and has
/// reached it there unless that is the last generation allowed.
pub open spec fn crowns<S: Specimen>(best: S, gens: Seq<Seq<S>>, cfg: &Config) -> bool {
    let g = gens.len() - 1;
    let limit = S::goal().cost(cfg.success_threshold);
    &&& g <= cfg.max_iterations
    &&& cfg.max_iterations > 0 ==> g >= 1
    &&& g == 0 ==> gens[0].len() > 0 && best == gens[0][0]
    &&& g >= 1 ==> is_member(best, gens) && none_below(cost_of(best), gens, 0, g + 1)
    &&& g >= 1 && !cfg.kill_parents ==> gens[g].contains(best)
    &&& g < cfg.max_iterations ==> cost_of(best) <= limit
    &&& none_below(limit + 1, gens, 1, g)
}

/// `best` is what evolving the population `first` may return.
pub open spec fn is_outcome<S: Specimen>(best: S, first: Seq<S>, cfg: &Config) -> bool {
    exists|gens: Seq<Seq<S>>| #[trigger] is_lineage(gens, first, cfg) && crowns(best, gens, cfg)
}

/// `best` is what a run from a first population of the representation's
/// making may return.
pub open spec fn is_run_outcome<S: Specimen>(best: S, cfg: &Config) -> bool {
    exists|first: Seq<S>|
        first.len() == cfg.initial_population() && all_ready(first, cfg) && (forall|k: int|
            0 <= k < first.len() ==> S::spawned(#[trigger] first[k], cfg)) && #[trigger] is_outcome(
            best,
            first,
            cfg,
        )
}

/// The stronger of a champion held, if any, and a challenger; the
/// champion where they are equally strong.
pub fn stronger<S: Specimen>(held: Option<S>, challenger: S) -> (winner: S)
    ensures
        winner == challenger || held == Some(winner),
        cost_of(winner) <= cost_of(challenger),
        held matches Some(h) ==> cost_of(winner) <= cost_of(h),
{
    match held {
        None => challenger,
        Some(h) => {
            if S::direction().is_no_worse(h.fitness(), challenger.fitness()) {
                h
            } else {
                challenger
            }
        },
    }
}

/// Evolves a population for at most `max_iterations` generations, stopping
/// early at the first generation that holds a candidate as good as the
/// success threshold, and returns the best candidate found in any
/// generation, the population given included.  Where parents survive, that
/// is the strongest candidate of the last generation, the last of them
/// where several are equally strong, taken out of it.  Where parents are
/// killed, the strongest candidate of every generation is kept back when
/// the generation goes, unless one as strong is held already.  Without a
/// generation to run, the first candidate given is returned.
pub fn evolve<S: Specimen>(species: Vec<S>, cfg: &Config, rng: &mut rand::XorShiftRng) -> (best: S)
    requires
        S::admits(cfg),
        cfg.coherent(),
        species@.len() >= 1,
        cfg.children_per_cycle > 0 ==> species@.len() >= cfg.parents_per_family,
        all_ready(species@, cfg),
    ensures
        best.fits(cfg),
        best.evaluated(),
        is_outcome(best, species@, cfg),
        cfg.max_iterations == 0 ==> best == species@[0],
        cfg.max_iterations > 0 ==> cost_of(best) <= lowest_cost(species@),
{
    let ghost first = species@;
    let ghost mut gens: Seq<Seq<S>> = seq![species@];
    let ghost limit = S::goal().cost(cfg.success_threshold);
    let goal = S::direction();
    let mut species = species;
    let mut champion: Option<S> = None;
    let worst = goal.worst();
    let mut top = (worst, 0usize);
    let mut reached = false;
    let mut iteration: usize = 0;
    proof {
        if !cfg.kill_parents {
            assert forall|i: int, k: int| 0 <= i < 1 && 0 <= k < gens[i].len() implies lowest_cost(
                species@,
            ) <= cost_of(#[trigger] gens[i][k]) by {
                lemma_lowest_cost_bounds(species@, k);
            }
        }
    }
    while iteration < cfg.max_iterations && !reached
        invariant
            iteration <= cfg.max_iterations,
            S::admits(cfg),
            cfg.coherent(),
            goal == S::goal(),
            goal.cost(worst) == usize::MAX,
            forall|a: usize| goal.no_worse(a, worst),
            limit == S::goal().cost(cfg.success_threshold),
            gens.len() == iteration + 1,
            is_lineage(gens, first, cfg),
            gens[iteration as int] == species@,
            all_ready(species@, cfg),
            species@.len() >= 1,
            cfg.children_per_cycle > 0 ==> species@.len() >= cfg.parents_per_family,
            iteration == 0 ==> champion is None && !reached,
            !cfg.kill_parents ==> champion is None && none_below(
                lowest_cost(species@),
                gens,
                0,
                iteration + 1,
            ),
            cfg.kill_parents && iteration > 0 ==> (champion matches Some(c) && c.fits(cfg)
                && c.evaluated() && is_member(c, gens) && none_below(
                cost_of(c),
                gens,
                0,
                iteration as int,
            )),
            iteration > 0 ==> top.1 < species@.len() && cost_of(species@[top.1 as int])
                == goal.cost(top.0) && none_below(
                goal.cost(top.0),
                gens,
                iteration as int,
                iteration + 1,
            ),
            none_below(limit + 1, gens, 1, iteration as int),
            !reached ==> none_below(limit + 1, gens, 1, iteration + 1),
            reached ==> goal.cost(top.0) <= limit,
        decreases cfg.max_iterations - iteration,
    {
        let ghost before = species@;
        let ghost past = gens;
        if cfg.kill_parents {
            let children = breed_generation(&mut species, cfg, rng);
            let heir = scan_best(&species, (worst, 0usize));
            proof {
                assert(goal.no_worse(species@[0].cached_fitness(), worst));
                let k = lemma_lowest_cost_attained(species@);
                assert(species@.contains(species@[heir.1 as int]));
                assert forall|i: int, k: int|
                    iteration <= i < iteration + 1 && 0 <= k < past[i].len() implies cost_of(
                    species@[heir.1 as int],
                ) <= cost_of(#[trigger] past[i][k]) by {
                    lemma_lowest_cost_bounds(before, k);
                }
            }
            let fallen = species.swap_remove(heir.1);
            proof {
                assert(past[iteration as int].contains(fallen));
                let j = choose|j: int| 0 <= j < before.len() && before[j] == fallen;
                assert(past[iteration as int][j] == fallen);
            }
            let ghost held = champion;
            let winner = stronger(champion, fallen);
            champion = Some(winner);
            species = children;
            proof {
                gens = past.push(species@);
                assert(follows(species@, before, cfg));
                assert(is_member(winner, gens)) by {
                    if winner == fallen {
                        let j = choose|j: int| 0 <= j < before.len() && before[j] == fallen;
                        assert(gens[iteration as int][j] == winner);
                    } else {
                        let (i, k) = choose|i: int, k: int|
                            0 <= i < past.len() && 0 <= k < past[i].len() && (
                            #[trigger] past[i][k]) == winner;
                        assert(gens[i][k] == winner);
                    }
                }
                assert forall|i: int, k: int|
                    0 <= i < iteration + 1 && 0 <= k < gens[i].len() implies cost_of(winner)
                    <= cost_of(#[trigger] gens[i][k]) by {
                    assert(gens[i] == past[i]);
                    if i < iteration {
                        assert(cost_of(held->0) <= cost_of(past[i][k]));
                    } else {
                        assert(cost_of(fallen) <= cost_of(past[i][k]));
                    }
                }
            }
        } else {
            species = next_gen(species, cfg, rng);
            proof {
                gens = past.push(species@);
                assert forall|i: int, k: int|
                    0 <= i < iteration + 2 && 0 <= k < gens[i].len() implies lowest_cost(
                    species@,
                ) <= cost_of(#[trigger] gens[i][k]) by {
                    if i <= iteration {
                        assert(gens[i] == past[i]);
                        assert(lowest_cost(before) <= cost_of(past[i][k]));
                    } else {
                        lemma_lowest_cost_bounds(species@, k);
                    }
                }
            }
        }
        proof {
            assert forall|i: int| 1 <= i < gens.len() implies follows(
                #[trigger] gens[i],
                gens[i - 1],
                cfg,
            ) by {
                if i <= iteration {
                    assert(gens[i] == past[i]);
                    assert(gens[i - 1] == past[i - 1]);
                }
            }
            assert forall|i: int, k: int| 1 <= i < iteration + 1 && 0 <= k < gens[i].len() implies limit
                + 1 <= cost_of(#[trigger] gens[i][k]) by {
                assert(gens[i] == past[i]);
                assert(limit + 1 <= cost_of(past[i][k]));
            }
        }
        top = scan_best(&species, (worst, 0usize));
        proof {
            assert(goal.no_worse(species@[0].cached_fitness(), worst));
        }
        if goal.is_no_worse(top.0, cfg.success_threshold) {
            reached = true;
        }
        iteration += 1;
    }
    if iteration == 0 {
        let best = species.swap_remove(0);
        proof {
            assert(is_lineage(gens, first, cfg) && crowns(best, gens, cfg));
        }
        return best;
    }
    let ghost last_generation = species@;
    let last = species.swap_remove(top.1);
    let best = stronger(champion, last);
    proof {
        let g = iteration as int;
        assert(gens[g][top.1 as int] == last);
        assert(gens[g].contains(last));
        assert(is_member(last, gens));
        if !cfg.kill_parents {
            let k = lemma_lowest_cost_attained(last_generation);
        }
        assert(none_below(cost_of(best), gens, 0, g + 1));
        assert(crowns(best, gens, cfg));
        if first.len() > 0 {
            let k = lemma_lowest_cost_attained(first);
            assert(cost_of(best) <= cost_of(gens[0][k]));
        }
    }
    best
}

/// Runs the optimizer once: evolves the representation's first population
/// and returns the best candidate found.
pub fn genetic<S: Specimen>(cfg: &Config, rng: &mut rand::XorShiftRng) -> (best: S)
    requires
        S::admits(cfg),
        cfg.coherent(),
        cfg.initial_population() >= 1,
    ensures
        best.fits(cfg),
        best.evaluated(),
        is_run_outcome(best, cfg),
{
    let species = S::initial(cfg, rng);
    let ghost first = species@;
    let best = evolve(species, cfg, rng);
    proof {
        assert(is_outcome(best, first, cfg));
    }
    best
}

/// The configuration that a run on permutation boards follows: the one
/// given, with the success threshold of a board without attacks, two for
/// every queen.
pub open spec fn queens_run(cfg: &Config) -> Config {
    Config {
        board_size: cfg.board_size,
        mutation_threshold: cfg.mutation_threshold,
        population_capacity: cfg.population_capacity,
        max_iterations: cfg.max_iterations,
        parents_per_family: cfg.parents_per_family,
        children_per_cycle: cfg.children_per_cycle,
        kill_parents: cfg.kill_parents,
        success_threshold: (2 * cfg.board_size) as usize,
        crossover: cfg.crossover,
        evaluation: cfg.evaluation,
    }
}

/// Runs the optimizer on permutation boards, with the random stream that
/// the seed gives.  The run succeeds at the fitness of a board without
/// attacks, two for every queen, whatever threshold the configuration
/// names.
pub fn genetic_queens(seed: [u32; 4], cfg: &Config) -> (best: Board)
    requires
        usable_seed(seed@),
        Board::admits(cfg),
        cfg.coherent(),
    ensures
        best.valid(),
        best.queens@.len() == cfg.board_size,
        best.evaluated(),
        is_run_outcome(best, &queens_run(cfg)),
{
    proof {
        lemma_probe_fits(cfg.board_size as int);
    }
    let run = Config {
        board_size: cfg.board_size,
        mutation_threshold: cfg.mutation_threshold,
        population_capacity: cfg.population_capacity,
        max_iterations: cfg.max_iterations,
        parents_per_family: cfg.parents_per_family,
        children_per_cycle: cfg.children_per_cycle,
        kill_parents: cfg.kill_parents,
        success_threshold: 2 * cfg.board_size,
        crossover: cfg.crossover,
        evaluation: cfg.evaluation,
    };
    let mut rng = unseeded();
    reseed(&mut rng, seed);
    genetic::<Board>(&run, &mut rng)
}

} // verus!
