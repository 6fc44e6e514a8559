//! Elitist selection: keeping the strongest candidates of a population.

use vstd::prelude::*;
use vstd::seq_lib::lemma_multiset_commutative;
use crate::specimen::Specimen;

verus! {

/// The candidate's cached fitness as a cost: the lower, the stronger.
pub open spec fn cost_of<S: Specimen>(s: S) -> int {
    S::goal().cost(s.cached_fitness())
}

/// The candidates of `pool` whose cost is `c`, in their order.
pub open spec fn with_cost<S: Specimen>(pool: Seq<S>, c: int) -> Seq<S> {
    pool.filter(|s: S| cost_of(s) == c)
}

/// No candidate stands before a stronger one.
pub open spec fn ranked_by_cost<S: Specimen>(ranked: Seq<S>) -> bool {
    forall|i: int, j: int|
        0 <= i < j < ranked.len() ==> cost_of(#[trigger] ranked[i]) <= cost_of(#[trigger] ranked[j])
}

/// `ranked` holds the candidates of `pool`, the strongest first, and those
/// of equal cost in the order they had in `pool`.
pub open spec fn is_ranking_of<S: Specimen>(ranked: Seq<S>, pool: Seq<S>) -> bool {
    &&& ranked.to_multiset() == pool.to_multiset()
    &&& ranked_by_cost(ranked)
    &&& forall|c: int| #[trigger] with_cost(ranked, c) == with_cost(pool, c)
}

/// `kept` is what selection retains of `pool`: all of it where it is within
/// the capacity, else the first `capacity` of its ranking.
pub open spec fn is_selection_of<S: Specimen>(kept: Seq<S>, pool: Seq<S>, capacity: int) -> bool {
    if pool.len() <= capacity {
        kept == pool
    } else {
        exists|ranked: Seq<S>| #[trigger] is_ranking_of(ranked, pool) && kept == ranked.take(capacity)
    }
}

/// No candidate that was dropped from `pool` is stronger than one that was
/// kept.
pub open spec fn keeps_the_strongest<S: Specimen>(kept: Seq<S>, pool: Seq<S>) -> bool {
    forall|k: S, d: S|
        kept.contains(k) && pool.to_multiset().sub(kept.to_multiset()).count(d) > 0 ==> #[trigger] cost_of(
            k,
        ) <= #[trigger] cost_of(d)
}

/// The cost of the strongest candidate of a population; of an empty one,
/// more than any candidate costs.
pub open spec fn lowest_cost<S: Specimen>(pop: Seq<S>) -> int
    decreases pop.len(),
{
    if pop.len() == 0 {
        usize::MAX + 1
    } else {
        let rest = lowest_cost(pop.drop_last());
        if cost_of(pop.last()) <= rest {
            cost_of(pop.last())
        } else {
            rest
        }
    }
}

/// The lowest cost is at most that of an empty population.
pub proof fn lemma_lowest_cost_ceiling<S: Specimen>(pop: Seq<S>)
    ensures
        lowest_cost(pop) <= usize::MAX + 1,
    decreases pop.len(),
{
    if pop.len() > 0 {
        lemma_lowest_cost_ceiling(pop.drop_last());
    }
}

/// No candidate costs less than the lowest cost.
pub proof fn lemma_lowest_cost_bounds<S: Specimen>(pop: Seq<S>, k: int)
    requires
        0 <= k < pop.len(),
    ensures
        lowest_cost(pop) <= cost_of(pop[k]) <= usize::MAX,
    decreases pop.len(),
{
    if k < pop.len() - 1 {
        lemma_lowest_cost_bounds(pop.drop_last(), k);
    }
}

/// Some candidate of a population that is not empty has the lowest cost.
pub proof fn lemma_lowest_cost_attained<S: Specimen>(pop: Seq<S>) -> (k: int)
    requires
        pop.len() > 0,
    ensures
        0 <= k < pop.len(),
        cost_of(pop[k]) == lowest_cost(pop),
    decreases pop.len(),
{
    if pop.len() == 1 {
        assert(lowest_cost(pop.drop_last()) == usize::MAX + 1);
        0
    } else if cost_of(pop.last()) <= lowest_cost(pop.drop_last()) {
        pop.len() - 1
    } else {
        lemma_lowest_cost_attained(pop.drop_last())
    }
}

/// Two populations of the same candidates, in whatever order, have the same
/// size and members.
pub proof fn lemma_same_members<T>(a: Seq<T>, b: Seq<T>)
    requires
        a.to_multiset() == b.to_multiset(),
    ensures
        a.len() == b.len(),
        forall|x: T| a.contains(x) <==> b.contains(x),
{
    broadcast use vstd::seq_lib::group_to_multiset_ensures;

    assert(a.len() == a.to_multiset().len());
    assert(b.len() == b.to_multiset().len());
    assert forall|x: T| a.contains(x) <==> b.contains(x) by {
        assert(a.contains(x) <==> a.to_multiset().count(x) > 0);
        assert(b.contains(x) <==> b.to_multiset().count(x) > 0);
    }
}

/// Where the capacity is not zero, selection retains a strongest candidate
/// of the pool.
pub proof fn lemma_selection_keeps_lowest<S: Specimen>(kept: Seq<S>, pool: Seq<S>, capacity: int)
    requires
        1 <= capacity,
        pool.len() > 0,
        is_selection_of(kept, pool, capacity),
    ensures
        kept.len() > 0,
        lowest_cost(kept) <= lowest_cost(pool),
{
    if pool.len() > capacity {
        let ranked = choose|ranked: Seq<S>| #[trigger]
            is_ranking_of(ranked, pool) && kept == ranked.take(capacity);
        lemma_same_members(ranked, pool);
        let k = lemma_lowest_cost_attained(pool);
        assert(pool.contains(pool[k]));
        let j = choose|j: int| 0 <= j < ranked.len() && ranked[j] == pool[k];
        assert(cost_of(ranked[0]) <= cost_of(ranked[j]));
        assert(kept[0] == ranked[0]);
        lemma_lowest_cost_bounds(kept, 0);
    }
}

/// The candidate's cost, as a sort key.
pub fn rank_of<S: Specimen>(s: &S) -> (k: usize)
    ensures
        k == cost_of(*s),
{
    S::direction().rank(s.fitness())
}

/// Sorts the candidates by cost with std's `sort_by_key`, which is a stable
/// sort: afterwards the vector holds the same candidates, none before a
/// stronger one, and candidates of equal cost in their earlier order.
#[verifier::external_body]
fn sort_by_cost<S: Specimen>(species: &mut Vec<S>)
    ensures
        is_ranking_of(final(species)@, old(species)@),
{
    species.sort_by_key(|s| rank_of(s));
}

/// What a selection retains is never weaker than what it drops, and it
/// retains as much as the capacity allows.
pub proof fn lemma_selection_keeps_the_strongest<S: Specimen>(
    kept: Seq<S>,
    pool: Seq<S>,
    capacity: int,
)
    requires
        0 <= capacity,
        is_selection_of(kept, pool, capacity),
    ensures
        keeps_the_strongest(kept, pool),
        forall|x: S| kept.contains(x) ==> pool.contains(x),
        kept.len() == if pool.len() <= capacity {
            pool.len() as int
        } else {
            capacity
        },
{
    broadcast use vstd::seq_lib::group_to_multiset_ensures;

    if pool.len() <= capacity {
        assert(pool.to_multiset().sub(kept.to_multiset()) =~= vstd::multiset::Multiset::<S>::empty());
    } else {
        let ranked = choose|ranked: Seq<S>| #[trigger]
            is_ranking_of(ranked, pool) && kept == ranked.take(capacity);
        assert(ranked.len() == pool.len()) by {
            ranked.to_multiset_ensures();
            pool.to_multiset_ensures();
        }
        let rest = ranked.skip(capacity);
        assert(ranked =~= kept + rest);
        lemma_same_members(ranked, pool);
        assert forall|x: S| kept.contains(x) implies pool.contains(x) by {
            let a = choose|a: int| 0 <= a < kept.len() && kept[a] == x;
            assert(ranked[a] == x);
            assert(ranked.contains(x));
        }
        lemma_multiset_commutative(kept, rest);
        assert(pool.to_multiset().sub(kept.to_multiset()) =~= rest.to_multiset());
        assert forall|k: S, d: S|
            kept.contains(k) && pool.to_multiset().sub(kept.to_multiset()).count(d)
                > 0 implies #[trigger] cost_of(k) <= #[trigger] cost_of(d) by {
            rest.to_multiset_ensures();
            assert(rest.contains(d));
            let a = choose|a: int| 0 <= a < kept.len() && kept[a] == k;
            let b = choose|b: int| 0 <= b < rest.len() && rest[b] == d;
            assert(ranked[a] == k);
            assert(ranked[capacity + b] == d);
        }
    }
}

/// Retains the strongest `capacity` candidates, the strongest first; a
/// population within the capacity is left as it is.
pub fn filter_strongest<S: Specimen>(species: &mut Vec<S>, capacity: usize)
    ensures
        is_selection_of(final(species)@, old(species)@, capacity as int),
        keeps_the_strongest(final(species)@, old(species)@),
        final(species)@.len() == if old(species)@.len() <= capacity {
            old(species)@.len()
        } else {
            capacity as nat
        },
        forall|x: S| final(species)@.contains(x) ==> old(species)@.contains(x),
{
    if species.len() <= capacity {
        proof {
            lemma_selection_keeps_the_strongest(species@, species@, capacity as int);
        }
        return ;
    }
    sort_by_cost(species);
    let ghost ranked = species@;
    assert(ranked.len() == old(species)@.len()) by {
        ranked.to_multiset_ensures();
        old(species)@.to_multiset_ensures();
    }
    species.truncate(capacity);
    proof {
        assert(species@ =~= ranked.take(capacity as int));
        lemma_selection_keeps_the_strongest(species@, old(species)@, capacity as int);
    }
}

} // verus!
