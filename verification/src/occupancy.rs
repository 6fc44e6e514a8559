//! Counting how crowded a family of diagonals is.
//!
//! A placement is reduced to a sequence of keys, one per queen, naming the
//! diagonal the queen stands on.  Everything here is about such key
//! sequences alone.

use vstd::prelude::*;

verus! {

/// How many positions of `keys` hold the key `d`.
#[verifier::opaque]
pub open spec fn occupancy(keys: Seq<int>, d: int) -> int
    decreases keys.len(),
{
    if keys.len() == 0 {
        0
    } else {
        occupancy(keys.drop_last(), d) + if keys.last() == d {
            1int
        } else {
            0int
        }
    }
}

/// The sum, over the first `m` positions `x` of `keys`, of the occupancy in
/// `among` of the key `keys[x]`.
#[verifier::opaque]
pub open spec fn crowding(keys: Seq<int>, among: Seq<int>, m: int) -> int
    decreases m,
{
    if m <= 0 {
        0
    } else {
        crowding(keys, among, m - 1) + occupancy(among, keys[m - 1])
    }
}

/// Every position counted with the occupancy of its own key: the number of
/// ordered pairs of positions, a position with itself included, that share
/// a key.
pub open spec fn total_crowding(keys: Seq<int>) -> int {
    crowding(keys, keys, keys.len() as int)
}

/// An empty sequence holds no key; one more position adds its key to the
/// sum.
pub proof fn lemma_crowding_step(keys: Seq<int>, among: Seq<int>, m: int)
    requires
        0 <= m,
    ensures
        crowding(keys, among, 0) == 0,
        crowding(keys, among, m + 1) == crowding(keys, among, m) + occupancy(among, keys[m]),
{
    reveal(crowding);
}

/// No key is held by a position of the empty sequence.
pub proof fn lemma_occupancy_empty(d: int)
    ensures
        occupancy(Seq::<int>::empty(), d) == 0,
{
    reveal(occupancy);
}

/// A key is held by no more positions than there are.
pub proof fn lemma_occupancy_bounds(keys: Seq<int>, d: int)
    ensures
        0 <= occupancy(keys, d) <= keys.len(),
    decreases keys.len(),
{
    reveal(occupancy);
    if keys.len() > 0 {
        lemma_occupancy_bounds(keys.drop_last(), d);
    }
}

/// Growing a prefix by one position adds that position's key to the count.
pub proof fn lemma_occupancy_take(keys: Seq<int>, m: int, d: int)
    requires
        0 <= m < keys.len(),
    ensures
        occupancy(keys.take(m + 1), d) == occupancy(keys.take(m), d) + if keys[m] == d {
            1int
        } else {
            0int
        },
{
    reveal(occupancy);
    assert(keys.take(m + 1).drop_last() =~= keys.take(m));
}

/// A key that some position holds is counted at least once.
pub proof fn lemma_occupancy_member(keys: Seq<int>, i: int)
    requires
        0 <= i < keys.len(),
    ensures
        occupancy(keys, keys[i]) >= 1,
    decreases keys.len(),
{
    reveal(occupancy);
    lemma_occupancy_bounds(keys.drop_last(), keys[i]);
    if i < keys.len() - 1 {
        lemma_occupancy_member(keys.drop_last(), i);
    }
}

/// Two positions that hold the same key are both counted.
pub proof fn lemma_occupancy_pair(keys: Seq<int>, i: int, j: int)
    requires
        0 <= i < j < keys.len(),
        keys[i] == keys[j],
    ensures
        occupancy(keys, keys[i]) >= 2,
    decreases keys.len(),
{
    reveal(occupancy);
    if j == keys.len() - 1 {
        lemma_occupancy_member(keys.drop_last(), i);
    } else {
        lemma_occupancy_bounds(keys.drop_last(), keys[i]);
        lemma_occupancy_pair(keys.drop_last(), i, j);
    }
}

/// Rewriting one position moves one unit of occupancy from the old key to
/// the new one.
pub proof fn lemma_occupancy_update(keys: Seq<int>, i: int, a: int, d: int)
    requires
        0 <= i < keys.len(),
    ensures
        occupancy(keys.update(i, a), d) == occupancy(keys, d) - (if keys[i] == d {
            1int
        } else {
            0int
        }) + (if a == d {
            1int
        } else {
            0int
        }),
    decreases keys.len(),
{
    reveal(occupancy);
    let after = keys.update(i, a);
    if i == keys.len() - 1 {
        assert(after.drop_last() =~= keys.drop_last());
    } else {
        assert(after.drop_last() =~= keys.drop_last().update(i, a));
        lemma_occupancy_update(keys.drop_last(), i, a, d);
    }
}

/// Each of the first `m` positions counts at most the length of `among`.
pub proof fn lemma_crowding_bounds(keys: Seq<int>, among: Seq<int>, m: int)
    requires
        0 <= m,
    ensures
        0 <= crowding(keys, among, m) <= m * among.len(),
    decreases m,
{
    reveal(crowding);
    if m > 0 {
        lemma_crowding_bounds(keys, among, m - 1);
        lemma_occupancy_bounds(among, keys[m - 1]);
        assert((m - 1) * among.len() + among.len() == m * among.len()) by (nonlinear_arith);
    } else {
        assert(0 * among.len() == 0);
    }
}

/// Rewriting one position of the sequence that is counted in.
proof fn lemma_crowding_among_update(keys: Seq<int>, among: Seq<int>, i: int, a: int, m: int)
    requires
        0 <= i < among.len(),
        0 <= m <= keys.len(),
    ensures
        crowding(keys, among.update(i, a), m) == crowding(keys, among, m) - occupancy(
            keys.take(m),
            among[i],
        ) + occupancy(keys.take(m), a),
    decreases m,
{
    reveal(crowding);
    if m > 0 {
        lemma_crowding_among_update(keys, among, i, a, m - 1);
        lemma_occupancy_update(among, i, a, keys[m - 1]);
        lemma_occupancy_take(keys, m - 1, among[i]);
        lemma_occupancy_take(keys, m - 1, a);
    } else {
        reveal(occupancy);
        assert(keys.take(0) =~= Seq::<int>::empty());
    }
}

/// Rewriting one position of the sequence whose keys are looked up.
proof fn lemma_crowding_keys_update(keys: Seq<int>, among: Seq<int>, i: int, a: int, m: int)
    requires
        0 <= i < keys.len(),
        0 <= m <= keys.len(),
    ensures
        crowding(keys.update(i, a), among, m) == crowding(keys, among, m) + if i < m {
            occupancy(among, a) - occupancy(among, keys[i])
        } else {
            0int
        },
    decreases m,
{
    reveal(crowding);
    if m > 0 {
        lemma_crowding_keys_update(keys, among, i, a, m - 1);
    }
}

/// Moving one queen to another diagonal: the diagonal it leaves loses it
/// and the pairs it formed there, the diagonal it joins gains both.
pub proof fn lemma_total_crowding_update(keys: Seq<int>, i: int, a: int)
    requires
        0 <= i < keys.len(),
        a != keys[i],
    ensures
        total_crowding(keys.update(i, a)) == total_crowding(keys) + 2 * occupancy(keys, a) - 2
            * occupancy(keys, keys[i]) + 2,
{
    let after = keys.update(i, a);
    let n = keys.len() as int;
    lemma_crowding_keys_update(keys, after, i, a, n);
    lemma_crowding_among_update(keys, keys, i, a, n);
    assert(keys.take(n) =~= keys);
    lemma_occupancy_update(keys, i, a, a);
    lemma_occupancy_update(keys, i, a, keys[i]);
}

} // verus!
