//! Partially-matched crossover of two permutations.
//!
//! The child starts as a copy of the first parent.  At each position that
//! is to take the second parent's gene, the child exchanges the row it
//! holds there with the row the second parent holds there, wherever the
//! child has it.  Rows are only ever exchanged, so the child stays a
//! permutation.

use vstd::prelude::*;
use crate::board::Board;
use crate::placement::{
    column_of, is_permutation, lemma_column_of, lemma_permutation_onto,
    lemma_swapped_is_permutation, swapped,
};
use crate::stream::draw_below;

verus! {

/// The child after position `x` has taken the father's gene: the row that
/// the father holds at `x` has changed places with the row that the child
/// held there.
pub open spec fn matched_swap(child: Seq<usize>, father: Seq<usize>, x: int) -> Seq<usize> {
    swapped(child, x, column_of(child, father[x]))
}

/// The child of the scattered crossover after the first `m` positions: each
/// position `x` with `picks[x]`, in rising order, has taken the father's
/// gene.
pub open spec fn pmx_scattered(
    mother: Seq<usize>,
    father: Seq<usize>,
    picks: Seq<bool>,
    m: int,
) -> Seq<usize>
    decreases m,
{
    if m <= 0 {
        mother
    } else {
        let before = pmx_scattered(mother, father, picks, m - 1);
        if picks[m - 1] {
            matched_swap(before, father, m - 1)
        } else {
            before
        }
    }
}

/// The position `t` steps after `start` on a ring of `n` positions, for
/// `start < n` and `t <= n`.
pub open spec fn segment_position(start: int, t: int, n: int) -> int {
    if start + t < n {
        start + t
    } else {
        start + t - n
    }
}

/// The child of the segment crossover after `count` positions: the
/// positions that follow `start` on the ring have, one after the other,
/// taken the father's gene.
pub open spec fn pmx_segment(
    mother: Seq<usize>,
    father: Seq<usize>,
    start: int,
    count: int,
) -> Seq<usize>
    decreases count,
{
    if count <= 0 {
        mother
    } else {
        matched_swap(
            pmx_segment(mother, father, start, count - 1),
            father,
            segment_position(start, count, mother.len() as int),
        )
    }
}

/// `child` is a scattered crossover of the two parents, under some picks.
pub open spec fn is_scattered_child(child: Seq<usize>, mother: Seq<usize>, father: Seq<usize>) -> bool {
    exists|picks: Seq<bool>|
        picks.len() == mother.len() && child == #[trigger] pmx_scattered(
            mother,
            father,
            picks,
            picks.len() as int,
        )
}

/// `child` is a segment crossover of the two parents, from some offset.
pub open spec fn is_segment_child(child: Seq<usize>, mother: Seq<usize>, father: Seq<usize>) -> bool {
    exists|start: int|
        0 <= start < mother.len() && child == #[trigger] pmx_segment(
            mother,
            father,
            start,
            (mother.len() / 2) as int,
        )
}

/// A matched swap exchanges two rows of the child, so a permutation stays
/// one.
pub proof fn lemma_matched_swap_is_permutation(child: Seq<usize>, father: Seq<usize>, x: int)
    requires
        is_permutation(child),
        is_permutation(father),
        father.len() == child.len(),
        0 <= x < child.len(),
    ensures
        is_permutation(matched_swap(child, father, x)),
        matched_swap(child, father, x).len() == child.len(),
        matched_swap(child, father, x)[x] == father[x],
{
    lemma_permutation_onto(child, father[x]);
    lemma_swapped_is_permutation(child, x, column_of(child, father[x]));
}

/// The scattered crossover of two permutations is a permutation, whatever
/// the picks.
pub proof fn lemma_pmx_scattered_is_permutation(
    mother: Seq<usize>,
    father: Seq<usize>,
    picks: Seq<bool>,
    m: int,
)
    requires
        is_permutation(mother),
        is_permutation(father),
        father.len() == mother.len(),
        m <= mother.len(),
    ensures
        is_permutation(pmx_scattered(mother, father, picks, m)),
        pmx_scattered(mother, father, picks, m).len() == mother.len(),
    decreases m,
{
    if m > 0 {
        lemma_pmx_scattered_is_permutation(mother, father, picks, m - 1);
        lemma_matched_swap_is_permutation(
            pmx_scattered(mother, father, picks, m - 1),
            father,
            m - 1,
        );
    }
}

/// The segment crossover of two permutations is a permutation, wherever it
/// starts.
pub proof fn lemma_pmx_segment_is_permutation(
    mother: Seq<usize>,
    father: Seq<usize>,
    start: int,
    count: int,
)
    requires
        is_permutation(mother),
        is_permutation(father),
        father.len() == mother.len(),
        0 <= start < mother.len(),
        count <= mother.len(),
    ensures
        is_permutation(pmx_segment(mother, father, start, count)),
        pmx_segment(mother, father, start, count).len() == mother.len(),
    decreases count,
{
    if count > 0 {
        lemma_pmx_segment_is_permutation(mother, father, start, count - 1);
        lemma_matched_swap_is_permutation(
            pmx_segment(mother, father, start, count - 1),
            father,
            segment_position(start, count, mother.len() as int),
        );
    }
}

/// After the scattered crossover every picked position holds the father's
/// gene.
pub proof fn lemma_pmx_scattered_takes_genes(
    mother: Seq<usize>,
    father: Seq<usize>,
    picks: Seq<bool>,
    m: int,
    x: int,
)
    requires
        is_permutation(mother),
        is_permutation(father),
        father.len() == mother.len(),
        0 <= x < m <= mother.len(),
        picks[x],
    ensures
        pmx_scattered(mother, father, picks, m)[x] == father[x],
    decreases m,
{
    let before = pmx_scattered(mother, father, picks, m - 1);
    lemma_pmx_scattered_is_permutation(mother, father, picks, m - 1);
    if x == m - 1 {
        lemma_matched_swap_is_permutation(before, father, x);
    } else {
        lemma_pmx_scattered_takes_genes(mother, father, picks, m - 1, x);
        if picks[m - 1] {
            lemma_permutation_onto(before, father[m - 1]);
            assert(father[x] != father[m - 1]);
        }
    }
}

/// After the segment crossover every position of the segment holds the
/// father's gene.
pub proof fn lemma_pmx_segment_takes_genes(
    mother: Seq<usize>,
    father: Seq<usize>,
    start: int,
    count: int,
    t: int,
)
    requires
        is_permutation(mother),
        is_permutation(father),
        father.len() == mother.len(),
        0 <= start < mother.len(),
        1 <= t <= count <= mother.len(),
    ensures
        pmx_segment(mother, father, start, count)[segment_position(
            start,
            t,
            mother.len() as int,
        )] == father[segment_position(start, t, mother.len() as int)],
    decreases count,
{
    let n = mother.len() as int;
    let before = pmx_segment(mother, father, start, count - 1);
    let x = segment_position(start, t, n);
    let last = segment_position(start, count, n);
    lemma_pmx_segment_is_permutation(mother, father, start, count - 1);
    if t == count {
        lemma_matched_swap_is_permutation(before, father, x);
    } else {
        lemma_pmx_segment_takes_genes(mother, father, start, count - 1, t);
        lemma_permutation_onto(before, father[last]);
        assert(x != last);
        if x < last {
            assert(father[x] != father[last]);
        } else {
            assert(father[last] != father[x]);
        }
    }
}

/// The inverse index still tells, for the gene of every pending position of
/// the father, where the child holds it.
spec fn serves(child: Seq<usize>, inverse: Seq<usize>, father: Seq<usize>, pending: Set<int>) -> bool {
    &&& inverse.len() == child.len()
    &&& forall|v: int| 0 <= v < inverse.len() ==> #[trigger] inverse[v] < child.len()
    &&& forall|p: int|
        0 <= p < father.len() && #[trigger] pending.contains(p) ==> child[inverse[father[p] as int] as int]
            == father[p]
}

/// An index that serves a set of pending positions serves any part of it.
proof fn lemma_serves_fewer(
    child: Seq<usize>,
    inverse: Seq<usize>,
    father: Seq<usize>,
    pending: Set<int>,
    rest: Set<int>,
)
    requires
        serves(child, inverse, father, pending),
        rest.subset_of(pending),
    ensures
        serves(child, inverse, father, rest),
{
    assert forall|p: int| 0 <= p < father.len() && #[trigger] rest.contains(p) implies child[inverse[father[p] as int] as int]
        == father[p] by {
        assert(pending.contains(p));
    }
}

/// For every row, the column that holds it.
fn inverse_index(child: &Vec<usize>, Ghost(father): Ghost<Seq<usize>>) -> (inverse: Vec<usize>)
    requires
        is_permutation(child@),
        is_permutation(father),
        father.len() == child@.len(),
    ensures
        serves(child@, inverse@, father, Set::new(|p: int| true)),
{
    let n = child.len();
    let mut inverse: Vec<usize> = vec![0; n];
    let mut i: usize = 0;
    while i < n
        invariant
            i <= n,
            n == child@.len(),
            inverse@.len() == n,
            is_permutation(child@),
            forall|v: int| 0 <= v < n ==> #[trigger] inverse@[v] < n,
            forall|x: int| 0 <= x < i ==> inverse@[#[trigger] child@[x] as int] == x,
        decreases n - i,
    {
        let y = child[i];
        proof {
            assert forall|x: int| 0 <= x < i implies child@[x] != y by {
                assert(child@[x] != child@[i as int]);
            }
        }
        inverse[y] = i;
        i += 1;
    }
    proof {
        assert forall|p: int| 0 <= p < father.len() implies child@[inverse@[father[p] as int] as int]
            == father[p] by {
            lemma_permutation_onto(child@, father[p]);
            let x = column_of(child@, father[p]);
            assert(inverse@[child@[x] as int] == x);
        }
    }
    inverse
}

/// Position `x` of the child takes the father's gene.
fn matched_swap_at(
    child: &mut Vec<usize>,
    inverse: &mut Vec<usize>,
    father: &Vec<usize>,
    x: usize,
    Ghost(pending): Ghost<Set<int>>,
)
    requires
        is_permutation(old(child)@),
        is_permutation(father@),
        father@.len() == old(child)@.len(),
        x < father@.len(),
        pending.contains(x as int),
        serves(old(child)@, old(inverse)@, father@, pending),
    ensures
        final(child)@ == matched_swap(old(child)@, father@, x as int),
        is_permutation(final(child)@),
        final(child)@.len() == old(child)@.len(),
        serves(final(child)@, final(inverse)@, father@, pending.remove(x as int)),
{
    let ghost before = child@;
    let ghost index = inverse@;
    let mother_y = child[x];
    let father_y = father[x];
    let father_x = inverse[father_y];
    proof {
        assert(before[father_x as int] == father_y);
        lemma_column_of(before, father_x as int);
        lemma_swapped_is_permutation(before, x as int, father_x as int);
    }
    child[father_x] = mother_y;
    child[x] = father_y;
    inverse[mother_y] = father_x;
    proof {
        assert(child@ =~= swapped(before, x as int, father_x as int));
        let rest = pending.remove(x as int);
        assert forall|p: int| 0 <= p < father@.len() && #[trigger] rest.contains(p) implies child@[inverse@[father@[p] as int] as int]
            == father@[p] by {
            let v = father@[p];
            assert(pending.contains(p));
            assert(before[index[v as int] as int] == v);
            if p < x {
                assert(father@[p] != father@[x as int]);
            } else {
                assert(father@[x as int] != father@[p]);
            }
            if v == mother_y {
                assert(father_x != x);
            } else {
                let c = index[v as int];
                assert(c != x);
                assert(c != father_x);
            }
        }
    }
}

impl Board {
    /// The scattered crossover of two parents under given picks: the child
    /// is the first parent in which every picked position, in rising order,
    /// has taken the second parent's gene.  The child is not evaluated.
    pub fn cross_scattered(parents: &[Board], picks: &[bool]) -> (child: Board)
        requires
            parents@.len() == 2,
            is_permutation(parents@[0].queens@),
            is_permutation(parents@[1].queens@),
            parents@[0].queens@.len() == parents@[1].queens@.len(),
            picks@.len() == parents@[0].queens@.len(),
        ensures
            child.queens@ == pmx_scattered(
                parents@[0].queens@,
                parents@[1].queens@,
                picks@,
                picks@.len() as int,
            ),
            forall|x: int|
                0 <= x < picks@.len() && picks@[x] ==> #[trigger] child.queens@[x]
                    == parents@[1].queens@[x],
            is_permutation(child.queens@),
            child.queens@.len() == parents@[0].queens@.len(),
            child.fitness == usize::MAX,
    {
        let father = &parents[1].queens;
        let mut queens = parents[0].queens.clone();
        assert(queens@ =~= parents@[0].queens@);
        let n = queens.len();
        let mut inverse = inverse_index(&queens, Ghost(father@));
        let mut x: usize = 0;
        proof {
            lemma_serves_fewer(
                queens@,
                inverse@,
                father@,
                Set::new(|p: int| true),
                Set::new(|p: int| 0 <= p),
            );
        }
        while x < n
            invariant
                x <= n,
                n == queens@.len(),
                n == picks@.len(),
                parents@.len() == 2,
                father@ == parents@[1].queens@,
                father@.len() == n,
                is_permutation(father@),
                is_permutation(queens@),
                queens@ == pmx_scattered(parents@[0].queens@, father@, picks@, x as int),
                serves(queens@, inverse@, father@, Set::new(|p: int| x <= p)),
            decreases n - x,
        {
            let ghost pending = Set::new(|p: int| x <= p);
            if picks[x] {
                matched_swap_at(&mut queens, &mut inverse, father, x, Ghost(pending));
            }
            proof {
                let rest = Set::new(|p: int| x + 1 <= p);
                if picks@[x as int] {
                    lemma_serves_fewer(queens@, inverse@, father@, pending.remove(x as int), rest);
                } else {
                    lemma_serves_fewer(queens@, inverse@, father@, pending, rest);
                }
            }
            x += 1;
        }
        proof {
            assert forall|x: int| 0 <= x < picks@.len() && picks@[x] implies #[trigger] queens@[x]
                == father@[x] by {
                lemma_pmx_scattered_takes_genes(
                    parents@[0].queens@,
                    father@,
                    picks@,
                    picks@.len() as int,
                    x,
                );
            }
        }
        Board::new(queens)
    }

    /// The segment crossover of two parents from a given offset: the child
    /// is the first parent in which the `n / 2` positions that follow
    /// `start`, wrapping round, have one after the other taken the second
    /// parent's gene.  The child is not evaluated.
    pub fn cross_segment(parents: &[Board], start: usize) -> (child: Board)
        requires
            parents@.len() == 2,
            is_permutation(parents@[0].queens@),
            is_permutation(parents@[1].queens@),
            parents@[0].queens@.len() == parents@[1].queens@.len(),
            start < parents@[0].queens@.len(),
        ensures
            child.queens@ == pmx_segment(
                parents@[0].queens@,
                parents@[1].queens@,
                start as int,
                (parents@[0].queens@.len() / 2) as int,
            ),
            forall|t: int|
                1 <= t <= parents@[0].queens@.len() / 2 ==> child.queens@[#[trigger] segment_position(
                    start as int,
                    t,
                    parents@[0].queens@.len() as int,
                )] == parents@[1].queens@[segment_position(
                    start as int,
                    t,
                    parents@[0].queens@.len() as int,
                )],
            is_permutation(child.queens@),
            child.queens@.len() == parents@[0].queens@.len(),
            child.fitness == usize::MAX,
    {
        let father = &parents[1].queens;
        let mut queens = parents[0].queens.clone();
        assert(queens@ =~= parents@[0].queens@);
        let n = queens.len();
        let mut inverse = inverse_index(&queens, Ghost(father@));
        let mut x = start;
        let mut t: usize = 0;
        proof {
            lemma_serves_fewer(
                queens@,
                inverse@,
                father@,
                Set::new(|p: int| true),
                Set::new(|p: int| !(start < p <= start + 0) && !(start < p + n <= start + 0)),
            );
        }
        while t < n / 2
            invariant
                t <= n / 2,
                start < n,
                parents@.len() == 2,
                n == queens@.len(),
                n == parents@[0].queens@.len(),
                father@ == parents@[1].queens@,
                father@.len() == n,
                is_permutation(father@),
                is_permutation(queens@),
                x == segment_position(start as int, t as int, n as int),
                queens@ == pmx_segment(parents@[0].queens@, father@, start as int, t as int),
                serves(
                    queens@,
                    inverse@,
                    father@,
                    Set::new(
                        |p: int|
                            !(start < p <= start + t) && !(start < p + n <= start + t),
                    ),
                ),
            decreases n / 2 - t,
        {
            let ghost pending = Set::new(
                |p: int| !(start < p <= start + t) && !(start < p + n <= start + t),
            );
            x += 1;
            if x == n {
                x = 0;
            }
            matched_swap_at(&mut queens, &mut inverse, father, x, Ghost(pending));
            proof {
                let rest = Set::new(
                    |p: int| !(start < p <= start + t + 1) && !(start < p + n <= start + t + 1),
                );
                lemma_serves_fewer(queens@, inverse@, father@, pending.remove(x as int), rest);
            }
            t += 1;
        }
        proof {
            assert forall|t: int| 1 <= t <= n / 2 implies queens@[#[trigger] segment_position(
                start as int,
                t,
                n as int,
            )] == father@[segment_position(start as int, t, n as int)] by {
                lemma_pmx_segment_takes_genes(
                    parents@[0].queens@,
                    father@,
                    start as int,
                    (n / 2) as int,
                    t,
                );
            }
        }
        Board::new(queens)
    }

    /// Partially-matched crossover in which every position takes the second
    /// parent's gene with one chance in two.
    pub fn breed_pmx(parents: &[Board], rng: &mut rand::XorShiftRng) -> (child: Board)
        requires
            parents@.len() == 2,
            is_permutation(parents@[0].queens@),
            is_permutation(parents@[1].queens@),
            parents@[0].queens@.len() == parents@[1].queens@.len(),
        ensures
            is_scattered_child(child.queens@, parents@[0].queens@, parents@[1].queens@),
            is_permutation(child.queens@),
            child.queens@.len() == parents@[0].queens@.len(),
            child.fitness == usize::MAX,
    {
        let n = parents[0].queens.len();
        let mut picks: Vec<bool> = Vec::new();
        let mut x: usize = 0;
        while x < n
            invariant
                x <= n,
                picks@.len() == x,
                parents@.len() == 2,
            decreases n - x,
        {
            let parent = draw_below(rng, parents.len());
            picks.push(parent == 1);
            x += 1;
        }
        Board::cross_scattered(parents, picks.as_slice())
    }

    /// Partially-matched crossover of a run of `n / 2` consecutive
    /// positions that starts after a random offset.
    pub fn breed_pmx_norng(parents: &[Board], rng: &mut rand::XorShiftRng) -> (child: Board)
        requires
            parents@.len() == 2,
            parents@[0].queens@.len() >= 1,
            is_permutation(parents@[0].queens@),
            is_permutation(parents@[1].queens@),
            parents@[0].queens@.len() == parents@[1].queens@.len(),
        ensures
            is_segment_child(child.queens@, parents@[0].queens@, parents@[1].queens@),
            is_permutation(child.queens@),
            child.queens@.len() == parents@[0].queens@.len(),
            child.fitness == usize::MAX,
    {
        let start = draw_below(rng, parents[0].queens.len());
        Board::cross_segment(parents, start)
    }
}

} // verus!
