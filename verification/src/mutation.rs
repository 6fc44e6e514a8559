//! The elementary perturbation of a permutation board: a transposition of
//! two distinct columns.

use vstd::prelude::*;
use crate::board::Board;
use crate::placement::{is_permutation, lemma_swapped_is_permutation, swapped};
use crate::stream::draw_below;

verus! {

/// The column that the draw `second` names among the columns other than
/// `first`: the draws from `first` on name the column after them.
pub open spec fn other_column(first: int, second: int) -> int {
    if second >= first {
        second + 1
    } else {
        second
    }
}

/// `after` is `before` with the rows of two distinct columns exchanged.
pub open spec fn is_transposition_of(after: Seq<usize>, before: Seq<usize>) -> bool {
    exists|i: int, j: int|
        0 <= i < before.len() && 0 <= j < before.len() && i != j && after == #[trigger] swapped(
            before,
            i,
            j,
        )
}

/// A transposition of a permutation is a permutation.
pub proof fn lemma_transposition_is_permutation(after: Seq<usize>, before: Seq<usize>)
    requires
        is_permutation(before),
        is_transposition_of(after, before),
    ensures
        is_permutation(after),
        after.len() == before.len(),
{
    let (i, j) = choose|i: int, j: int|
        0 <= i < before.len() && 0 <= j < before.len() && i != j && after == #[trigger] swapped(
            before,
            i,
            j,
        );
    lemma_swapped_is_permutation(before, i, j);
}

impl Board {
    /// Exchanges the rows of column `first` and of the column that `second`
    /// names among the others.  The cached fitness is left as it is.
    pub fn transpose(&mut self, first: usize, second: usize)
        requires
            is_permutation(old(self).queens@),
            first < old(self).queens@.len(),
            second < old(self).queens@.len() - 1,
        ensures
            final(self).queens@ == swapped(
                old(self).queens@,
                first as int,
                other_column(first as int, second as int),
            ),
            final(self).fitness == old(self).fitness,
            is_permutation(final(self).queens@),
            final(self).queens@.len() == old(self).queens@.len(),
    {
        let n = self.queens.len();
        let i = first;
        let mut j = second;
        if j >= i {
            j += 1;
        }
        let qi = self.queens[i];
        let qj = self.queens[j];
        proof {
            lemma_swapped_is_permutation(self.queens@, i as int, j as int);
        }
        self.queens[i] = qj;
        self.queens[j] = qi;
        assert(self.queens@ =~= swapped(old(self).queens@, i as int, j as int));
    }

    /// Exchanges the rows of two distinct columns drawn at random.
    pub fn do_mutate(&mut self, rng: &mut rand::XorShiftRng)
        requires
            is_permutation(old(self).queens@),
            old(self).queens@.len() >= 2,
        ensures
            is_transposition_of(final(self).queens@, old(self).queens@),
            final(self).fitness == old(self).fitness,
            is_permutation(final(self).queens@),
            final(self).queens@.len() == old(self).queens@.len(),
    {
        let n = self.queens.len();
        let i = draw_below(rng, n);
        let j = draw_below(rng, n - 1);
        self.transpose(i, j);
    }
}

} // verus!
