//! Dealing a permutation: every row is drawn from the rows that are left.

use vstd::prelude::*;
use crate::board::Board;
use crate::placement::is_permutation;
use crate::stream::draw_below;

verus! {

/// The rows `0..n` in rising order.
pub open spec fn rows_in_order(n: nat) -> Seq<usize> {
    Seq::new(n, |y: int| y as usize)
}

/// One draw for each row, each naming a position among the rows still
/// left: the first among `n`, the next among `n - 1`, and so on.
pub open spec fn draws_fit(draws: Seq<usize>) -> bool {
    forall|k: int| 0 <= k < draws.len() ==> #[trigger] draws[k] < draws.len() - k
}

/// The rows dealt from a pool.  Each draw takes the row at its position out
/// of the pool; the pool's last row moves into the gap.
pub open spec fn dealt(pool: Seq<usize>, draws: Seq<usize>) -> Seq<usize>
    decreases draws.len(),
{
    if draws.len() == 0 {
        Seq::<usize>::empty()
    } else {
        seq![pool[draws[0] as int]] + dealt(
            pool.update(draws[0] as int, pool.last()).drop_last(),
            draws.drop_first(),
        )
    }
}

/// `q` is dealt from the rows `0..n`, under some draws.
pub open spec fn is_dealt(q: Seq<usize>, n: nat) -> bool {
    exists|draws: Seq<usize>|
        draws.len() == n && draws_fit(draws) && q == #[trigger] dealt(rows_in_order(n), draws)
}

impl Board {
    /// The board dealt from the rows `0..n` by the given draws.  It is not
    /// evaluated.
    pub fn deal(draws: &[usize]) -> (board: Board)
        requires
            draws_fit(draws@),
        ensures
            board.queens@ == dealt(rows_in_order(draws@.len()), draws@),
            board.queens@.len() == draws@.len(),
            is_permutation(board.queens@),
            board.fitness == usize::MAX,
    {
        let n = draws.len();
        let mut queens: Vec<usize> = Vec::with_capacity(n);
        let mut ys: Vec<usize> = Vec::with_capacity(n);
        let mut y: usize = 0;
        while y < n
            invariant
                y <= n,
                ys@.len() == y,
                forall|k: int| 0 <= k < y ==> ys@[k] == k,
            decreases n - y,
        {
            ys.push(y);
            y += 1;
        }
        assert(ys@ =~= rows_in_order(n as nat));
        assert(draws@.skip(0) =~= draws@);
        assert(queens@ + dealt(ys@, draws@.skip(0)) =~= dealt(rows_in_order(n as nat), draws@));
        let mut k: usize = 0;
        while k < n
            invariant
                k <= n,
                n == draws@.len(),
                draws_fit(draws@),
                queens@.len() == k,
                ys@.len() == n - k,
                queens@ + dealt(ys@, draws@.skip(k as int)) == dealt(
                    rows_in_order(n as nat),
                    draws@,
                ),
                forall|a: int| 0 <= a < queens@.len() ==> #[trigger] queens@[a] < n,
                forall|a: int| 0 <= a < ys@.len() ==> #[trigger] ys@[a] < n,
                forall|a: int, b: int| 0 <= a < b < queens@.len() ==> queens@[a] != queens@[b],
                forall|a: int, b: int| 0 <= a < b < ys@.len() ==> ys@[a] != ys@[b],
                forall|a: int, b: int|
                    0 <= a < queens@.len() && 0 <= b < ys@.len() ==> queens@[a] != ys@[b],
            decreases n - k,
        {
            let ghost left = ys@;
            let ghost rows = queens@;
            let z = draws[k];
            let y = ys.swap_remove(z);
            proof {
                let rest = draws@.skip(k as int);
                assert(rest[0] == z);
                assert(rest.drop_first() =~= draws@.skip(k + 1));
                assert(dealt(left, rest) == seq![y] + dealt(ys@, draws@.skip(k + 1)));
                assert(rows.push(y) + dealt(ys@, draws@.skip(k + 1)) =~= rows + dealt(left, rest));
                assert forall|a: int, b: int| 0 <= a < b < ys@.len() implies ys@[a] != ys@[b] by {
                    let pa = if a == z { left.len() - 1 } else { a };
                    let pb = if b == z { left.len() - 1 } else { b };
                    assert(ys@[a] == left[pa] && ys@[b] == left[pb]);
                    if pa < pb {
                        assert(left[pa] != left[pb]);
                    } else {
                        assert(left[pb] != left[pa]);
                    }
                }
                assert forall|b: int| 0 <= b < ys@.len() implies ys@[b] != y by {
                    let pb = if b == z { left.len() - 1 } else { b };
                    assert(ys@[b] == left[pb]);
                    if pb < z {
                        assert(left[pb] != left[z as int]);
                    } else {
                        assert(left[z as int] != left[pb]);
                    }
                }
                assert forall|b: int| 0 <= b < ys@.len() implies #[trigger] ys@[b] < n by {
                    let pb = if b == z { left.len() - 1 } else { b };
                    assert(ys@[b] == left[pb]);
                }
            }
            queens.push(y);
            k += 1;
        }
        assert(draws@.skip(n as int) =~= Seq::<usize>::empty());
        assert(queens@ + Seq::<usize>::empty() =~= queens@);
        Board::new(queens)
    }

    /// A board of `n` columns dealt by draws made at random.  It is not
    /// evaluated.
    pub fn scattered(n: usize, rng: &mut rand::XorShiftRng) -> (board: Board)
        ensures
            is_dealt(board.queens@, n as nat),
            board.queens@.len() == n,
            is_permutation(board.queens@),
            board.fitness == usize::MAX,
    {
        let mut draws: Vec<usize> = Vec::with_capacity(n);
        let mut k: usize = 0;
        while k < n
            invariant
                k <= n,
                draws@.len() == k,
                forall|a: int| 0 <= a < k ==> #[trigger] draws@[a] < n - a,
            decreases n - k,
        {
            let z = draw_below(rng, n - k);
            draws.push(z);
            k += 1;
        }
        Board::deal(draws.as_slice())
    }
}

} // verus!
