//! The brute-force evaluator: counting attacking pairs of queens directly,
//! and the proof that the diagonal tables count the same.

use vstd::prelude::*;
use crate::board::Board;
use crate::occupancy::{crowding, lemma_crowding_step, lemma_occupancy_empty, lemma_occupancy_take, occupancy};
use crate::placement::{
    backward_keys, diagonal_fitness, forward_keys, is_permutation, lemma_probe_fits,
};

verus! {

/// The queens of two different columns share a row or a diagonal.
pub open spec fn attacks(q: Seq<usize>, x: int, y: int) -> bool {
    x != y && (q[x] == q[y] || x - q[x] == y - q[y] || x + q[x] == y + q[y])
}

/// How many of the first `m` columns hold a queen that attacks the queen of
/// column `x`.
pub open spec fn attackers(q: Seq<usize>, x: int, m: int) -> int
    decreases m,
{
    if m <= 0 {
        0
    } else {
        attackers(q, x, m - 1) + if attacks(q, x, m - 1) {
            1int
        } else {
            0int
        }
    }
}

/// The attackers of the queens of the first `m` columns, added up.
pub open spec fn conflicts(q: Seq<usize>, m: int) -> int
    decreases m,
{
    if m <= 0 {
        0
    } else {
        conflicts(q, m - 1) + attackers(q, m - 1, q.len() as int)
    }
}

/// The number of ordered pairs of queens that attack each other: every
/// attacking pair counts once in each direction.
pub open spec fn pairwise_conflicts(q: Seq<usize>) -> int {
    conflicts(q, q.len() as int)
}

/// No queen attacks the queen of column `x`.
pub open spec fn is_safe(q: Seq<usize>, x: int) -> bool {
    attackers(q, x, q.len() as int) == 0
}

/// How many of the first `m` columns hold a queen that no queen attacks.
pub open spec fn safe_queens(q: Seq<usize>, m: int) -> int
    decreases m,
{
    if m <= 0 {
        0
    } else {
        safe_queens(q, m - 1) + if is_safe(q, m - 1) {
            1int
        } else {
            0int
        }
    }
}

/// The score of a placement: the number of queens that no queen attacks.
pub open spec fn score(q: Seq<usize>) -> int {
    safe_queens(q, q.len() as int)
}

/// A queen has no more attackers among `m` columns than there are columns.
pub proof fn lemma_attackers_bounds(q: Seq<usize>, x: int, m: int)
    requires
        0 <= m,
    ensures
        0 <= attackers(q, x, m) <= m,
    decreases m,
{
    if m > 0 {
        lemma_attackers_bounds(q, x, m - 1);
    }
}

/// A queen does not attack itself: among `m` columns that hold its own,
/// it has fewer attackers than there are columns.
pub proof fn lemma_attackers_spare_one(q: Seq<usize>, x: int, m: int)
    requires
        0 <= x < m,
    ensures
        attackers(q, x, m) <= m - 1,
    decreases m,
{
    if x < m - 1 {
        lemma_attackers_spare_one(q, x, m - 1);
    } else {
        lemma_attackers_bounds(q, x, m - 1);
    }
}

/// The attackers of `m` queens of the board are at most `m` times all the
/// other queens.
pub proof fn lemma_conflicts_bounds(q: Seq<usize>, m: int)
    requires
        0 <= m <= q.len(),
    ensures
        0 <= conflicts(q, m) <= m * (q.len() - 1),
    decreases m,
{
    if m > 0 {
        lemma_conflicts_bounds(q, m - 1);
        lemma_attackers_bounds(q, m - 1, q.len() as int);
        lemma_attackers_spare_one(q, m - 1, q.len() as int);
        assert((m - 1) * (q.len() - 1) + (q.len() - 1) == m * (q.len() - 1)) by (nonlinear_arith);
    } else {
        assert(0 * (q.len() - 1) == 0);
    }
}

/// No more than `m` of `m` queens are safe.
pub proof fn lemma_safe_queens_bounds(q: Seq<usize>, m: int)
    requires
        0 <= m,
    ensures
        0 <= safe_queens(q, m) <= m,
    decreases m,
{
    if m > 0 {
        lemma_safe_queens_bounds(q, m - 1);
    }
}

/// Among the first `m` columns every queen is safe exactly where none of
/// them is attacked.
proof fn lemma_all_safe_upto(q: Seq<usize>, m: int)
    requires
        0 <= m <= q.len(),
    ensures
        safe_queens(q, m) == m <==> conflicts(q, m) == 0,
    decreases m,
{
    if m > 0 {
        lemma_all_safe_upto(q, m - 1);
        lemma_safe_queens_bounds(q, m - 1);
        lemma_conflicts_bounds(q, m - 1);
        lemma_attackers_bounds(q, m - 1, q.len() as int);
    }
}

/// Among the first `m` columns, the queens on the two diagonals of the
/// queen of column `x` are its attackers, and itself on each.
proof fn lemma_diagonals_hold_attackers(q: Seq<usize>, x: int, m: int)
    requires
        is_permutation(q),
        0 <= x < q.len(),
        0 <= m <= q.len(),
    ensures
        occupancy(forward_keys(q).take(m), forward_keys(q)[x]) + occupancy(
            backward_keys(q).take(m),
            backward_keys(q)[x],
        ) == attackers(q, x, m) + if x < m {
            2int
        } else {
            0int
        },
    decreases m,
{
    let f = forward_keys(q);
    let b = backward_keys(q);
    if m == 0 {
        assert(f.take(0) =~= Seq::<int>::empty());
        assert(b.take(0) =~= Seq::<int>::empty());
        lemma_occupancy_empty(f[x]);
        lemma_occupancy_empty(b[x]);
    } else {
        let y = m - 1;
        lemma_diagonals_hold_attackers(q, x, y);
        lemma_occupancy_take(f, y, f[x]);
        lemma_occupancy_take(b, y, b[x]);
        if y < x {
            assert(q[y] != q[x]);
        } else if x < y {
            assert(q[x] != q[y]);
        }
    }
}

/// The fitness read off the diagonal tables is the number of attacking
/// ordered pairs, and two for every queen: itself, counted on each of its
/// diagonals.
pub proof fn lemma_evaluators_agree(q: Seq<usize>)
    requires
        is_permutation(q),
    ensures
        diagonal_fitness(q) == pairwise_conflicts(q) + 2 * q.len(),
{
    lemma_evaluators_agree_upto(q, q.len() as int);
}

/// The part of the fitness that the first `m` queens account for is at
/// most `m` times one more than the board's size.
pub proof fn lemma_partial_fitness_bounds(q: Seq<usize>, m: int)
    requires
        is_permutation(q),
        0 <= m <= q.len(),
    ensures
        crowding(forward_keys(q), forward_keys(q), m) + crowding(
            backward_keys(q),
            backward_keys(q),
            m,
        ) <= m * (q.len() + 1),
        m * (q.len() + 1) <= q.len() * q.len() + q.len(),
        diagonal_fitness(q) <= q.len() * q.len() + q.len(),
{
    let n = q.len() as int;
    lemma_evaluators_agree_upto(q, m);
    lemma_conflicts_bounds(q, m);
    lemma_evaluators_agree_upto(q, n);
    lemma_conflicts_bounds(q, n);
    assert(m * (n - 1) + 2 * m == m * (n + 1)) by (nonlinear_arith);
    assert(n * (n - 1) + 2 * n == n * n + n) by (nonlinear_arith);
    assert(m * (n + 1) <= n * n + n) by (nonlinear_arith)
        requires
            0 <= m <= n,
    ;
}

/// The agreement of the two evaluators, for the first `m` columns.
proof fn lemma_evaluators_agree_upto(q: Seq<usize>, m: int)
    requires
        is_permutation(q),
        0 <= m <= q.len(),
    ensures
        crowding(forward_keys(q), forward_keys(q), m) + crowding(
            backward_keys(q),
            backward_keys(q),
            m,
        ) == conflicts(q, m) + 2 * m,
    decreases m,
{
    let f = forward_keys(q);
    let b = backward_keys(q);
    let n = q.len() as int;
    if m == 0 {
        lemma_crowding_step(f, f, 0);
        lemma_crowding_step(b, b, 0);
    } else {
        lemma_evaluators_agree_upto(q, m - 1);
        lemma_crowding_step(f, f, m - 1);
        lemma_crowding_step(b, b, m - 1);
        lemma_diagonals_hold_attackers(q, m - 1, n);
        assert(f.take(n) =~= f);
        assert(b.take(n) =~= b);
    }
}

/// The three measures agree on what a solution is: every queen scores, no
/// pair attacks, and the fitness is two for every queen.
pub proof fn lemma_solutions_agree(q: Seq<usize>)
    requires
        is_permutation(q),
    ensures
        score(q) == q.len() <==> pairwise_conflicts(q) == 0,
        pairwise_conflicts(q) == 0 <==> diagonal_fitness(q) == 2 * q.len(),
        0 <= score(q) <= q.len(),
{
    lemma_all_safe_upto(q, q.len() as int);
    lemma_safe_queens_bounds(q, q.len() as int);
    lemma_evaluators_agree(q);
}

impl Board {
    /// Counts the queens that attack the queen of column `x`.
    pub fn count_attackers(&self, x: usize) -> (hits: usize)
        requires
            self.valid(),
            x < self.queens@.len(),
        ensures
            hits == attackers(self.queens@, x as int, self.queens@.len() as int),
            hits <= self.queens@.len(),
    {
        let n = self.queens.len();
        let ghost q = self.queens@;
        let qx = self.queens[x];
        let mut hits: usize = 0;
        let mut y: usize = 0;
        proof {
            lemma_probe_fits(n as int);
        }
        while y < n
            invariant
                y <= n,
                x < n,
                2 * n <= usize::MAX,
                n == q.len(),
                q == self.queens@,
                self.valid(),
                qx == q[x as int],
                hits == attackers(q, x as int, y as int),
                hits <= y,
            decreases n - y,
        {
            let qy = self.queens[y];
            if x != y && (qx == qy || x + qy == y + qx || x + qx == y + qy) {
                hits += 1;
            }
            y += 1;
        }
        hits
    }

    /// Counts the queens that no queen attacks.  A board scores its size
    /// exactly where its fitness is two for every queen.
    pub fn count_safe_queens(&self) -> (count: usize)
        requires
            self.valid(),
        ensures
            count == score(self.queens@),
            count <= self.queens@.len(),
            count == self.queens@.len() <==> diagonal_fitness(self.queens@) == 2
                * self.queens@.len(),
    {
        let n = self.queens.len();
        let ghost q = self.queens@;
        let mut count: usize = 0;
        let mut x: usize = 0;
        while x < n
            invariant
                x <= n,
                n == q.len(),
                q == self.queens@,
                self.valid(),
                count == safe_queens(q, x as int),
                count <= x,
            decreases n - x,
        {
            if self.count_attackers(x) == 0 {
                count += 1;
            }
            x += 1;
        }
        proof {
            lemma_solutions_agree(q);
        }
        count
    }

    /// Counts the attacking ordered pairs by comparing every queen with
    /// every other.  The count is the board's fitness less two for every
    /// queen.
    pub fn count_conflicts(&self) -> (count: usize)
        requires
            self.valid(),
        ensures
            count == pairwise_conflicts(self.queens@),
            count + 2 * self.queens@.len() == diagonal_fitness(self.queens@),
    {
        let n = self.queens.len();
        let ghost q = self.queens@;
        let mut count: usize = 0;
        let mut x: usize = 0;
        while x < n
            invariant
                x <= n,
                n == q.len(),
                q == self.queens@,
                self.valid(),
                count == conflicts(q, x as int),
            decreases n - x,
        {
            let hits = self.count_attackers(x);
            proof {
                lemma_conflicts_bounds(q, x + 1);
                assert((x + 1) * (n - 1) <= n * n + n) by (nonlinear_arith)
                    requires
                        0 <= x + 1 <= n,
                ;
            }
            count += hits;
            x += 1;
        }
        proof {
            lemma_evaluators_agree(q);
        }
        count
    }
}

} // verus!
