//! The permutation board and its evaluator: diagonal tables, the cached
//! fitness, and the single hill-climbing probe that refines a board after
//! its evaluation.

use vstd::prelude::*;
use crate::occupancy::{
    crowding, lemma_crowding_bounds, lemma_crowding_step, lemma_occupancy_bounds,
    lemma_occupancy_empty, lemma_occupancy_member, lemma_occupancy_pair, lemma_occupancy_take,
    occupancy,
};
use crate::placement::{
    backward_keys, diagonal_fitness, forward_keys, is_permutation, lemma_fitness_bounds,
    is_permutation_of_rows, lemma_probe_fits, lemma_swap_gain, lemma_swapped_is_permutation,
    size_is_supported,
    supported_size, swap_gain, swapped,
};
use crate::config::{mutation_due, Config, Crossover, Evaluation, Goal, PROBABILITY_SCALE};
use crate::conflicts::lemma_partial_fitness_bounds;
use crate::crossover::{is_scattered_child, is_segment_child};
use crate::deal::is_dealt;
use crate::mutation::is_transposition_of;
use crate::specimen::Specimen;
use crate::stream::{draw_below, draw_word};

verus! {

/// One candidate: a placement and the fitness last computed for it.
#[derive(Clone, Debug)]
pub struct Board {
    pub fitness: usize,
    pub queens: Vec<usize>,
}

/// For every forward and every backward diagonal of a board, the number of
/// queens on it.
#[derive(Debug)]
pub struct DiagonalTables {
    pub forward: Vec<usize>,
    pub backward: Vec<usize>,
}

impl DiagonalTables {
    /// The tables hold the occupancy of the `2n - 1` diagonals of each
    /// direction of the placement `q`.
    pub open spec fn describes(&self, q: Seq<usize>) -> bool {
        &&& self.forward@.len() == 2 * q.len() - 1
        &&& self.backward@.len() == 2 * q.len() - 1
        &&& forall|d: int|
            0 <= d < 2 * q.len() - 1 ==> #[trigger] self.forward@[d] == occupancy(
                forward_keys(q),
                d,
            )
        &&& forall|d: int|
            0 <= d < 2 * q.len() - 1 ==> #[trigger] self.backward@[d] == occupancy(
                backward_keys(q),
                d,
            )
    }
}

/// The occupancy of the eight diagonals that an exchange of two queens
/// involves: for the queens `i` and `j`, in the forward (`1`) and the
/// backward (`2`) direction, the diagonal it stands on (`o`) and the one it
/// would stand on (`n`).
struct Involved {
    ci1o: usize,
    ci2o: usize,
    cj1o: usize,
    cj2o: usize,
    ci1n: usize,
    ci2n: usize,
    cj1n: usize,
    cj2n: usize,
    same_forward: bool,
    same_backward: bool,
}

impl Involved {
    /// The occupancy that the two queens leave.
    spec fn leaving(&self) -> int {
        self.ci1o + self.ci2o + self.cj1o + self.cj2o
    }

    /// The occupancy that the two queens join.
    spec fn joining(&self) -> int {
        self.ci1n + self.ci2n + self.cj1n + self.cj2n
    }

    /// By how much the exchange lowers the fitness.
    spec fn gain(&self) -> int {
        2 * self.leaving() - 2 * self.joining() - 8 - if self.same_forward || self.same_backward {
            4int
        } else {
            0int
        }
    }

    /// The counts are consistent with one another, and small enough to be
    /// weighed in `usize`.
    spec fn sound(&self, n: int) -> bool {
        &&& supported_size(n)
        &&& 1 <= self.ci1o <= n && 1 <= self.ci2o <= n
        &&& 1 <= self.cj1o <= n && 1 <= self.cj2o <= n
        &&& self.ci1n <= n && self.ci2n <= n && self.cj1n <= n && self.cj2n <= n
        &&& !(self.same_forward && self.same_backward)
        &&& self.same_forward ==> self.ci1o == self.cj1o && self.ci1o >= 2 && self.ci2n
            == self.cj2n
        &&& self.same_backward ==> self.ci2o == self.cj2o && self.ci2o >= 2 && self.ci1n
            == self.cj1n
    }

    /// The counts are those of the placement `q` for the columns `i` and
    /// `j`.
    spec fn counts(&self, q: Seq<usize>, i: int, j: int) -> bool {
        let n = q.len() as int;
        let f = forward_keys(q);
        let b = backward_keys(q);
        &&& self.sound(n)
        &&& self.ci1o == occupancy(f, f[i]) && self.ci2o == occupancy(b, b[i])
        &&& self.cj1o == occupancy(f, f[j]) && self.cj2o == occupancy(b, b[j])
        &&& self.ci1n == occupancy(f, n - 1 + j - q[i]) && self.ci2n == occupancy(b, j + q[i])
        &&& self.cj1n == occupancy(f, n - 1 + i - q[j]) && self.cj2n == occupancy(b, i + q[j])
        &&& self.same_forward == (f[i] == f[j])
        &&& self.same_backward == (b[i] == b[j])
    }

    /// The part of the fitness that the two queens account for before the
    /// exchange and after it; nothing where both are alone on both their
    /// diagonals, as no exchange can gain then.
    fn weigh(&self, Ghost(n): Ghost<int>) -> (effect: Option<(usize, usize)>)
        requires
            self.sound(n),
        ensures
            match effect {
                None => self.gain() <= 0,
                Some((before, after)) => {
                    &&& before - after == self.gain()
                    &&& before <= 8 * n
                    &&& after <= 8 * n + 8
                },
            },
    {
        proof {
            lemma_probe_fits(n);
        }
        let ci_old = self.ci1o + self.ci2o;
        let cj_old = self.cj1o + self.cj2o;
        if ci_old == 2 && cj_old == 2 {
            return None;
        }
        let fold;
        let fnew;
        if self.same_forward {
            let c1o = (self.ci1o - 1) * 4;
            let c2n = (self.ci2n + 1) * 4;
            let c2o = self.ci2o + self.cj2o;
            let c1n = self.ci1n + self.cj1n;
            fold = c1o + (c2o - 1) * 2;
            fnew = c2n + (c1n + 1) * 2;
        } else if self.same_backward {
            let c2o = (self.ci2o - 1) * 4;
            let c1n = (self.ci1n + 1) * 4;
            let c1o = self.ci1o + self.cj1o;
            let c2n = self.ci2n + self.cj2n;
            fold = c2o + (c1o - 1) * 2;
            fnew = c1n + (c2n + 1) * 2;
        } else {
            let ci_new = self.ci1n + self.ci2n + 2;
            let cj_new = self.cj1n + self.cj2n + 2;
            fold = (ci_old + cj_old) * 2;
            fnew = (ci_new + cj_new) * 2;
        }
        Some((fold, fnew))
    }
}

/// No exchange with column `i` lowers the fitness.
pub open spec fn no_gain(q: Seq<usize>, i: int) -> bool {
    forall|k: int| 0 <= k < q.len() ==> swap_gain(q, i, k) <= 0
}

/// Column `j` is the partner that the probe at column `i` picks: exchanging
/// with it lowers the fitness, no column lowers it more, and no earlier
/// column lowers it as much.
pub open spec fn is_best_partner(q: Seq<usize>, i: int, j: int) -> bool {
    &&& 0 <= j < q.len()
    &&& swap_gain(q, i, j) > 0
    &&& forall|k: int| 0 <= k < q.len() ==> swap_gain(q, i, k) <= swap_gain(q, i, j)
    &&& forall|k: int| 0 <= k < j ==> swap_gain(q, i, k) < swap_gain(q, i, j)
}

/// `after` is what the probe at column `pivot` makes of `before`: `before`
/// itself where no exchange lowers the fitness, else `before` after the
/// exchange with the best partner.
pub open spec fn is_probe_of(after: Seq<usize>, before: Seq<usize>, pivot: int) -> bool {
    ||| no_gain(before, pivot) && after == before
    ||| exists|j: int| #[trigger]
        is_best_partner(before, pivot, j) && after == swapped(before, pivot, j)
}

/// `q` is a board of a first population: a board of `n` columns dealt at
/// random and, where the evaluation probes, probed once.
pub open spec fn is_first_board(q: Seq<usize>, n: nat, evaluation: Evaluation) -> bool {
    match evaluation {
        Evaluation::Exhaustive => is_dealt(q, n),
        Evaluation::Incremental => exists|d: Seq<usize>, pivot: int|
            is_dealt(d, n) && 0 <= pivot < n && #[trigger] is_probe_of(q, d, pivot),
    }
}

/// The probe never raises the fitness, changes the placement only where
/// the fitness falls, and leaves a permutation a permutation.
pub proof fn lemma_probe_never_raises(after: Seq<usize>, before: Seq<usize>, pivot: int)
    requires
        is_permutation(before),
        0 <= pivot < before.len(),
        is_probe_of(after, before, pivot),
    ensures
        diagonal_fitness(after) <= diagonal_fitness(before),
        after != before ==> diagonal_fitness(after) < diagonal_fitness(before),
        is_permutation(after),
        after.len() == before.len(),
{
    if !(no_gain(before, pivot) && after == before) {
        let j = choose|j: int| #[trigger]
            is_best_partner(before, pivot, j) && after == swapped(before, pivot, j);
        lemma_swapped_is_permutation(before, pivot, j);
    }
}

impl Board {
    /// The board is a permutation of a supported size.
    pub open spec fn valid(&self) -> bool {
        &&& is_permutation(self.queens@)
        &&& supported_size(self.queens@.len() as int)
    }

    /// Whether the board is a permutation of a supported size.
    pub fn is_valid(&self) -> (ok: bool)
        ensures
            ok == self.valid(),
    {
        size_is_supported(self.queens.len()) && is_permutation_of_rows(self.queens.as_slice())
    }

    /// A board that has not been evaluated yet: its fitness is the worst
    /// value there is.
    pub fn new(queens: Vec<usize>) -> (board: Board)
        ensures
            board.queens == queens,
            board.fitness == usize::MAX,
    {
        Board { fitness: usize::MAX, queens }
    }

    /// Counts the queens on every diagonal and caches the fitness.
    pub fn evaluate(&mut self) -> (tables: DiagonalTables)
        requires
            old(self).valid(),
        ensures
            final(self).queens == old(self).queens,
            final(self).evaluated(),
            tables.describes(final(self).queens@),
    {
        let n = self.queens.len();
        let ghost q = self.queens@;
        let ghost fk = forward_keys(q);
        let ghost bk = backward_keys(q);
        proof {
            lemma_probe_fits(n as int);
        }
        let mut forward: Vec<usize> = vec![0; 2 * n - 1];
        let mut backward: Vec<usize> = vec![0; 2 * n - 1];
        let mut x: usize = 0;
        proof {
            assert(fk.take(0) =~= Seq::<int>::empty());
            assert(bk.take(0) =~= Seq::<int>::empty());
            assert forall|d: int| 0 <= d < 2 * n - 1 implies occupancy(fk.take(0), d) == 0
                && occupancy(bk.take(0), d) == 0 by {
                lemma_occupancy_empty(d);
            }
        }
        while x < n
            invariant
                x <= n,
                n == q.len(),
                q == self.queens@,
                is_permutation(q),
                2 * n <= usize::MAX,
                fk == forward_keys(q),
                bk == backward_keys(q),
                forward@.len() == 2 * n - 1,
                backward@.len() == 2 * n - 1,
                forall|d: int|
                    0 <= d < 2 * n - 1 ==> #[trigger] forward@[d] == occupancy(
                        fk.take(x as int),
                        d,
                    ),
                forall|d: int|
                    0 <= d < 2 * n - 1 ==> #[trigger] backward@[d] == occupancy(
                        bk.take(x as int),
                        d,
                    ),
            decreases n - x,
        {
            let d1 = n - 1 + x - self.queens[x];
            let d2 = x + self.queens[x];
            proof {
                lemma_occupancy_bounds(fk.take(x as int), d1 as int);
                lemma_occupancy_bounds(bk.take(x as int), d2 as int);
                assert forall|d: int| 0 <= d < 2 * n - 1 implies occupancy(
                    fk.take(x + 1),
                    d,
                ) == occupancy(fk.take(x as int), d) + if d == d1 {
                    1int
                } else {
                    0int
                } by {
                    lemma_occupancy_take(fk, x as int, d);
                }
                assert forall|d: int| 0 <= d < 2 * n - 1 implies occupancy(
                    bk.take(x + 1),
                    d,
                ) == occupancy(bk.take(x as int), d) + if d == d2 {
                    1int
                } else {
                    0int
                } by {
                    lemma_occupancy_take(bk, x as int, d);
                }
            }
            forward[d1] = forward[d1] + 1;
            backward[d2] = backward[d2] + 1;
            x += 1;
        }
        assert(fk.take(n as int) =~= fk);
        assert(bk.take(n as int) =~= bk);

        let mut f: usize = 0;
        let mut x: usize = 0;
        proof {
            lemma_crowding_step(fk, fk, 0);
            lemma_crowding_step(bk, bk, 0);
        }
        while x < n
            invariant
                x <= n,
                n == q.len(),
                q == self.queens@,
                is_permutation(q),
                supported_size(n as int),
                2 * n <= usize::MAX,
                fk == forward_keys(q),
                bk == backward_keys(q),
                forward@.len() == 2 * n - 1,
                backward@.len() == 2 * n - 1,
                forall|d: int|
                    0 <= d < 2 * n - 1 ==> #[trigger] forward@[d] == occupancy(fk, d),
                forall|d: int|
                    0 <= d < 2 * n - 1 ==> #[trigger] backward@[d] == occupancy(bk, d),
                f == crowding(fk, fk, x as int) + crowding(bk, bk, x as int),
            decreases n - x,
        {
            let d1 = n - 1 + x - self.queens[x];
            let d2 = x + self.queens[x];
            proof {
                assert(fk[x as int] == d1);
                assert(bk[x as int] == d2);
                lemma_occupancy_bounds(fk, d1 as int);
                lemma_occupancy_bounds(bk, d2 as int);
                lemma_crowding_bounds(fk, fk, x + 1);
                lemma_crowding_bounds(bk, bk, x + 1);
                lemma_crowding_step(fk, fk, x as int);
                lemma_crowding_step(bk, bk, x as int);
                lemma_partial_fitness_bounds(q, x + 1);
            }
            f = f + (forward[d1] + backward[d2]);
            x += 1;
        }
        self.fitness = f;
        DiagonalTables { forward, backward }
    }
    /// Looks up, for the queens of columns `i` and `j`, the occupancy of the
    /// diagonals they stand on and of those they would stand on after an
    /// exchange of their rows.
    fn involved(&self, tables: &DiagonalTables, i: usize, j: usize) -> (c: Involved)
        requires
            self.valid(),
            tables.describes(self.queens@),
            i < self.queens@.len(),
            j < self.queens@.len(),
            i != j,
        ensures
            c.counts(self.queens@, i as int, j as int),
    {
        let n = self.queens.len();
        let ghost q = self.queens@;
        let ghost fk = forward_keys(q);
        let ghost bk = backward_keys(q);
        proof {
            lemma_probe_fits(n as int);
        }
        let qi = self.queens[i];
        let qj = self.queens[j];
        let (di1o, di2o) = (n - 1 + i - qi, i + qi);
        let (dj1o, dj2o) = (n - 1 + j - qj, j + qj);
        let (di1n, di2n) = (n - 1 + j - qi, j + qi);
        let (dj1n, dj2n) = (n - 1 + i - qj, i + qj);
        proof {
            assert(fk[i as int] == di1o);
            assert(bk[i as int] == di2o);
            assert(fk[j as int] == dj1o);
            assert(bk[j as int] == dj2o);
            lemma_occupancy_bounds(fk, di1o as int);
            lemma_occupancy_bounds(bk, di2o as int);
            lemma_occupancy_bounds(fk, dj1o as int);
            lemma_occupancy_bounds(bk, dj2o as int);
            lemma_occupancy_bounds(fk, di1n as int);
            lemma_occupancy_bounds(bk, di2n as int);
            lemma_occupancy_bounds(fk, dj1n as int);
            lemma_occupancy_bounds(bk, dj2n as int);
            lemma_occupancy_member(fk, i as int);
            lemma_occupancy_member(bk, i as int);
            lemma_occupancy_member(fk, j as int);
            lemma_occupancy_member(bk, j as int);
            if di1o == dj1o {
                if i < j {
                    lemma_occupancy_pair(fk, i as int, j as int);
                } else {
                    lemma_occupancy_pair(fk, j as int, i as int);
                }
            }
            if di2o == dj2o {
                if i < j {
                    lemma_occupancy_pair(bk, i as int, j as int);
                } else {
                    lemma_occupancy_pair(bk, j as int, i as int);
                }
            }
        }
        Involved {
            ci1o: tables.forward[di1o],
            ci2o: tables.backward[di2o],
            cj1o: tables.forward[dj1o],
            cj2o: tables.backward[dj2o],
            ci1n: tables.forward[di1n],
            ci2n: tables.backward[di2n],
            cj1n: tables.forward[dj1n],
            cj2n: tables.backward[dj2n],
            same_forward: di1o == dj1o,
            same_backward: di2o == dj2o,
        }
    }

    /// What exchanging the rows of columns `i` and `j` would do to the
    /// fitness, read off the diagonal tables: the part of the fitness that
    /// the two queens account for now, and the part they would account for
    /// afterwards.  Two queens that are each alone on both their diagonals
    /// cannot gain by an exchange and are passed over.
    fn exchange_effect(&self, tables: &DiagonalTables, i: usize, j: usize) -> (effect: Option<
        (usize, usize),
    >)
        requires
            self.valid(),
            tables.describes(self.queens@),
            i < self.queens@.len(),
            j < self.queens@.len(),
            i != j,
        ensures
            match effect {
                None => swap_gain(self.queens@, i as int, j as int) <= 0,
                Some((before, after)) => {
                    &&& before - after == swap_gain(self.queens@, i as int, j as int)
                    &&& before <= 8 * self.queens@.len()
                    &&& after <= 8 * self.queens@.len() + 8
                },
            },
    {
        let c = self.involved(tables, i, j);
        proof {
            lemma_swap_gain(self.queens@, i as int, j as int);
        }
        c.weigh(Ghost(self.queens@.len() as int))
    }

    /// The hill-climbing probe at column `pivot`: among all columns, finds
    /// the one whose exchange with `pivot` lowers the fitness most, and
    /// makes that exchange if it lowers the fitness at all; of several that
    /// lower it most, the first.  Returns the column exchanged with.
    pub fn refine(&mut self, pivot: usize, tables: &DiagonalTables) -> (partner: Option<usize>)
        requires
            old(self).valid(),
            old(self).evaluated(),
            pivot < old(self).queens@.len(),
            tables.describes(old(self).queens@),
        ensures
            match partner {
                None => {
                    &&& no_gain(old(self).queens@, pivot as int)
                    &&& final(self).queens@ == old(self).queens@
                    &&& final(self).fitness == old(self).fitness
                },
                Some(j) => {
                    &&& is_best_partner(old(self).queens@, pivot as int, j as int)
                    &&& final(self).queens@ == swapped(old(self).queens@, pivot as int, j as int)
                    &&& final(self).fitness == old(self).fitness - swap_gain(
                        old(self).queens@,
                        pivot as int,
                        j as int,
                    )
                },
            },
            final(self).valid(),
            final(self).evaluated(),
    {
        let n = self.queens.len();
        let i = pivot;
        let ghost q = self.queens@;
        proof {
            assert(swapped(q, i as int, i as int) =~= q);
            lemma_probe_fits(n as int);
        }
        let mut max_deltaf: usize = 0;
        let mut max_deltaf_j: usize = 0;
        let mut j: usize = 0;
        while j < n
            invariant
                j <= n,
                i < n,
                n == q.len(),
                q == self.queens@,
                self.valid(),
                tables.describes(q),
                swap_gain(q, i as int, i as int) == 0,
                16 * n + 8 <= usize::MAX,
                max_deltaf <= 8 * n,
                forall|k: int| 0 <= k < j ==> #[trigger] swap_gain(q, i as int, k) <= max_deltaf,
                max_deltaf == 0 || {
                    &&& max_deltaf_j < j
                    &&& swap_gain(q, i as int, max_deltaf_j as int) == max_deltaf
                    &&& forall|k: int|
                        0 <= k < max_deltaf_j ==> #[trigger] swap_gain(q, i as int, k)
                            < max_deltaf
                },
            decreases n - j,
        {
            if i != j {
                match self.exchange_effect(tables, i, j) {
                    Some((fold, fnew)) => {
                        if fold > max_deltaf + fnew {
                            max_deltaf = fold - fnew;
                            max_deltaf_j = j;
                        }
                    },
                    None => {},
                }
            }
            j += 1;
        }
        if max_deltaf != 0 {
            let j = max_deltaf_j;
            let qi = self.queens[i];
            let qj = self.queens[j];
            self.queens[i] = qj;
            self.queens[j] = qi;
            proof {
                assert(self.queens@ =~= swapped(q, i as int, j as int));
                lemma_swapped_is_permutation(q, i as int, j as int);
                lemma_fitness_bounds(self.queens@);
            }
            self.fitness = self.fitness - max_deltaf;
            Some(j)
        } else {
            None
        }
    }
}

impl Specimen for Board {
    /// Boards of a size whose fitness fits the machine, of two columns or
    /// more where boards are ever mutated, bred from two parents.
    open spec fn admits(cfg: &Config) -> bool {
        &&& supported_size(cfg.board_size as int)
        &&& cfg.mutation_threshold == 0 || cfg.board_size >= 2
        &&& cfg.parents_per_family == 2
    }

    /// A valid board of the configured size.
    open spec fn fits(&self, cfg: &Config) -> bool {
        self.valid() && self.queens@.len() == cfg.board_size
    }

    /// The fitness field.
    open spec fn cached_fitness(&self) -> usize {
        self.fitness
    }

    /// The fitness field holds the fitness of the placement.
    open spec fn evaluated(&self) -> bool {
        self.fitness == diagonal_fitness(self.queens@)
    }

    /// The fewer queens share diagonals, the better.
    open spec fn goal() -> Goal {
        Goal::Minimize
    }

    /// The child is a crossover of the two parents by the configured
    /// strategy, and is not evaluated.
    open spec fn bred_from(child: Board, family: Seq<Board>, cfg: &Config) -> bool {
        &&& family.len() == 2
        &&& child.fitness == usize::MAX
        &&& match cfg.crossover {
            Crossover::Scattered => is_scattered_child(
                child.queens@,
                family[0].queens@,
                family[1].queens@,
            ),
            Crossover::Segment => is_segment_child(
                child.queens@,
                family[0].queens@,
                family[1].queens@,
            ),
        }
    }

    /// The board is as it was or has two columns transposed: never
    /// transposed where the probability is zero, always where it is one.
    /// The cached fitness is as it was.
    open spec fn mutated_from(after: Board, before: Board, cfg: &Config) -> bool {
        &&& after.fitness == before.fitness
        &&& after.queens@ == before.queens@ || is_transposition_of(after.queens@, before.queens@)
        &&& cfg.mutation_threshold == 0 ==> after.queens@ == before.queens@
        &&& cfg.mutation_threshold >= PROBABILITY_SCALE ==> is_transposition_of(
            after.queens@,
            before.queens@,
        )
    }

    /// The board is evaluated; it is as it was where the evaluation is
    /// exhaustive, and probed at some column where it is incremental.
    open spec fn reevaluated_from(after: Board, before: Board, cfg: &Config) -> bool {
        &&& after.fitness == diagonal_fitness(after.queens@)
        &&& match cfg.evaluation {
            Evaluation::Exhaustive => after.queens@ == before.queens@,
            Evaluation::Incremental => exists|pivot: int|
                0 <= pivot < before.queens@.len() && #[trigger] is_probe_of(
                    after.queens@,
                    before.queens@,
                    pivot,
                ),
        }
    }

    /// A board dealt at random and evaluated.
    open spec fn spawned(candidate: Board, cfg: &Config) -> bool {
        is_first_board(candidate.queens@, cfg.board_size as nat, cfg.evaluation)
    }

    /// Whether the board can run under the configuration.
    fn supports(cfg: &Config) -> (ok: bool) {
        size_is_supported(cfg.board_size) && (cfg.mutation_threshold == 0 || cfg.board_size >= 2)
            && cfg.parents_per_family == 2
    }

    /// A lower fitness is the better one.
    fn direction() -> (g: Goal) {
        Goal::Minimize
    }

    /// The fitness last computed; `usize::MAX` before the first evaluation.
    fn fitness(&self) -> (f: usize) {
        self.fitness
    }

    /// Evaluates the board by the configured strategy.  The exhaustive
    /// one counts the attacking pairs and leaves the board as it is; the
    /// incremental one counts by diagonals, then probes one column drawn at
    /// random for an exchange that lowers the fitness and makes the best
    /// such exchange.  Both give a board the same fitness.  The fitness
    /// never ends above that of the board as it was, and the board changes
    /// only where its fitness falls.
    fn reevaluate(&mut self, cfg: &Config, rng: &mut rand::XorShiftRng)
        ensures
            final(self).fitness <= diagonal_fitness(old(self).queens@),
            final(self).queens@ != old(self).queens@ ==> final(self).fitness < diagonal_fitness(
                old(self).queens@,
            ),
    {
        match cfg.evaluation {
            Evaluation::Exhaustive => {
                let pairs = self.count_conflicts();
                proof {
                    lemma_partial_fitness_bounds(self.queens@, 0);
                    lemma_probe_fits(self.queens@.len() as int);
                }
                self.fitness = pairs + 2 * self.queens.len();
            },
            Evaluation::Incremental => {
                let tables = self.evaluate();
                let pivot = draw_below(rng, self.queens.len());
                let partner = self.refine(pivot, &tables);
                proof {
                    assert(is_probe_of(self.queens@, old(self).queens@, pivot as int));
                }
            },
        }
    }

    /// Transposes two columns of each board with the configured
    /// probability.  The cached fitness of a board is left as it is.
    fn mutate(generation: &mut [Board], cfg: &Config, rng: &mut rand::XorShiftRng)
    {
        let n = generation.len();
        let mut k: usize = 0;
        while k < n
            invariant
                k <= n,
                n == generation@.len(),
                n == old(generation)@.len(),
                Self::admits(cfg),
                forall|m: int| 0 <= m < n ==> (#[trigger] generation@[m]).fits(cfg),
                forall|m: int| k <= m < n ==> generation@[m] == old(generation)@[m],
                forall|m: int|
                    0 <= m < k ==> Self::mutated_from(
                        #[trigger] generation@[m],
                        old(generation)@[m],
                        cfg,
                    ),
            decreases n - k,
        {
            let word = draw_word(rng);
            if mutation_due(word, cfg.mutation_threshold) {
                generation[k].do_mutate(rng);
            }
            k += 1;
        }
    }

    /// Crosses the two parents by the configured strategy.  The child is
    /// not evaluated.
    fn breed(parents: &[Board], cfg: &Config, rng: &mut rand::XorShiftRng) -> (child: Board) {
        match cfg.crossover {
            Crossover::Scattered => Board::breed_pmx(parents, rng),
            Crossover::Segment => Board::breed_pmx_norng(parents, rng),
        }
    }

    /// As many boards as a generation has children, and at least one
    /// family; each a permutation drawn at random, evaluated and probed
    /// once.
    fn initial(cfg: &Config, rng: &mut rand::XorShiftRng) -> (population: Vec<Board>) {
        let population = if cfg.children_per_cycle >= cfg.parents_per_family {
            cfg.children_per_cycle
        } else {
            cfg.parents_per_family
        };
        let mut boards: Vec<Board> = Vec::with_capacity(population);
        let mut made: usize = 0;
        while made < population
            invariant
                made <= population,
                boards@.len() == made,
                Self::admits(cfg),
                forall|k: int|
                    0 <= k < boards@.len() ==> (#[trigger] boards@[k]).fits(cfg)
                        && boards@[k].evaluated() && is_first_board(
                        boards@[k].queens@,
                        cfg.board_size as nat,
                        cfg.evaluation,
                    ),
            decreases population - made,
        {
            let mut board = Board::scattered(cfg.board_size, rng);
            let ghost d = board.queens@;
            board.reevaluate(cfg, rng);
            proof {
                if cfg.evaluation is Incremental {
                    let pivot = choose|pivot: int|
                        0 <= pivot < d.len() && #[trigger] is_probe_of(board.queens@, d, pivot);
                    assert(is_dealt(d, cfg.board_size as nat) && is_probe_of(
                        board.queens@,
                        d,
                        pivot,
                    ));
                }
            }
            boards.push(board);
            made += 1;
        }
        boards
    }
}

} // verus!
