//! Placements of queens as sequences: column `x` holds its queen in row
//! `q[x]`.  This module is the mathematical model that the board's
//! contracts speak of.

use vstd::prelude::*;
use vstd::seq_lib::seq_to_set_is_finite;
use vstd::set_lib::{lemma_int_range, lemma_subset_equality, set_int_range};
use crate::occupancy::{
    lemma_crowding_bounds, lemma_occupancy_update, lemma_total_crowding_update, occupancy,
    total_crowding,
};

verus! {

/// `q` assigns to every column a row of the board, and no row twice.
pub open spec fn is_permutation(q: Seq<usize>) -> bool {
    &&& forall|x: int| 0 <= x < q.len() ==> #[trigger] q[x] < q.len()
    &&& forall|x: int, y: int| 0 <= x < y < q.len() ==> #[trigger] q[x] != #[trigger] q[y]
}

/// The boards whose fitness fits the machine's `usize`: a permutation's
/// fitness is two for every queen and one for every ordered pair of queens
/// that share a diagonal, `n * n + n` at most.
pub open spec fn supported_size(n: int) -> bool {
    1 <= n && n * n + n <= usize::MAX
}

/// On a board of a supported size the quantities that the probe weighs,
/// sixteen for every queen and eight at most, fit the machine's `usize`.
pub proof fn lemma_probe_fits(n: int)
    requires
        supported_size(n),
    ensures
        16 * n + 8 <= usize::MAX,
        2 * n <= usize::MAX,
{
    if n >= 16 {
        assert(n * n >= 16 * n) by (nonlinear_arith)
            requires
                n >= 16,
        ;
    } else {
        assert(usize::MAX >= 0xffff_ffff);
    }
    assert(n * n >= n) by (nonlinear_arith)
        requires
            n >= 1,
    ;
}

/// The forward diagonal of each queen: `n - 1 + x - q[x]`.
pub open spec fn forward_keys(q: Seq<usize>) -> Seq<int> {
    Seq::new(q.len(), |x: int| q.len() - 1 + x - q[x])
}

/// The backward diagonal of each queen: `x + q[x]`.
pub open spec fn backward_keys(q: Seq<usize>) -> Seq<int> {
    Seq::new(q.len(), |x: int| x + q[x])
}

/// The fitness of a placement: every queen counts the queens on its forward
/// diagonal and those on its backward diagonal, itself included both times.
pub open spec fn diagonal_fitness(q: Seq<usize>) -> int {
    total_crowding(forward_keys(q)) + total_crowding(backward_keys(q))
}

/// The placement with the rows of columns `i` and `j` exchanged.
pub open spec fn swapped(q: Seq<usize>, i: int, j: int) -> Seq<usize> {
    q.update(i, q[j]).update(j, q[i])
}

/// By how much exchanging the rows of columns `i` and `j` lowers the
/// fitness.
pub open spec fn swap_gain(q: Seq<usize>, i: int, j: int) -> int {
    diagonal_fitness(q) - diagonal_fitness(swapped(q, i, j))
}

/// The column whose queen stands in `row`.
pub open spec fn column_of(q: Seq<usize>, row: usize) -> int {
    choose|x: int| 0 <= x < q.len() && q[x] == row
}

/// Every row of the board is some column's row.
pub proof fn lemma_permutation_onto(q: Seq<usize>, row: usize)
    requires
        is_permutation(q),
        row < q.len(),
    ensures
        0 <= column_of(q, row) < q.len(),
        q[column_of(q, row)] == row,
{
    let n = q.len() as int;
    let rows = Seq::new(q.len(), |x: int| q[x] as int);
    assert forall|x: int, y: int|
        0 <= x < rows.len() && 0 <= y < rows.len() && x != y implies rows[x] != rows[y] by {
        if x < y {
            assert(q[x] != q[y]);
        } else {
            assert(q[y] != q[x]);
        }
    }
    rows.unique_seq_to_set();
    lemma_int_range(0, n);
    seq_to_set_is_finite(rows);
    assert forall|v: int| rows.to_set().contains(v) implies set_int_range(0, n).contains(v) by {
        let x = choose|x: int| 0 <= x < rows.len() && rows[x] == v;
        assert(q[x] < q.len());
    }
    lemma_subset_equality(rows.to_set(), set_int_range(0, n));
    assert(set_int_range(0, n).contains(row as int));
    assert(rows.contains(row as int));
    let x = choose|x: int| 0 <= x < rows.len() && rows[x] == row as int;
    assert(q[x] == row);
}

/// In a permutation a row has one column only.
pub proof fn lemma_column_of(q: Seq<usize>, x: int)
    requires
        is_permutation(q),
        0 <= x < q.len(),
    ensures
        column_of(q, q[x]) == x,
{
    let c = column_of(q, q[x]);
    if c < x {
        assert(q[c] != q[x]);
    } else if x < c {
        assert(q[x] != q[c]);
    }
}

/// Exchanging two rows of a permutation leaves a permutation.
pub proof fn lemma_swapped_is_permutation(q: Seq<usize>, i: int, j: int)
    requires
        is_permutation(q),
        0 <= i < q.len(),
        0 <= j < q.len(),
    ensures
        is_permutation(swapped(q, i, j)),
        swapped(q, i, j).len() == q.len(),
{
    let s = swapped(q, i, j);
    assert forall|x: int, y: int| 0 <= x < y < s.len() implies #[trigger] s[x] != #[trigger] s[y] by {
        let px = if x == i { j } else if x == j { i } else { x };
        let py = if y == i { j } else if y == j { i } else { y };
        assert(s[x] == q[px]);
        assert(s[y] == q[py]);
        assert(px != py);
        if px < py {
            assert(q[px] != q[py]);
        } else {
            assert(q[py] != q[px]);
        }
    }
    assert forall|x: int| 0 <= x < s.len() implies #[trigger] s[x] < s.len() by {
        let px = if x == i { j } else if x == j { i } else { x };
        assert(s[x] == q[px]);
    }
}

/// The fitness is never negative.
pub proof fn lemma_fitness_bounds(q: Seq<usize>)
    ensures
        0 <= diagonal_fitness(q),
{
    let n = q.len() as int;
    lemma_crowding_bounds(forward_keys(q), forward_keys(q), n);
    lemma_crowding_bounds(backward_keys(q), backward_keys(q), n);
}

/// The effect of a swap, read off the occupancy of the eight diagonals
/// involved: the four that the two queens leave and the four that they
/// join.  Two queens that leave a common diagonal join a common diagonal of
/// the other direction.
pub proof fn lemma_swap_gain(q: Seq<usize>, i: int, j: int)
    requires
        is_permutation(q),
        0 <= i < q.len(),
        0 <= j < q.len(),
        i != j,
    ensures
        ({
            let n = q.len() as int;
            let f = forward_keys(q);
            let b = backward_keys(q);
            let leaving = occupancy(f, f[i]) + occupancy(f, f[j]) + occupancy(b, b[i]) + occupancy(
                b,
                b[j],
            );
            let joining = occupancy(f, n - 1 + i - q[j]) + occupancy(f, n - 1 + j - q[i])
                + occupancy(b, i + q[j]) + occupancy(b, j + q[i]);
            let shared = if f[i] == f[j] || b[i] == b[j] {
                4int
            } else {
                0int
            };
            &&& swap_gain(q, i, j) == 2 * leaving - 2 * joining - 8 - shared
            &&& !(f[i] == f[j] && b[i] == b[j])
        }),
{
    let n = q.len() as int;
    let f = forward_keys(q);
    let b = backward_keys(q);
    let s = swapped(q, i, j);
    if i < j {
        assert(q[i] != q[j]);
    } else {
        assert(q[j] != q[i]);
    }
    let fi = n - 1 + i - q[j];
    let fj = n - 1 + j - q[i];
    let f1 = f.update(i, fi);
    assert(forward_keys(s) =~= f1.update(j, fj));
    lemma_total_crowding_update(f, i, fi);
    lemma_total_crowding_update(f1, j, fj);
    lemma_occupancy_update(f, i, fi, fj);
    lemma_occupancy_update(f, i, fi, f[j]);
    let bi = i + q[j];
    let bj = j + q[i];
    let b1 = b.update(i, bi);
    assert(backward_keys(s) =~= b1.update(j, bj));
    lemma_total_crowding_update(b, i, bi);
    lemma_total_crowding_update(b1, j, bj);
    lemma_occupancy_update(b, i, bi, bj);
    lemma_occupancy_update(b, i, bi, b[j]);
}

/// Whether a board of `n` columns is of a supported size.
pub fn size_is_supported(n: usize) -> (ok: bool)
    ensures
        ok == supported_size(n as int),
{
    if n == 0 {
        return false;
    }
    if n > 0xffff_ffff {
        assert(n * n + n > usize::MAX) by (nonlinear_arith)
            requires
                n >= 0x1_0000_0000,
                usize::MAX <= 0xffff_ffff_ffff_ffff,
        ;
        return false;
    }
    let m = n as u128;
    assert(m * m <= 0xffff_ffff * 0xffff_ffff) by (nonlinear_arith)
        requires
            m <= 0xffff_ffff,
    ;
    assert(n * n == m * m) by (nonlinear_arith)
        requires
            m == n,
    ;
    m * m + m <= usize::MAX as u128
}

/// Whether the rows are a permutation of `0..n`.
pub fn is_permutation_of_rows(queens: &[usize]) -> (ok: bool)
    ensures
        ok == is_permutation(queens@),
{
    let n = queens.len();
    let mut seen: Vec<bool> = vec![false; n];
    let mut x: usize = 0;
    while x < n
        invariant
            x <= n,
            n == queens@.len(),
            seen@.len() == n,
            forall|k: int| 0 <= k < x ==> #[trigger] queens@[k] < n,
            forall|a: int, b: int| 0 <= a < b < x ==> #[trigger] queens@[a] != #[trigger] queens@[b],
            forall|v: int|
                0 <= v < n ==> (#[trigger] seen@[v] <==> exists|k: int|
                    0 <= k < x && queens@[k] == v),
        decreases n - x,
    {
        let row = queens[x];
        if row >= n {
            return false;
        }
        if seen[row] {
            proof {
                let k = choose|k: int| 0 <= k < x && queens@[k] == row;
                assert(queens@[k] == queens@[x as int]);
            }
            return false;
        }
        let ghost before = seen@;
        seen[row] = true;
        proof {
            assert forall|v: int| 0 <= v < n implies (#[trigger] seen@[v] <==> exists|k: int|
                0 <= k < x + 1 && queens@[k] == v) by {
                if v == row {
                    assert(queens@[x as int] == v);
                } else {
                    assert(seen@[v] == before[v]);
                    if before[v] {
                        let k = choose|k: int| 0 <= k < x && queens@[k] == v;
                        assert(0 <= k < x + 1 && queens@[k] == v);
                    }
                    if exists|k: int| 0 <= k < x + 1 && queens@[k] == v {
                        let k = choose|k: int| 0 <= k < x + 1 && queens@[k] == v;
                        assert(k != x);
                        assert(0 <= k < x && queens@[k] == v);
                    }
                }
            }
            assert forall|a: int, b: int| 0 <= a < b < x + 1 implies #[trigger] queens@[a]
                != #[trigger] queens@[b] by {
                if b == x && queens@[a] == row {
                    assert(0 <= a < x && queens@[a] == row);
                    assert(before[row as int]);
                }
            }
        }
        x += 1;
    }
    true
}

} // verus!
