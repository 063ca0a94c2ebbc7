//! Counting helpers for the monotone fixed-point loops: every iteration of
//! closure, FIRST and lookahead computation sets at least one fresh bit of a
//! finite boolean matrix, which bounds the number of iterations.

use vstd::prelude::*;

verus! {

/// How many of the first `n` entries of `row` are set.
pub open spec fn count_row(row: Seq<bool>, n: int) -> int
    decreases n,
{
    if n <= 0 {
        0
    } else {
        count_row(row, n - 1) + if row[n - 1] {
            1int
        } else {
            0int
        }
    }
}

pub proof fn lemma_count_row_bounds(row: Seq<bool>, n: int)
    ensures
        0 <= count_row(row, n) <= if n >= 0 {
            n
        } else {
            0
        },
    decreases n,
{
    if n > 0 {
        lemma_count_row_bounds(row, n - 1);
    }
}

/// Counting looks only at the first `n` entries.
pub proof fn lemma_count_row_congruence(a: Seq<bool>, b: Seq<bool>, n: int)
    requires
        forall|j: int| 0 <= j < n ==> a[j] == b[j],
    ensures
        count_row(a, n) == count_row(b, n),
    decreases n,
{
    if n > 0 {
        lemma_count_row_congruence(a, b, n - 1);
    }
}

/// Setting an unset entry raises the count by one.
pub proof fn lemma_count_row_set(a: Seq<bool>, b: Seq<bool>, n: int, j: int)
    requires
        0 <= j < n,
        !a[j],
        b[j],
        forall|k: int| 0 <= k < n && k != j ==> a[k] == b[k],
    ensures
        count_row(b, n) == count_row(a, n) + 1,
    decreases n,
{
    if n - 1 == j {
        lemma_count_row_congruence(a, b, n - 1);
    } else {
        lemma_count_row_set(a, b, n - 1, j);
    }
}

/// How many entries are set in the first `rows` rows of the matrix `m`,
/// each row counted up to `n`.
pub open spec fn count_matrix(m: Seq<Vec<bool>>, rows: int, n: int) -> int
    decreases rows,
{
    if rows <= 0 {
        0
    } else {
        count_matrix(m, rows - 1, n) + count_row(m[rows - 1]@, n)
    }
}

pub proof fn lemma_count_matrix_le(m: Seq<Vec<bool>>, rows: int, n: int)
    requires
        n >= 0,
    ensures
        0 <= count_matrix(m, rows, n),
        count_matrix(m, rows, n) <= rows * n || rows <= 0,
    decreases rows,
{
    if rows > 0 {
        lemma_count_matrix_le(m, rows - 1, n);
        lemma_count_row_bounds(m[rows - 1]@, n);
        assert((rows - 1) * n + n == rows * n) by (nonlinear_arith);
        if rows - 1 <= 0 {
            assert(count_matrix(m, rows - 1, n) == 0);
        }
    }
}

pub proof fn lemma_count_matrix_congruence(a: Seq<Vec<bool>>, b: Seq<Vec<bool>>, rows: int, n: int)
    requires
        forall|i: int, j: int| 0 <= i < rows && 0 <= j < n ==> a[i]@[j] == b[i]@[j],
    ensures
        count_matrix(a, rows, n) == count_matrix(b, rows, n),
    decreases rows,
{
    if rows > 0 {
        lemma_count_matrix_congruence(a, b, rows - 1, n);
        lemma_count_row_congruence(a[rows - 1]@, b[rows - 1]@, n);
    }
}

/// Setting one unset entry of one row raises the matrix count by one.
pub proof fn lemma_count_matrix_set(
    a: Seq<Vec<bool>>,
    b: Seq<Vec<bool>>,
    rows: int,
    n: int,
    i: int,
    j: int,
)
    requires
        0 <= i < rows,
        0 <= j < n,
        !a[i]@[j],
        b[i]@[j],
        forall|x: int, y: int| 0 <= x < rows && 0 <= y < n && !(x == i && y == j) ==> a[x]@[y] == b[x]@[y],
    ensures
        count_matrix(b, rows, n) == count_matrix(a, rows, n) + 1,
    decreases rows,
{
    if rows - 1 == i {
        lemma_count_matrix_congruence(a, b, rows - 1, n);
        lemma_count_row_set(a[i]@, b[i]@, n, j);
    } else {
        lemma_count_matrix_set(a, b, rows - 1, n, i, j);
        lemma_count_row_congruence(a[rows - 1]@, b[rows - 1]@, n);
    }
}

} // verus!
