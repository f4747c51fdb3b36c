//! The ground-truth square: a cyclic Latin square of order `n`, together with
//! the specification of what being a Latin square means.

use vstd::prelude::*;
use vstd::arithmetic::div_mod::{
    lemma_fundamental_div_mod, lemma_mod_add_multiples_vanish, lemma_mod_bound, lemma_small_mod,
};

verus! {

/// `g` is an `n`-by-`n` table of cells.
pub open spec fn square_dims(n: int, g: Seq<Vec<usize>>) -> bool {
    &&& g.len() == n
    &&& forall|i: int| 0 <= i < n ==> (#[trigger] g[i])@.len() == n
}

/// Every cell holds a value in `1..=n`.
pub open spec fn vals_in_range(n: int, g: Seq<Vec<usize>>) -> bool {
    forall|i: int, j: int|
        0 <= i < g.len() && 0 <= j < g[i]@.len() ==> 1 <= #[trigger] g[i]@[j] <= n
}

/// No value repeats within any row.
pub open spec fn rows_distinct(g: Seq<Vec<usize>>) -> bool {
    forall|i: int, j1: int, j2: int|
        #![trigger g[i]@[j1], g[i]@[j2]]
        0 <= i < g.len() && 0 <= j1 < j2 < g[i]@.len() ==> g[i]@[j1] != g[i]@[j2]
}

/// No value repeats within any column.
pub open spec fn cols_distinct(g: Seq<Vec<usize>>) -> bool {
    forall|j: int, i1: int, i2: int|
        #![trigger g[i1]@[j], g[i2]@[j]]
        0 <= i1 < i2 < g.len() && 0 <= j < g[i1]@.len() && j < g[i2]@.len()
            ==> g[i1]@[j] != g[i2]@[j]
}

/// A completed Latin square: an `n`-by-`n` table of values `1..=n` in which
/// no value repeats within a row or a column.
pub open spec fn is_latin_square(n: int, g: Seq<Vec<usize>>) -> bool {
    &&& square_dims(n, g)
    &&& vals_in_range(n, g)
    &&& rows_distinct(g)
    &&& cols_distinct(g)
}

/// Value `v` appears somewhere in row `i`.
pub open spec fn row_has(n: int, g: Seq<Vec<usize>>, i: int, v: int) -> bool {
    exists|j: int| 0 <= j < n && g[i]@[j] == v
}

/// Value `v` appears somewhere in column `j`.
pub open spec fn col_has(n: int, g: Seq<Vec<usize>>, j: int, v: int) -> bool {
    exists|i: int| 0 <= i < n && g[i]@[j] == v
}

/// Every value `1..=n` appears in every row and in every column; together
/// with `is_latin_square` this makes each row and column a permutation of
/// `1..=n`.
pub open spec fn covers_all_values(n: int, g: Seq<Vec<usize>>) -> bool {
    &&& forall|i: int, v: int| 0 <= i < n && 1 <= v <= n ==> #[trigger] row_has(n, g, i, v)
    &&& forall|j: int, v: int| 0 <= j < n && 1 <= v <= n ==> #[trigger] col_has(n, g, j, v)
}

/// Cell `(i, j)` of the cyclic square holds `((i + j) mod n) + 1`.
pub open spec fn cyclic_formula(n: int, g: Seq<Vec<usize>>) -> bool {
    forall|i: int, j: int|
        0 <= i < n && 0 <= j < n ==> #[trigger] g[i]@[j] == ((i + j) % n) + 1
}

/// Two numbers less than a window of width `n` apart have distinct residues.
proof fn lemma_mod_injective_in_window(n: int, a: int, b: int)
    requires
        1 <= n,
        0 <= a < b,
        b - a < n,
    ensures
        a % n != b % n,
{
    lemma_fundamental_div_mod(a, n);
    lemma_fundamental_div_mod(b, n);
    if a % n == b % n {
        let qa = a / n;
        let qb = b / n;
        assert(n * qb - n * qa == n * (qb - qa)) by (nonlinear_arith);
        if qb - qa <= 0 {
            assert(n * (qb - qa) <= 0) by (nonlinear_arith)
                requires
                    n >= 1,
                    qb - qa <= 0,
            ;
        } else {
            assert(n * (qb - qa) >= n) by (nonlinear_arith)
                requires
                    n >= 1,
                    qb - qa >= 1,
            ;
        }
        assert(false);
    }
}

/// Law: the cyclic construction yields a Latin square, and every row and
/// every column of it is a permutation of the values `1..=n`.
pub proof fn lemma_cyclic_square_is_latin(n: int, g: Seq<Vec<usize>>)
    requires
        1 <= n,
        square_dims(n, g),
        cyclic_formula(n, g),
    ensures
        is_latin_square(n, g),
        covers_all_values(n, g),
{
    assert forall|i: int, j: int|
        0 <= i < g.len() && 0 <= j < g[i]@.len() implies 1 <= #[trigger] g[i]@[j] <= n by {
        lemma_mod_bound(i + j, n);
    }
    assert forall|i: int, j1: int, j2: int|
        #![trigger g[i]@[j1], g[i]@[j2]]
        0 <= i < g.len() && 0 <= j1 < j2 < g[i]@.len() implies g[i]@[j1] != g[i]@[j2] by {
        lemma_mod_injective_in_window(n, i + j1, i + j2);
    }
    assert forall|j: int, i1: int, i2: int|
        #![trigger g[i1]@[j], g[i2]@[j]]
        0 <= i1 < i2 < g.len() && 0 <= j < g[i1]@.len() && j < g[i2]@.len()
        implies g[i1]@[j] != g[i2]@[j] by {
        lemma_mod_injective_in_window(n, i1 + j, i2 + j);
    }
    assert forall|i: int, v: int| 0 <= i < n && 1 <= v <= n implies #[trigger] row_has(
        n,
        g,
        i,
        v,
    ) by {
        let j0: int = if v - 1 >= i {
            v - 1 - i
        } else {
            v - 1 + n - i
        };
        if v - 1 >= i {
            lemma_small_mod((v - 1) as nat, n as nat);
        } else {
            lemma_mod_add_multiples_vanish(v - 1, n);
            lemma_small_mod((v - 1) as nat, n as nat);
        }
        assert(0 <= j0 < n && g[i]@[j0] == v);
    }
    assert forall|j: int, v: int| 0 <= j < n && 1 <= v <= n implies #[trigger] col_has(
        n,
        g,
        j,
        v,
    ) by {
        let i0: int = if v - 1 >= j {
            v - 1 - j
        } else {
            v - 1 + n - j
        };
        if v - 1 >= j {
            lemma_small_mod((v - 1) as nat, n as nat);
        } else {
            lemma_mod_add_multiples_vanish(v - 1, n);
            lemma_small_mod((v - 1) as nat, n as nat);
        }
        assert(0 <= i0 < n && g[i0]@[j] == v);
    }
}

/// A square with the same cells as a Latin square is itself Latin.
pub proof fn lemma_latin_cells_transfer(n: int, a: Seq<Vec<usize>>, b: Seq<Vec<usize>>)
    requires
        is_latin_square(n, a),
        square_dims(n, b),
        forall|i: int, j: int| 0 <= i < n && 0 <= j < n ==> #[trigger] b[i]@[j] == a[i]@[j],
    ensures
        is_latin_square(n, b),
{
    assert forall|i: int, j: int|
        0 <= i < b.len() && 0 <= j < b[i]@.len() implies 1 <= #[trigger] b[i]@[j] <= n by {
        assert(b[i]@[j] == a[i]@[j]);
    }
    assert forall|i: int, j1: int, j2: int|
        #![trigger b[i]@[j1], b[i]@[j2]]
        0 <= i < b.len() && 0 <= j1 < j2 < b[i]@.len() implies b[i]@[j1] != b[i]@[j2] by {
        assert(b[i]@[j1] == a[i]@[j1]);
        assert(b[i]@[j2] == a[i]@[j2]);
    }
    assert forall|j: int, i1: int, i2: int|
        #![trigger b[i1]@[j], b[i2]@[j]]
        0 <= i1 < i2 < b.len() && 0 <= j < b[i1]@.len() && j < b[i2]@.len() implies b[i1]@[j]
        != b[i2]@[j] by {
        assert(b[i1]@[j] == a[i1]@[j]);
        assert(b[i2]@[j] == a[i2]@[j]);
    }
}

/// The cyclic Latin square of order `n`: cell `(i, j)` holds
/// `((i + j) mod n) + 1`. It serves as the ground truth from which candidate
/// puzzles draw their "correct" values.
pub fn cyclic_latin_square(n: usize) -> (r: Vec<Vec<usize>>)
    requires
        1 <= n,
        n <= usize::MAX / 2,
    ensures
        square_dims(n as int, r@),
        cyclic_formula(n as int, r@),
        is_latin_square(n as int, r@),
        covers_all_values(n as int, r@),
{
    let mut rows: Vec<Vec<usize>> = Vec::new();
    for i in 0..n
        invariant
            1 <= n,
            n <= usize::MAX / 2,
            rows@.len() == i,
            forall|i2: int| 0 <= i2 < i ==> (#[trigger] rows@[i2])@.len() == n,
            forall|i2: int, j2: int|
                0 <= i2 < i && 0 <= j2 < n ==> #[trigger] rows@[i2]@[j2] == ((i2 + j2) % (
                n as int)) + 1,
    {
        let mut row: Vec<usize> = Vec::new();
        for j in 0..n
            invariant
                1 <= n,
                n <= usize::MAX / 2,
                i < n,
                row@.len() == j,
                forall|j2: int|
                    0 <= j2 < j ==> #[trigger] row@[j2] == ((i as int + j2) % (n as int)) + 1,
        {
            row.push((i + j) % n + 1);
        }
        rows.push(row);
    }
    proof {
        lemma_cyclic_square_is_latin(n as int, rows@);
    }
    rows
}

} // verus!
