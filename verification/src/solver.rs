//! Constraint solver: completes a partially assigned Latin square under
//! known-correct and known-wrong cell constraints, enumerating completions by
//! constraint propagation and most-constrained-variable backtracking.
//!
//! The solver state is a square of cells (0 = empty) plus one occupancy
//! bitmask per row and per column; bit `v - 1` of a mask is set exactly when
//! value `v` already appears in that row or column, and the two never diverge.

use vstd::prelude::*;

use crate::bits::{bit_set, lemma_or_one_bit, lemma_zero_no_bits};
use crate::grid::{col_has, is_latin_square, row_has, square_dims};

verus! {

// ---------------------------------------------------------------------------
// Specification of the solver state
// ---------------------------------------------------------------------------

/// Cells hold 0 (empty) or a value up to `n`.
pub open spec fn partial_vals(n: int, g: Seq<Vec<usize>>) -> bool {
    forall|i: int, j: int|
        0 <= i < g.len() && 0 <= j < g[i]@.len() ==> #[trigger] g[i]@[j] <= n
}

/// Assigned values never repeat within a row.
pub open spec fn partial_rows_distinct(g: Seq<Vec<usize>>) -> bool {
    forall|i: int, j1: int, j2: int|
        #![trigger g[i]@[j1], g[i]@[j2]]
        0 <= i < g.len() && 0 <= j1 < j2 < g[i]@.len() && g[i]@[j1] != 0 ==> g[i]@[j1] != g[i]@[j2]
}

/// Assigned values never repeat within a column.
pub open spec fn partial_cols_distinct(g: Seq<Vec<usize>>) -> bool {
    forall|j: int, i1: int, i2: int|
        #![trigger g[i1]@[j], g[i2]@[j]]
        0 <= i1 < i2 < g.len() && 0 <= j < g[i1]@.len() && j < g[i2]@.len() && g[i1]@[j] != 0
            ==> g[i1]@[j] != g[i2]@[j]
}

/// Bit `k` of `ru[i]` is set exactly when value `k + 1` appears in row `i`.
pub open spec fn row_masks_ok(n: int, g: Seq<Vec<usize>>, ru: Seq<u32>) -> bool {
    &&& ru.len() == n
    &&& forall|i: int, k: u32|
        0 <= i < n && k < 32 ==> (#[trigger] bit_set(ru[i], k) <==> row_has(n, g, i, k + 1))
}

/// Bit `k` of `cu[j]` is set exactly when value `k + 1` appears in column `j`.
pub open spec fn col_masks_ok(n: int, g: Seq<Vec<usize>>, cu: Seq<u32>) -> bool {
    &&& cu.len() == n
    &&& forall|j: int, k: u32|
        0 <= j < n && k < 32 ==> (#[trigger] bit_set(cu[j], k) <==> col_has(n, g, j, k + 1))
}

/// The solver's internal invariant: well-formed partial square whose
/// occupancy bitmasks are the exact union of the assigned cell values.
pub open spec fn state_ok(n: int, g: Seq<Vec<usize>>, ru: Seq<u32>, cu: Seq<u32>) -> bool {
    &&& square_dims(n, g)
    &&& partial_vals(n, g)
    &&& partial_rows_distinct(g)
    &&& partial_cols_distinct(g)
    &&& row_masks_ok(n, g, ru)
    &&& col_masks_ok(n, g, cu)
}

// ---------------------------------------------------------------------------
// Specification of the constraint maps
// ---------------------------------------------------------------------------

/// Some known-value entry names cell `(i, j)`.
pub open spec fn kv_has_cell(kv: Seq<((usize, usize), usize)>, i: int, j: int) -> bool {
    exists|e: int| 0 <= e < kv.len() && (#[trigger] kv[e]).0.0 == i && kv[e].0.1 == j
}

/// Known-value entries name distinct in-range cells and values in `1..=n`.
pub open spec fn kv_ok(n: int, kv: Seq<((usize, usize), usize)>) -> bool {
    &&& forall|e: int|
        0 <= e < kv.len() ==> (#[trigger] kv[e]).0.0 < n && kv[e].0.1 < n && 1 <= kv[e].1 <= n
    &&& forall|e1: int, e2: int|
        0 <= e1 < e2 < kv.len() ==> (#[trigger] kv[e1]).0 != (#[trigger] kv[e2]).0
}

/// Value `v` is forbidden at cell `(i, j)` by some known-wrong entry.
pub open spec fn wrong_listed(
    kw: Seq<((usize, usize), Vec<usize>)>,
    i: int,
    j: int,
    v: int,
) -> bool {
    exists|e: int, t: int|
        #![trigger kw[e].1@[t]]
        0 <= e < kw.len() && kw[e].0.0 == i && kw[e].0.1 == j && 0 <= t < kw[e].1@.len()
            && kw[e].1@[t] == v
}

/// Known-wrong entries name in-range cells and forbidden values in `1..=n`.
pub open spec fn kw_ok(n: int, kw: Seq<((usize, usize), Vec<usize>)>) -> bool {
    &&& forall|e: int| 0 <= e < kw.len() ==> (#[trigger] kw[e]).0.0 < n && kw[e].0.1 < n
    &&& forall|e: int, t: int|
        #![trigger kw[e].1@[t]]
        0 <= e < kw.len() && 0 <= t < kw[e].1@.len() ==> 1 <= kw[e].1@[t] <= n
}

/// Two known-value entries collide: distinct cells in the same row or the
/// same column that demand the same value.
pub open spec fn kv_has_conflict(kv: Seq<((usize, usize), usize)>) -> bool {
    exists|e1: int, e2: int|
        #![trigger kv[e1], kv[e2]]
        0 <= e1 < kv.len() && 0 <= e2 < kv.len() && kv[e1].0 != kv[e2].0
            && (kv[e1].0.0 == kv[e2].0.0 || kv[e1].0.1 == kv[e2].0.1) && kv[e1].1 == kv[e2].1
}

/// `s` assigns every known cell its required value.
pub open spec fn matches_known_values(
    s: Seq<Vec<usize>>,
    kv: Seq<((usize, usize), usize)>,
) -> bool {
    forall|e: int|
        0 <= e < kv.len() ==> s[(#[trigger] kv[e]).0.0 as int]@[kv[e].0.1 as int] == kv[e].1
}

/// At every cell that no known value pins, `s` avoids all forbidden values.
pub open spec fn avoids_wrong_values(
    n: int,
    s: Seq<Vec<usize>>,
    kv: Seq<((usize, usize), usize)>,
    kw: Seq<((usize, usize), Vec<usize>)>,
) -> bool {
    forall|i: int, j: int|
        0 <= i < n && 0 <= j < n && !kv_has_cell(kv, i, j) ==> !wrong_listed(
            kw,
            i,
            j,
            (#[trigger] s[i]@[j]) as int,
        )
}

/// What the solver promises of each returned square.
pub open spec fn solution_respects(
    n: int,
    kv: Seq<((usize, usize), usize)>,
    kw: Seq<((usize, usize), Vec<usize>)>,
    s: Vec<Vec<usize>>,
) -> bool {
    &&& is_latin_square(n, s@)
    &&& matches_known_values(s@, kv)
    &&& avoids_wrong_values(n, s@, kv, kw)
}

/// Relation between the seeded square `g0` and the current square `g`:
/// seeded cells keep their value, and every cell filled since seeding avoids
/// the values forbidden there.
pub open spec fn search_inv(
    n: int,
    g0: Seq<Vec<usize>>,
    g: Seq<Vec<usize>>,
    kw: Seq<((usize, usize), Vec<usize>)>,
) -> bool {
    &&& forall|i: int, j: int|
        0 <= i < n && 0 <= j < n && g0[i]@[j] != 0 ==> #[trigger] g[i]@[j] == g0[i]@[j]
    &&& forall|i: int, j: int|
        0 <= i < n && 0 <= j < n && g0[i]@[j] == 0 && #[trigger] g[i]@[j] != 0 ==> !wrong_listed(
            kw,
            i,
            j,
            g[i]@[j] as int,
        )
}

/// `b` refines `a`: same shape, and every cell assigned in `a` is unchanged.
pub open spec fn extends_grid(a: Seq<Vec<usize>>, b: Seq<Vec<usize>>) -> bool {
    &&& b.len() == a.len()
    &&& forall|i: int| 0 <= i < a.len() ==> (#[trigger] b[i])@.len() == a[i]@.len()
    &&& forall|i: int, j: int|
        0 <= i < a.len() && 0 <= j < a[i]@.len() && a[i]@[j] != 0 ==> #[trigger] b[i]@[j]
            == a[i]@[j]
}

/// Same shape and identical cell contents.
pub open spec fn cells_eq(n: int, a: Seq<Vec<usize>>, b: Seq<Vec<usize>>) -> bool {
    &&& square_dims(n, a)
    &&& square_dims(n, b)
    &&& forall|i: int, j: int| 0 <= i < n && 0 <= j < n ==> #[trigger] a[i]@[j] == #[trigger] b[i]@[j]
}

// ---------------------------------------------------------------------------
// Counting empty cells (the termination measure of the search)
// ---------------------------------------------------------------------------

/// Number of empty cells in one row.
pub open spec fn row_empties(row: Seq<usize>) -> nat
    decreases row.len(),
{
    if row.len() == 0 {
        0
    } else {
        row_empties(row.drop_last()) + (if row.last() == 0usize {
            1nat
        } else {
            0nat
        })
    }
}

/// Number of empty cells in the whole square.
pub open spec fn grid_empties(g: Seq<Vec<usize>>) -> nat
    decreases g.len(),
{
    if g.len() == 0 {
        0
    } else {
        grid_empties(g.drop_last()) + row_empties(g.last()@)
    }
}

proof fn lemma_row_empties_update(row: Seq<usize>, j: int, v: usize)
    requires
        0 <= j < row.len(),
        row[j] == 0,
        v != 0,
    ensures
        row_empties(row.update(j, v)) + 1 == row_empties(row),
    decreases row.len(),
{
    if j == row.len() - 1 {
        assert(row.update(j, v).drop_last() =~= row.drop_last());
    } else {
        assert(row.update(j, v).drop_last() =~= row.drop_last().update(j, v));
        lemma_row_empties_update(row.drop_last(), j, v);
    }
}

proof fn lemma_grid_empties_update(g: Seq<Vec<usize>>, i: int, r2: Vec<usize>)
    requires
        0 <= i < g.len(),
    ensures
        grid_empties(g.update(i, r2)) + row_empties(g[i]@) == grid_empties(g) + row_empties(r2@),
    decreases g.len(),
{
    if i == g.len() - 1 {
        assert(g.update(i, r2).drop_last() =~= g.drop_last());
    } else {
        assert(g.update(i, r2).drop_last() =~= g.drop_last().update(i, r2));
        lemma_grid_empties_update(g.drop_last(), i, r2);
    }
}

proof fn lemma_row_empties_mono(a: Seq<usize>, b: Seq<usize>)
    requires
        a.len() == b.len(),
        forall|j: int| 0 <= j < a.len() && a[j] != 0 ==> #[trigger] b[j] == a[j],
    ensures
        row_empties(b) <= row_empties(a),
    decreases a.len(),
{
    if a.len() > 0 {
        lemma_row_empties_mono(a.drop_last(), b.drop_last());
    }
}

proof fn lemma_grid_empties_mono(a: Seq<Vec<usize>>, b: Seq<Vec<usize>>)
    requires
        extends_grid(a, b),
    ensures
        grid_empties(b) <= grid_empties(a),
    decreases a.len(),
{
    if a.len() > 0 {
        assert(extends_grid(a.drop_last(), b.drop_last()));
        lemma_grid_empties_mono(a.drop_last(), b.drop_last());
        lemma_row_empties_mono(a.last()@, b.last()@);
    }
}

proof fn lemma_row_empties_take_step(row: Seq<usize>, j: int)
    requires
        0 <= j < row.len(),
    ensures
        row_empties(row.take(j + 1)) == row_empties(row.take(j)) + (if row[j] == 0usize {
            1nat
        } else {
            0nat
        }),
{
    assert(row.take(j + 1).drop_last() =~= row.take(j));
    assert(row.take(j + 1).last() == row[j]);
}

proof fn lemma_grid_empties_take_step(g: Seq<Vec<usize>>, i: int)
    requires
        0 <= i < g.len(),
    ensures
        grid_empties(g.take(i + 1)) == grid_empties(g.take(i)) + row_empties(g[i]@),
{
    assert(g.take(i + 1).drop_last() =~= g.take(i));
    assert(g.take(i + 1).last() == g[i]);
}

proof fn lemma_row_empties_bound(row: Seq<usize>)
    ensures
        row_empties(row) <= row.len(),
    decreases row.len(),
{
    if row.len() > 0 {
        lemma_row_empties_bound(row.drop_last());
    }
}

proof fn lemma_grid_empties_bound(n: int, g: Seq<Vec<usize>>)
    requires
        0 <= n,
        g.len() <= n,
        forall|i: int| 0 <= i < g.len() ==> (#[trigger] g[i])@.len() <= n,
    ensures
        grid_empties(g) <= g.len() * n,
    decreases g.len(),
{
    if g.len() > 0 {
        lemma_grid_empties_bound(n, g.drop_last());
        lemma_row_empties_bound(g.last()@);
        assert((g.len() - 1) * n + n == g.len() * n) by (nonlinear_arith);
    }
}

// ---------------------------------------------------------------------------
// Small executable helpers
// ---------------------------------------------------------------------------

/// Test one bit of an occupancy mask.
fn test_bit(m: u32, k: u32) -> (b: bool)
    requires
        k < 32,
    ensures
        b == bit_set(m, k),
{
    m & (1u32 << k) != 0
}

/// Scan the known-wrong entries for value `v` at cell `(i, j)`.
fn is_wrong_value(kw: &Vec<((usize, usize), Vec<usize>)>, i: usize, j: usize, v: usize) -> (r:
    bool)
    ensures
        r == wrong_listed(kw@, i as int, j as int, v as int),
{
    let mut e: usize = 0;
    while e < kw.len()
        invariant
            e <= kw@.len(),
            forall|e2: int, t: int|
                #![trigger kw@[e2].1@[t]]
                0 <= e2 < e && kw@[e2].0.0 == i && kw@[e2].0.1 == j && 0 <= t < kw@[e2].1@.len()
                    ==> kw@[e2].1@[t] != v,
        decreases kw@.len() - e,
    {
        let entry = &kw[e];
        if entry.0.0 == i && entry.0.1 == j {
            let mut t: usize = 0;
            while t < entry.1.len()
                invariant
                    e < kw@.len(),
                    t <= entry.1@.len(),
                    entry == kw@[e as int],
                    entry.0.0 == i && entry.0.1 == j,
                    forall|t2: int| 0 <= t2 < t ==> #[trigger] entry.1@[t2] != v,
                    forall|e2: int, t2: int|
                        #![trigger kw@[e2].1@[t2]]
                        0 <= e2 < e && kw@[e2].0.0 == i && kw@[e2].0.1 == j
                            && 0 <= t2 < kw@[e2].1@.len() ==> kw@[e2].1@[t2] != v,
                decreases entry.1@.len() - t,
            {
                if entry.1[t] == v {
                    assert(wrong_listed(kw@, i as int, j as int, v as int)) by {
                        assert(kw@[e as int].1@[t as int] == v);
                    }
                    return true;
                }
                t += 1;
            }
        }
        e += 1;
    }
    false
}

/// List the values still legal at `(i, j)` given the row mask `ru_i`, the
/// column mask `cu_j` and the forbidden values, in increasing order.
fn candidates_for_cell(
    n: usize,
    ru_i: u32,
    cu_j: u32,
    kw: &Vec<((usize, usize), Vec<usize>)>,
    i: usize,
    j: usize,
) -> (c: Vec<usize>)
    requires
        1 <= n <= 31,
    ensures
        forall|t: int|
            0 <= t < c@.len() ==> 1 <= #[trigger] c@[t] <= n && !bit_set(
                ru_i,
                (c@[t] - 1) as u32,
            ) && !bit_set(cu_j, (c@[t] - 1) as u32) && !wrong_listed(
                kw@,
                i as int,
                j as int,
                c@[t] as int,
            ),
        forall|t1: int, t2: int| 0 <= t1 < t2 < c@.len() ==> c@[t1] < c@[t2],
        c@.len() <= n,
        forall|v: int|
            1 <= v <= n && !bit_set(ru_i, (v - 1) as u32) && !bit_set(cu_j, (v - 1) as u32)
                && !wrong_listed(kw@, i as int, j as int, v) ==> exists|t: int|
                0 <= t < c@.len() && #[trigger] c@[t] == v,
{
    let mut c: Vec<usize> = Vec::new();
    let mut v: usize = 1;
    while v <= n
        invariant
            1 <= v <= n + 1,
            n <= 31,
            forall|t: int|
                0 <= t < c@.len() ==> 1 <= #[trigger] c@[t] <= n && c@[t] < v && !bit_set(
                    ru_i,
                    (c@[t] - 1) as u32,
                ) && !bit_set(cu_j, (c@[t] - 1) as u32) && !wrong_listed(
                    kw@,
                    i as int,
                    j as int,
                    c@[t] as int,
                ),
            forall|t1: int, t2: int| 0 <= t1 < t2 < c@.len() ==> c@[t1] < c@[t2],
            c@.len() < v,
            forall|v0: int|
                1 <= v0 < v && !bit_set(ru_i, (v0 - 1) as u32) && !bit_set(cu_j, (v0 - 1) as u32)
                    && !wrong_listed(kw@, i as int, j as int, v0) ==> exists|t: int|
                    0 <= t < c@.len() && #[trigger] c@[t] == v0,
        decreases n + 1 - v,
    {
        let k: u32 = (v - 1) as u32;
        if !test_bit(ru_i, k) && !test_bit(cu_j, k) && !is_wrong_value(kw, i, j, v) {
            let ghost c_old = c@;
            c.push(v);
            proof {
                assert forall|v0: int|
                    1 <= v0 < v + 1 && !bit_set(ru_i, (v0 - 1) as u32) && !bit_set(
                        cu_j,
                        (v0 - 1) as u32,
                    ) && !wrong_listed(kw@, i as int, j as int, v0) implies exists|t: int|
                    0 <= t < c@.len() && #[trigger] c@[t] == v0 by {
                    if v0 < v {
                        let t = choose|t: int| 0 <= t < c_old.len() && #[trigger] c_old[t] == v0;
                        assert(c@[t] == v0);
                    } else {
                        assert(c@[c@.len() - 1] == v0);
                    }
                }
            }
        }
        v += 1;
    }
    c
}

// ---------------------------------------------------------------------------
// Seeding and initial validation
// ---------------------------------------------------------------------------

/// Build the initial square: known cells hold their value, the rest 0.
fn seed_grid(n: usize, kv: &Vec<((usize, usize), usize)>) -> (g: Vec<Vec<usize>>)
    requires
        1 <= n <= 31,
        kv_ok(n as int, kv@),
    ensures
        square_dims(n as int, g@),
        partial_vals(n as int, g@),
        forall|e: int|
            0 <= e < kv@.len() ==> g@[(#[trigger] kv@[e]).0.0 as int]@[kv@[e].0.1 as int]
                == kv@[e].1,
        forall|i: int, j: int|
            0 <= i < n && 0 <= j < n && !kv_has_cell(kv@, i, j) ==> #[trigger] g@[i]@[j] == 0,
{
    let mut g: Vec<Vec<usize>> = Vec::new();
    for i in 0..n
        invariant
            g@.len() == i,
            forall|i2: int| 0 <= i2 < i ==> (#[trigger] g@[i2])@.len() == n,
            forall|i2: int, j2: int| 0 <= i2 < i && 0 <= j2 < n ==> #[trigger] g@[i2]@[j2] == 0,
    {
        let mut row: Vec<usize> = Vec::new();
        for j in 0..n
            invariant
                row@.len() == j,
                forall|j2: int| 0 <= j2 < j ==> #[trigger] row@[j2] == 0,
        {
            row.push(0);
        }
        g.push(row);
    }
    for e in 0..kv.len()
        invariant
            square_dims(n as int, g@),
            kv_ok(n as int, kv@),
            n <= 31,
            forall|e2: int|
                0 <= e2 < e ==> g@[(#[trigger] kv@[e2]).0.0 as int]@[kv@[e2].0.1 as int]
                    == kv@[e2].1,
            forall|i2: int, j2: int|
                0 <= i2 < n && 0 <= j2 < n && !kv_has_cell(kv@, i2, j2) ==> #[trigger] g@[i2]@[j2]
                    == 0,
            partial_vals(n as int, g@),
    {
        let ((ci, cj), v) = kv[e];
        g[ci][cj] = v;
        proof {
            assert forall|e2: int|
                0 <= e2 < e + 1 implies g@[(#[trigger] kv@[e2]).0.0 as int]@[kv@[e2].0.1 as int]
                == kv@[e2].1 by {
                if e2 < e {
                    assert(kv@[e2].0 != kv@[e as int].0);
                }
            }
            assert forall|i2: int, j2: int|
                0 <= i2 < n && 0 <= j2 < n && !kv_has_cell(kv@, i2, j2) implies #[trigger] g@[i2]@[
                j2] == 0 by {
                assert(!(kv@[e as int].0.0 == i2 && kv@[e as int].0.1 == j2));
            }
        }
    }
    g
}

/// Does row `i` of the seeded square repeat an assigned value?
fn row_has_dup(n: usize, g: &Vec<Vec<usize>>, i: usize) -> (dup: bool)
    requires
        1 <= n <= 31,
        square_dims(n as int, g@),
        i < n,
    ensures
        dup == exists|j1: int, j2: int|
            #![trigger g@[i as int]@[j1], g@[i as int]@[j2]]
            0 <= j1 < j2 < n && g@[i as int]@[j1] != 0 && g@[i as int]@[j1] == g@[i as int]@[j2],
{
    let mut j1: usize = 0;
    while j1 < n
        invariant
            j1 <= n,
            i < n,
            square_dims(n as int, g@),
            forall|a: int, b: int|
                #![trigger g@[i as int]@[a], g@[i as int]@[b]]
                0 <= a < b < n && a < j1 && g@[i as int]@[a] != 0 ==> g@[i as int]@[a] != g@[
                    i as int]@[b],
        decreases n - j1,
    {
        if g[i][j1] != 0 {
            let mut j2: usize = j1 + 1;
            while j2 < n
                invariant
                    j1 < j2 <= n,
                    i < n,
                    square_dims(n as int, g@),
                    g@[i as int]@[j1 as int] != 0,
                    forall|b: int| j1 < b < j2 ==> g@[i as int]@[j1 as int] != #[trigger] g@[
                        i as int]@[b],
                decreases n - j2,
            {
                if g[i][j1] == g[i][j2] {
                    return true;
                }
                j2 += 1;
            }
        }
        j1 += 1;
    }
    false
}

/// Does column `j` of the seeded square repeat an assigned value?
fn col_has_dup(n: usize, g: &Vec<Vec<usize>>, j: usize) -> (dup: bool)
    requires
        1 <= n <= 31,
        square_dims(n as int, g@),
        j < n,
    ensures
        dup == exists|i1: int, i2: int|
            #![trigger g@[i1]@[j as int], g@[i2]@[j as int]]
            0 <= i1 < i2 < n && g@[i1]@[j as int] != 0 && g@[i1]@[j as int] == g@[i2]@[j as int],
{
    let mut i1: usize = 0;
    while i1 < n
        invariant
            i1 <= n,
            j < n,
            square_dims(n as int, g@),
            forall|a: int, b: int|
                #![trigger g@[a]@[j as int], g@[b]@[j as int]]
                0 <= a < b < n && a < i1 && g@[a]@[j as int] != 0 ==> g@[a]@[j as int] != g@[b]@[
                    j as int],
        decreases n - i1,
    {
        if g[i1][j] != 0 {
            let mut i2: usize = i1 + 1;
            while i2 < n
                invariant
                    i1 < i2 <= n,
                    j < n,
                    square_dims(n as int, g@),
                    g@[i1 as int]@[j as int] != 0,
                    forall|b: int| i1 < b < i2 ==> g@[i1 as int]@[j as int] != #[trigger] g@[b]@[
                        j as int],
                decreases n - i2,
            {
                if g[i1][j] == g[i2][j] {
                    return true;
                }
                i2 += 1;
            }
        }
        i1 += 1;
    }
    false
}

/// Does any row or column of the seeded square repeat an assigned value?
fn grid_has_duplicate(n: usize, g: &Vec<Vec<usize>>) -> (dup: bool)
    requires
        1 <= n <= 31,
        square_dims(n as int, g@),
    ensures
        !dup <==> partial_rows_distinct(g@) && partial_cols_distinct(g@),
{
    let mut i: usize = 0;
    while i < n
        invariant
            i <= n,
            square_dims(n as int, g@),
            n <= 31,
            forall|i2: int, j1: int, j2: int|
                #![trigger g@[i2]@[j1], g@[i2]@[j2]]
                0 <= i2 < i && 0 <= j1 < j2 < n && g@[i2]@[j1] != 0 ==> g@[i2]@[j1] != g@[i2]@[j2],
        decreases n - i,
    {
        if row_has_dup(n, g, i) {
            return true;
        }
        i += 1;
    }
    let mut j: usize = 0;
    while j < n
        invariant
            j <= n,
            square_dims(n as int, g@),
            n <= 31,
            partial_rows_distinct(g@),
            forall|j2: int, i1: int, i2: int|
                #![trigger g@[i1]@[j2], g@[i2]@[j2]]
                0 <= j2 < j && 0 <= i1 < i2 < n && g@[i1]@[j2] != 0 ==> g@[i1]@[j2] != g@[i2]@[j2],
        decreases n - j,
    {
        if col_has_dup(n, g, j) {
            return true;
        }
        j += 1;
    }
    false
}

/// Occupancy mask of row `i`: the union of its assigned values.
fn compute_row_mask(n: usize, g: &Vec<Vec<usize>>, i: usize) -> (m: u32)
    requires
        1 <= n <= 31,
        square_dims(n as int, g@),
        partial_vals(n as int, g@),
        i < n,
    ensures
        forall|k: u32|
            k < 32 ==> (#[trigger] bit_set(m, k) <==> row_has(n as int, g@, i as int, k + 1)),
{
    let mut m: u32 = 0;
    proof {
        assert forall|k: u32| k < 32 implies !bit_set(0u32, k) by {
            lemma_zero_no_bits(k);
        }
    }
    for j in 0..n
        invariant
            i < n,
            n <= 31,
            square_dims(n as int, g@),
            partial_vals(n as int, g@),
            forall|k: u32|
                k < 32 ==> (#[trigger] bit_set(m, k) <==> exists|j2: int|
                    0 <= j2 < j && g@[i as int]@[j2] == k + 1),
    {
        let v = g[i][j];
        if v != 0 {
            let old_m = m;
            m = m | (1u32 << ((v - 1) as u32));
            proof {
                assert forall|k: u32| k < 32 implies (#[trigger] bit_set(m, k) <==> exists|j2: int|
                    0 <= j2 < j + 1 && g@[i as int]@[j2] == k + 1) by {
                    lemma_or_one_bit(old_m, (v - 1) as u32, k);
                    if bit_set(m, k) {
                        if k == (v - 1) as u32 {
                            assert(g@[i as int]@[j as int] == k + 1);
                        }
                    }
                }
            }
        } else {
            proof {
                assert forall|k: u32| k < 32 implies (#[trigger] bit_set(m, k) <==> exists|j2: int|
                    0 <= j2 < j + 1 && g@[i as int]@[j2] == k + 1) by {}
            }
        }
    }
    m
}

/// Occupancy mask of column `j`: the union of its assigned values.
fn compute_col_mask(n: usize, g: &Vec<Vec<usize>>, j: usize) -> (m: u32)
    requires
        1 <= n <= 31,
        square_dims(n as int, g@),
        partial_vals(n as int, g@),
        j < n,
    ensures
        forall|k: u32|
            k < 32 ==> (#[trigger] bit_set(m, k) <==> col_has(n as int, g@, j as int, k + 1)),
{
    let mut m: u32 = 0;
    proof {
        assert forall|k: u32| k < 32 implies !bit_set(0u32, k) by {
            lemma_zero_no_bits(k);
        }
    }
    for i in 0..n
        invariant
            j < n,
            n <= 31,
            square_dims(n as int, g@),
            partial_vals(n as int, g@),
            forall|k: u32|
                k < 32 ==> (#[trigger] bit_set(m, k) <==> exists|i2: int|
                    0 <= i2 < i && g@[i2]@[j as int] == k + 1),
    {
        let v = g[i][j];
        if v != 0 {
            let old_m = m;
            m = m | (1u32 << ((v - 1) as u32));
            proof {
                assert forall|k: u32| k < 32 implies (#[trigger] bit_set(m, k) <==> exists|i2: int|
                    0 <= i2 < i + 1 && g@[i2]@[j as int] == k + 1) by {
                    lemma_or_one_bit(old_m, (v - 1) as u32, k);
                    if bit_set(m, k) {
                        if k == (v - 1) as u32 {
                            assert(g@[i as int]@[j as int] == k + 1);
                        }
                    }
                }
            }
        } else {
            proof {
                assert forall|k: u32| k < 32 implies (#[trigger] bit_set(m, k) <==> exists|i2: int|
                    0 <= i2 < i + 1 && g@[i2]@[j as int] == k + 1) by {}
            }
        }
    }
    m
}

/// Occupancy masks of all rows (or of all columns when `by_cols`).
fn compute_masks(n: usize, g: &Vec<Vec<usize>>, by_cols: bool) -> (ms: Vec<u32>)
    requires
        1 <= n <= 31,
        square_dims(n as int, g@),
        partial_vals(n as int, g@),
    ensures
        !by_cols ==> row_masks_ok(n as int, g@, ms@),
        by_cols ==> col_masks_ok(n as int, g@, ms@),
{
    let mut ms: Vec<u32> = Vec::new();
    for x in 0..n
        invariant
            n <= 31,
            square_dims(n as int, g@),
            partial_vals(n as int, g@),
            ms@.len() == x,
            !by_cols ==> forall|i: int, k: u32|
                0 <= i < x && k < 32 ==> (#[trigger] bit_set(ms@[i], k) <==> row_has(
                    n as int,
                    g@,
                    i,
                    k + 1,
                )),
            by_cols ==> forall|j: int, k: u32|
                0 <= j < x && k < 32 ==> (#[trigger] bit_set(ms@[j], k) <==> col_has(
                    n as int,
                    g@,
                    j,
                    k + 1,
                )),
    {
        if by_cols {
            let m = compute_col_mask(n, g, x);
            ms.push(m);
        } else {
            let m = compute_row_mask(n, g, x);
            ms.push(m);
        }
    }
    ms
}

// ---------------------------------------------------------------------------
// State snapshots
// ---------------------------------------------------------------------------

/// A fresh copy of the square, cell for cell.
pub(crate) fn clone_grid(n: usize, g: &Vec<Vec<usize>>) -> (r: Vec<Vec<usize>>)
    requires
        square_dims(n as int, g@),
    ensures
        square_dims(n as int, r@),
        forall|i: int, j: int| 0 <= i < n && 0 <= j < n ==> #[trigger] r@[i]@[j] == g@[i]@[j],
{
    let mut r: Vec<Vec<usize>> = Vec::new();
    for i in 0..n
        invariant
            square_dims(n as int, g@),
            r@.len() == i,
            forall|i2: int| 0 <= i2 < i ==> (#[trigger] r@[i2])@.len() == n,
            forall|i2: int, j2: int|
                0 <= i2 < i && 0 <= j2 < n ==> #[trigger] r@[i2]@[j2] == g@[i2]@[j2],
    {
        let mut row: Vec<usize> = Vec::new();
        for j in 0..n
            invariant
                square_dims(n as int, g@),
                i < n,
                row@.len() == j,
                forall|j2: int| 0 <= j2 < j ==> #[trigger] row@[j2] == g@[i as int]@[j2],
        {
            row.push(g[i][j]);
        }
        r.push(row);
    }
    r
}

/// A fresh copy of a mask vector.
fn clone_masks(ms: &Vec<u32>) -> (r: Vec<u32>)
    ensures
        r@ == ms@,
{
    let mut r: Vec<u32> = Vec::new();
    for x in 0..ms.len()
        invariant
            r@.len() == x,
            forall|x2: int| 0 <= x2 < x ==> #[trigger] r@[x2] == ms@[x2],
    {
        r.push(ms[x]);
    }
    proof {
        assert(r@ =~= ms@);
    }
    r
}

/// Count the empty cells of the square.
fn count_empty_cells(n: usize, g: &Vec<Vec<usize>>) -> (c: usize)
    requires
        1 <= n <= 31,
        square_dims(n as int, g@),
    ensures
        c == grid_empties(g@),
{
    let mut c: usize = 0;
    for i in 0..n
        invariant
            n <= 31,
            square_dims(n as int, g@),
            c == grid_empties(g@.take(i as int)),
            c <= n * n,
    {
        let mut rc: usize = 0;
        for j in 0..n
            invariant
                n <= 31,
                i < n,
                square_dims(n as int, g@),
                rc == row_empties(g@[i as int]@.take(j as int)),
                rc <= j,
        {
            proof {
                lemma_row_empties_take_step(g@[i as int]@, j as int);
            }
            if g[i][j] == 0 {
                rc += 1;
            }
        }
        proof {
            assert(g@[i as int]@.take(n as int) =~= g@[i as int]@);
            lemma_grid_empties_take_step(g@, i as int);
            lemma_grid_empties_bound(n as int, g@.take(i as int + 1));
            assert(g@.take(i as int + 1).len() * n <= n * n) by (nonlinear_arith)
                requires
                    g@.take(i as int + 1).len() <= n,
                    n >= 1,
            ;
            assert(n * n <= 961) by (nonlinear_arith)
                requires
                    n <= 31,
            ;
        }
        c += rc;
    }
    proof {
        assert(g@.take(n as int) =~= g@);
    }
    c
}

// ---------------------------------------------------------------------------
// Assignment, the one way the square is ever written during search
// ---------------------------------------------------------------------------

/// Place value `v` in empty cell `(i, j)` and update both occupancy masks;
/// the state invariant is preserved and exactly one cell changes.
fn assign_cell(n: usize, g: &mut Vec<Vec<usize>>, ru: &mut Vec<u32>, cu: &mut Vec<u32>, i: usize,
    j: usize, v: usize)
    requires
        1 <= n <= 31,
        state_ok(n as int, old(g)@, old(ru)@, old(cu)@),
        i < n,
        j < n,
        1 <= v <= n,
        old(g)@[i as int]@[j as int] == 0,
        !bit_set(old(ru)@[i as int], (v - 1) as u32),
        !bit_set(old(cu)@[j as int], (v - 1) as u32),
    ensures
        state_ok(n as int, final(g)@, final(ru)@, final(cu)@),
        final(g)@[i as int]@[j as int] == v,
        forall|i2: int, j2: int|
            0 <= i2 < n && 0 <= j2 < n && !(i2 == i && j2 == j) ==> #[trigger] final(g)@[i2]@[j2]
                == old(g)@[i2]@[j2],
        extends_grid(old(g)@, final(g)@),
        grid_empties(final(g)@) + 1 == grid_empties(old(g)@),
{
    let ghost g_old = g@;
    let ghost row_old = g@[i as int]@;
    g[i][j] = v;
    let bit: u32 = (v - 1) as u32;
    let mr = ru[i];
    ru[i] = mr | (1u32 << bit);
    let mc = cu[j];
    cu[j] = mc | (1u32 << bit);
    proof {
        let gn = g@;
        let ni = i as int;
        let nj = j as int;
        assert(gn[ni]@ =~= row_old.update(nj, v));
        // dimensions and value ranges
        assert(square_dims(n as int, gn));
        assert(partial_vals(n as int, gn));
        // assigned values stay distinct: a clash with the new cell would mean
        // the value was already present, so its mask bit would have been set
        assert forall|i2: int, j1: int, j2: int|
            #![trigger gn[i2]@[j1], gn[i2]@[j2]]
            0 <= i2 < gn.len() && 0 <= j1 < j2 < gn[i2]@.len() && gn[i2]@[j1] != 0 implies gn[i2]@[
            j1] != gn[i2]@[j2] by {
            if i2 == ni && (j1 == nj || j2 == nj) {
                if j1 == nj {
                    if gn[i2]@[j1] == gn[i2]@[j2] {
                        assert(row_has(n as int, g_old, ni, v as int)) by {
                            assert(g_old[ni]@[j2] == v);
                        }
                    }
                } else {
                    if gn[i2]@[j1] == gn[i2]@[j2] {
                        assert(row_has(n as int, g_old, ni, v as int)) by {
                            assert(g_old[ni]@[j1] == v);
                        }
                    }
                }
            }
        }
        assert forall|j2: int, i1: int, i2: int|
            #![trigger gn[i1]@[j2], gn[i2]@[j2]]
            0 <= i1 < i2 < gn.len() && 0 <= j2 < gn[i1]@.len() && j2 < gn[i2]@.len() && gn[i1]@[j2]
            != 0 implies gn[i1]@[j2] != gn[i2]@[j2] by {
            if j2 == nj && (i1 == ni || i2 == ni) {
                if i1 == ni {
                    if gn[i1]@[j2] == gn[i2]@[j2] {
                        assert(col_has(n as int, g_old, nj, v as int)) by {
                            assert(g_old[i2]@[nj] == v);
                        }
                    }
                } else {
                    if gn[i1]@[j2] == gn[i2]@[j2] {
                        assert(col_has(n as int, g_old, nj, v as int)) by {
                            assert(g_old[i1]@[nj] == v);
                        }
                    }
                }
            }
        }
        // row masks stay exact
        assert forall|i2: int, k: u32|
            0 <= i2 < n && k < 32 implies (#[trigger] bit_set(ru@[i2], k) <==> row_has(
            n as int,
            gn,
            i2,
            k + 1,
        )) by {
            if i2 == ni {
                lemma_or_one_bit(mr, bit, k);
                if k == bit {
                    assert(gn[ni]@[nj] == v);
                } else {
                    if bit_set(ru@[i2], k) {
                        let jw = choose|jw: int| 0 <= jw < n && g_old[ni]@[jw] == k + 1;
                        assert(gn[ni]@[jw] == k + 1);
                    }
                    if row_has(n as int, gn, i2, k + 1) {
                        let jw = choose|jw: int| 0 <= jw < n && gn[ni]@[jw] == k + 1;
                        assert(g_old[ni]@[jw] == k + 1);
                    }
                }
            } else {
                assert(gn[i2] == g_old[i2]);
                if bit_set(ru@[i2], k) {
                    let jw = choose|jw: int| 0 <= jw < n && g_old[i2]@[jw] == k + 1;
                    assert(gn[i2]@[jw] == k + 1);
                }
                if row_has(n as int, gn, i2, k + 1) {
                    let jw = choose|jw: int| 0 <= jw < n && gn[i2]@[jw] == k + 1;
                    assert(g_old[i2]@[jw] == k + 1);
                }
            }
        }
        // column masks stay exact
        assert forall|j2: int, k: u32|
            0 <= j2 < n && k < 32 implies (#[trigger] bit_set(cu@[j2], k) <==> col_has(
            n as int,
            gn,
            j2,
            k + 1,
        )) by {
            if j2 == nj {
                lemma_or_one_bit(mc, bit, k);
                if k == bit {
                    assert(gn[ni]@[nj] == v);
                } else {
                    if bit_set(cu@[j2], k) {
                        let iw = choose|iw: int| 0 <= iw < n && g_old[iw]@[nj] == k + 1;
                        assert(gn[iw]@[nj] == k + 1);
                    }
                    if col_has(n as int, gn, j2, k + 1) {
                        let iw = choose|iw: int| 0 <= iw < n && gn[iw]@[nj] == k + 1;
                        assert(g_old[iw]@[nj] == k + 1);
                    }
                }
            } else {
                if bit_set(cu@[j2], k) {
                    let iw = choose|iw: int| 0 <= iw < n && g_old[iw]@[j2] == k + 1;
                    assert(gn[iw]@[j2] == k + 1);
                }
                if col_has(n as int, gn, j2, k + 1) {
                    let iw = choose|iw: int| 0 <= iw < n && gn[iw]@[j2] == k + 1;
                    assert(g_old[iw]@[j2] == k + 1);
                }
            }
        }
        // one empty cell fewer
        lemma_row_empties_update(row_old, nj, v);
        lemma_grid_empties_update(g_old, ni, gn[ni]);
        assert(gn =~= g_old.update(ni, gn[ni]));
    }
}

// ---------------------------------------------------------------------------
// Transfer lemmas between equal or refined states
// ---------------------------------------------------------------------------

proof fn lemma_state_ok_transfer(n: int, a: Seq<Vec<usize>>, b: Seq<Vec<usize>>, ru: Seq<u32>,
    cu: Seq<u32>)
    requires
        cells_eq(n, a, b),
        state_ok(n, a, ru, cu),
    ensures
        state_ok(n, b, ru, cu),
{
    assert forall|i: int, k: u32|
        0 <= i < n && k < 32 implies (#[trigger] bit_set(ru[i], k) <==> row_has(n, b, i, k + 1)) by {
        if bit_set(ru[i], k) {
            let jw = choose|jw: int| 0 <= jw < n && a[i]@[jw] == k + 1;
            assert(b[i]@[jw] == k + 1);
        }
        if row_has(n, b, i, k + 1) {
            let jw = choose|jw: int| 0 <= jw < n && b[i]@[jw] == k + 1;
            assert(a[i]@[jw] == k + 1);
        }
    }
    assert forall|j: int, k: u32|
        0 <= j < n && k < 32 implies (#[trigger] bit_set(cu[j], k) <==> col_has(n, b, j, k + 1)) by {
        if bit_set(cu[j], k) {
            let iw = choose|iw: int| 0 <= iw < n && a[iw]@[j] == k + 1;
            assert(b[iw]@[j] == k + 1);
        }
        if col_has(n, b, j, k + 1) {
            let iw = choose|iw: int| 0 <= iw < n && b[iw]@[j] == k + 1;
            assert(a[iw]@[j] == k + 1);
        }
    }
    assert forall|i: int, j1: int, j2: int|
        #![trigger b[i]@[j1], b[i]@[j2]]
        0 <= i < b.len() && 0 <= j1 < j2 < b[i]@.len() && b[i]@[j1] != 0 implies b[i]@[j1] != b[i]@[
        j2] by {
        assert(a[i]@[j1] == b[i]@[j1]);
        assert(a[i]@[j2] == b[i]@[j2]);
    }
    assert forall|j: int, i1: int, i2: int|
        #![trigger b[i1]@[j], b[i2]@[j]]
        0 <= i1 < i2 < b.len() && 0 <= j < b[i1]@.len() && j < b[i2]@.len() && b[i1]@[j] != 0
        implies b[i1]@[j] != b[i2]@[j] by {
        assert(a[i1]@[j] == b[i1]@[j]);
        assert(a[i2]@[j] == b[i2]@[j]);
    }
    assert forall|i: int, j: int|
        0 <= i < b.len() && 0 <= j < b[i]@.len() implies #[trigger] b[i]@[j] <= n by {
        assert(a[i]@[j] == b[i]@[j]);
    }
}

proof fn lemma_search_inv_transfer(n: int, g0: Seq<Vec<usize>>, a: Seq<Vec<usize>>,
    b: Seq<Vec<usize>>, kw: Seq<((usize, usize), Vec<usize>)>)
    requires
        cells_eq(n, a, b),
        search_inv(n, g0, a, kw),
    ensures
        search_inv(n, g0, b, kw),
{
    assert forall|i: int, j: int|
        0 <= i < n && 0 <= j < n && g0[i]@[j] != 0 implies #[trigger] b[i]@[j] == g0[i]@[j] by {
        assert(a[i]@[j] == b[i]@[j]);
    }
    assert forall|i: int, j: int|
        0 <= i < n && 0 <= j < n && g0[i]@[j] == 0 && #[trigger] b[i]@[j] != 0
        implies !wrong_listed(kw, i, j, b[i]@[j] as int) by {
        assert(a[i]@[j] == b[i]@[j]);
    }
}

proof fn lemma_search_inv_assign(n: int, g0: Seq<Vec<usize>>, ga: Seq<Vec<usize>>,
    gb: Seq<Vec<usize>>, kw: Seq<((usize, usize), Vec<usize>)>, i: int, j: int, v: usize)
    requires
        search_inv(n, g0, ga, kw),
        0 <= i < n,
        0 <= j < n,
        square_dims(n, ga),
        square_dims(n, gb),
        ga[i]@[j] == 0,
        gb[i]@[j] == v,
        v != 0,
        !wrong_listed(kw, i, j, v as int),
        forall|i2: int, j2: int|
            0 <= i2 < n && 0 <= j2 < n && !(i2 == i && j2 == j) ==> #[trigger] gb[i2]@[j2]
                == ga[i2]@[j2],
    ensures
        search_inv(n, g0, gb, kw),
{
    assert forall|i2: int, j2: int|
        0 <= i2 < n && 0 <= j2 < n && g0[i2]@[j2] != 0 implies #[trigger] gb[i2]@[j2] == g0[i2]@[
        j2] by {
        if i2 == i && j2 == j {
            assert(ga[i]@[j] == g0[i]@[j]);
        }
    }
    assert forall|i2: int, j2: int|
        0 <= i2 < n && 0 <= j2 < n && g0[i2]@[j2] == 0 && #[trigger] gb[i2]@[j2] != 0
        implies !wrong_listed(kw, i2, j2, gb[i2]@[j2] as int) by {
        if !(i2 == i && j2 == j) {
            assert(gb[i2]@[j2] == ga[i2]@[j2]);
        }
    }
}

proof fn lemma_extends_trans(a: Seq<Vec<usize>>, b: Seq<Vec<usize>>, c: Seq<Vec<usize>>)
    requires
        extends_grid(a, b),
        extends_grid(b, c),
    ensures
        extends_grid(a, c),
{
    assert forall|i: int, j: int|
        0 <= i < a.len() && 0 <= j < a[i]@.len() && a[i]@[j] != 0 implies #[trigger] c[i]@[j]
        == a[i]@[j] by {
        assert(b[i]@[j] == a[i]@[j]);
    }
}

// ---------------------------------------------------------------------------
// Constraint propagation: naked and hidden singles to a fixpoint
// ---------------------------------------------------------------------------

/// Repeatedly fill cells that are forced — empty cells with a single
/// remaining candidate, and values with a single remaining position in a row
/// or column — until a full pass makes no change. `Err` signals that some
/// cell or value has no position left, i.e. a contradiction.
fn propagate(
    n: usize,
    g: &mut Vec<Vec<usize>>,
    ru: &mut Vec<u32>,
    cu: &mut Vec<u32>,
    kw: &Vec<((usize, usize), Vec<usize>)>,
    Ghost(g0): Ghost<Seq<Vec<usize>>>,
) -> (r: Result<bool, ()>)
    requires
        1 <= n <= 31,
        state_ok(n as int, old(g)@, old(ru)@, old(cu)@),
        search_inv(n as int, g0, old(g)@, kw@),
    ensures
        state_ok(n as int, final(g)@, final(ru)@, final(cu)@),
        search_inv(n as int, g0, final(g)@, kw@),
        extends_grid(old(g)@, final(g)@),
        forall|s: Vec<Vec<usize>>|
            admits(n as int, g0, old(g)@, kw@, s) ==> admits(n as int, g0, final(g)@, kw@, s),
        r is Err ==> forall|s: Vec<Vec<usize>>| !admits(n as int, g0, old(g)@, kw@, s),
{
    let mut progress = true;
    let mut made = false;
    while progress
        invariant
            1 <= n <= 31,
            state_ok(n as int, g@, ru@, cu@),
            search_inv(n as int, g0, g@, kw@),
                forall|s: Vec<Vec<usize>>|
                    admits(n as int, g0, old(g)@, kw@, s) ==> admits(n as int, g0, g@, kw@, s),
            extends_grid(old(g)@, g@),
        decreases grid_empties(g@) * 2 + (if progress {
            1int
        } else {
            0int
        }),
    {
        progress = false;
        let ghost e_start = grid_empties(g@);
        // naked singles: an empty cell with exactly one candidate left
        for i in 0..n
            invariant
                1 <= n <= 31,
                state_ok(n as int, g@, ru@, cu@),
                search_inv(n as int, g0, g@, kw@),
                forall|s: Vec<Vec<usize>>|
                    admits(n as int, g0, old(g)@, kw@, s) ==> admits(n as int, g0, g@, kw@, s),
                extends_grid(old(g)@, g@),
                grid_empties(g@) <= e_start,
                progress ==> grid_empties(g@) < e_start,
        {
            for j in 0..n
                invariant
                    1 <= n <= 31,
                    i < n,
                    state_ok(n as int, g@, ru@, cu@),
                    search_inv(n as int, g0, g@, kw@),
                forall|s: Vec<Vec<usize>>|
                    admits(n as int, g0, old(g)@, kw@, s) ==> admits(n as int, g0, g@, kw@, s),
                    extends_grid(old(g)@, g@),
                    grid_empties(g@) <= e_start,
                    progress ==> grid_empties(g@) < e_start,
            {
                if g[i][j] == 0 {
                    let ri = ru[i];
                    let cj = cu[j];
                    let cands = candidates_for_cell(n, ri, cj, kw, i, j);
                    if cands.len() == 0 {
                        proof {
                            assert forall|s: Vec<Vec<usize>>| !admits(
                                n as int,
                                g0,
                                old(g)@,
                                kw@,
                                s,
                            ) by {
                                if admits(n as int, g0, old(g)@, kw@, s) {
                                    assert(admits(n as int, g0, g@, kw@, s));
                                    lemma_admitted_value_legal(
                                        n as int,
                                        g0,
                                        g@,
                                        ru@,
                                        cu@,
                                        kw@,
                                        s,
                                        i as int,
                                        j as int,
                                    );
                                    let v0 = s@[i as int]@[j as int] as int;
                                    assert(!bit_set(ri, (v0 - 1) as u32) && !bit_set(
                                        cj,
                                        (v0 - 1) as u32,
                                    ) && !wrong_listed(kw@, i as int, j as int, v0));
                                    assert(exists|t: int|
                                        0 <= t < cands@.len() && #[trigger] cands@[t] == v0);
                                }
                            }
                        }
                        return Err(());
                    }
                    if cands.len() == 1 {
                        let v = cands[0];
                        let ghost g_before = g@;
                        let ghost ru_b = ru@;
                        let ghost cu_b = cu@;
                        assign_cell(n, g, ru, cu, i, j, v);
                        proof {
                            lemma_search_inv_assign(
                                n as int,
                                g0,
                                g_before,
                                g@,
                                kw@,
                                i as int,
                                j as int,
                                v,
                            );
                            lemma_extends_trans(old(g)@, g_before, g@);
                            assert forall|s: Vec<Vec<usize>>|
                                admits(n as int, g0, old(g)@, kw@, s) implies admits(
                                n as int,
                                g0,
                                g@,
                                kw@,
                                s,
                            ) by {
                                assert(admits(n as int, g0, g_before, kw@, s));
                                lemma_admitted_value_legal(
                                    n as int,
                                    g0,
                                    g_before,
                                    ru_b,
                                    cu_b,
                                    kw@,
                                    s,
                                    i as int,
                                    j as int,
                                );
                                let v0 = s@[i as int]@[j as int] as int;
                                assert(!bit_set(ri, (v0 - 1) as u32) && !bit_set(
                                    cj,
                                    (v0 - 1) as u32,
                                ) && !wrong_listed(kw@, i as int, j as int, v0));
                                assert(exists|t: int|
                                    0 <= t < cands@.len() && #[trigger] cands@[t] == v0);
                                let t0 = choose|t: int|
                                    0 <= t < cands@.len() && #[trigger] cands@[t] == v0;
                                assert(t0 == 0);
                                assert(s@[i as int]@[j as int] == v);
                            }
                        }
                        progress = true;
                        made = true;
                    }
                }
            }
        }
        // hidden singles in rows: a missing value with one position left
        for i in 0..n
            invariant
                1 <= n <= 31,
                state_ok(n as int, g@, ru@, cu@),
                search_inv(n as int, g0, g@, kw@),
                forall|s: Vec<Vec<usize>>|
                    admits(n as int, g0, old(g)@, kw@, s) ==> admits(n as int, g0, g@, kw@, s),
                extends_grid(old(g)@, g@),
                grid_empties(g@) <= e_start,
                progress ==> grid_empties(g@) < e_start,
        {
            let mut v: usize = 1;
            while v <= n
                invariant
                    1 <= n <= 31,
                    i < n,
                    1 <= v <= n + 1,
                    state_ok(n as int, g@, ru@, cu@),
                    search_inv(n as int, g0, g@, kw@),
                forall|s: Vec<Vec<usize>>|
                    admits(n as int, g0, old(g)@, kw@, s) ==> admits(n as int, g0, g@, kw@, s),
                    extends_grid(old(g)@, g@),
                    grid_empties(g@) <= e_start,
                    progress ==> grid_empties(g@) < e_start,
                decreases n + 1 - v,
            {
                let k: u32 = (v - 1) as u32;
                let mri = ru[i];
                if !test_bit(mri, k) {
                    let mut positions: Vec<usize> = Vec::new();
                    for j in 0..n
                        invariant
                            1 <= n <= 31,
                            i < n,
                            1 <= v <= n,
                            k == (v - 1) as u32,
                            state_ok(n as int, g@, ru@, cu@),
                            search_inv(n as int, g0, g@, kw@),
                forall|s: Vec<Vec<usize>>|
                    admits(n as int, g0, old(g)@, kw@, s) ==> admits(n as int, g0, g@, kw@, s),
                            extends_grid(old(g)@, g@),
                            grid_empties(g@) <= e_start,
                            progress ==> grid_empties(g@) < e_start,
                            mri == ru@[i as int],
                            !bit_set(mri, (v - 1) as u32),
                            forall|t: int|
                                0 <= t < positions@.len() ==> #[trigger] positions@[t] < n
                                    && g@[i as int]@[positions@[t] as int] == 0 && !bit_set(
                                    cu@[positions@[t] as int],
                                    (v - 1) as u32,
                                ) && !wrong_listed(
                                    kw@,
                                    i as int,
                                    positions@[t] as int,
                                    v as int,
                                ),
                            forall|j2: int|
                                0 <= j2 < j && g@[i as int]@[j2] == 0 && !bit_set(
                                    cu@[j2],
                                    (v - 1) as u32,
                                ) && !wrong_listed(kw@, i as int, j2, v as int) ==> exists|t: int|
                                    0 <= t < positions@.len() && #[trigger] positions@[t] == j2,
                    {
                        let ghost positions_old = positions@;
                        if g[i][j] == 0 && !test_bit(cu[j], k) && !is_wrong_value(kw, i, j, v) {
                            positions.push(j);
                        }
                        proof {
                            assert forall|j2: int|
                                0 <= j2 < j + 1 && g@[i as int]@[j2] == 0 && !bit_set(
                                    cu@[j2],
                                    (v - 1) as u32,
                                ) && !wrong_listed(kw@, i as int, j2, v as int) implies exists|
                                t: int,
                            |
                                0 <= t < positions@.len() && #[trigger] positions@[t] == j2 by {
                                if j2 < j {
                                    let t0 = choose|t0: int|
                                        0 <= t0 < positions_old.len() && #[trigger] positions_old[
                                        t0] == j2;
                                    assert(positions@[t0] == j2);
                                } else {
                                    assert(positions@[positions@.len() - 1] == j2);
                                }
                            }
                        }
                    }
                    if positions.len() == 0 {
                        proof {
                            assert forall|s: Vec<Vec<usize>>| !admits(
                                n as int,
                                g0,
                                old(g)@,
                                kw@,
                                s,
                            ) by {
                                if admits(n as int, g0, old(g)@, kw@, s) {
                                    assert(admits(n as int, g0, g@, kw@, s));
                                    lemma_admitted_hidden_row(
                                        n as int,
                                        g0,
                                        g@,
                                        ru@,
                                        cu@,
                                        kw@,
                                        s,
                                        i as int,
                                        v as int,
                                    );
                                    let jp = choose|jp: int|
                                        0 <= jp < n && s@[i as int]@[jp] == v as int && (
                                        #[trigger] g@[i as int]@[jp]) == 0 && !bit_set(
                                            cu@[jp],
                                            ((v as int) - 1) as u32,
                                        ) && !wrong_listed(kw@, i as int, jp, v as int);
                                    assert(exists|t: int|
                                        0 <= t < positions@.len() && #[trigger] positions@[t]
                                            == jp);
                                }
                            }
                        }
                        return Err(());
                    }
                    if positions.len() == 1 {
                        let jj = positions[0];
                        let ghost g_before = g@;
                        let ghost ru_b = ru@;
                        let ghost cu_b = cu@;
                        assign_cell(n, g, ru, cu, i, jj, v);
                        proof {
                            lemma_search_inv_assign(
                                n as int,
                                g0,
                                g_before,
                                g@,
                                kw@,
                                i as int,
                                jj as int,
                                v,
                            );
                            lemma_extends_trans(old(g)@, g_before, g@);
                            assert forall|s: Vec<Vec<usize>>|
                                admits(n as int, g0, old(g)@, kw@, s) implies admits(
                                n as int,
                                g0,
                                g@,
                                kw@,
                                s,
                            ) by {
                                assert(admits(n as int, g0, g_before, kw@, s));
                                lemma_admitted_hidden_row(
                                    n as int,
                                    g0,
                                    g_before,
                                    ru_b,
                                    cu_b,
                                    kw@,
                                    s,
                                    i as int,
                                    v as int,
                                );
                                let jp = choose|jp: int|
                                    0 <= jp < n && s@[i as int]@[jp] == v as int && (
                                    #[trigger] g_before[i as int]@[jp]) == 0 && !bit_set(
                                        cu_b[jp],
                                        ((v as int) - 1) as u32,
                                    ) && !wrong_listed(kw@, i as int, jp, v as int);
                                assert(exists|t: int|
                                    0 <= t < positions@.len() && #[trigger] positions@[t] == jp);
                                let t0 = choose|t0: int|
                                    0 <= t0 < positions@.len() && #[trigger] positions@[t0] == jp;
                                assert(t0 == 0);
                                assert(s@[i as int]@[jj as int] == v);
                            }
                        }
                        progress = true;
                        made = true;
                    }
                }
                v += 1;
            }
        }
        // hidden singles in columns
        for j in 0..n
            invariant
                1 <= n <= 31,
                state_ok(n as int, g@, ru@, cu@),
                search_inv(n as int, g0, g@, kw@),
                forall|s: Vec<Vec<usize>>|
                    admits(n as int, g0, old(g)@, kw@, s) ==> admits(n as int, g0, g@, kw@, s),
                extends_grid(old(g)@, g@),
                grid_empties(g@) <= e_start,
                progress ==> grid_empties(g@) < e_start,
        {
            let mut v: usize = 1;
            while v <= n
                invariant
                    1 <= n <= 31,
                    j < n,
                    1 <= v <= n + 1,
                    state_ok(n as int, g@, ru@, cu@),
                    search_inv(n as int, g0, g@, kw@),
                forall|s: Vec<Vec<usize>>|
                    admits(n as int, g0, old(g)@, kw@, s) ==> admits(n as int, g0, g@, kw@, s),
                    extends_grid(old(g)@, g@),
                    grid_empties(g@) <= e_start,
                    progress ==> grid_empties(g@) < e_start,
                decreases n + 1 - v,
            {
                let k: u32 = (v - 1) as u32;
                let mcj = cu[j];
                if !test_bit(mcj, k) {
                    let mut positions: Vec<usize> = Vec::new();
                    for i in 0..n
                        invariant
                            1 <= n <= 31,
                            j < n,
                            1 <= v <= n,
                            k == (v - 1) as u32,
                            state_ok(n as int, g@, ru@, cu@),
                            search_inv(n as int, g0, g@, kw@),
                forall|s: Vec<Vec<usize>>|
                    admits(n as int, g0, old(g)@, kw@, s) ==> admits(n as int, g0, g@, kw@, s),
                            extends_grid(old(g)@, g@),
                            grid_empties(g@) <= e_start,
                            progress ==> grid_empties(g@) < e_start,
                            mcj == cu@[j as int],
                            !bit_set(mcj, (v - 1) as u32),
                            forall|t: int|
                                0 <= t < positions@.len() ==> #[trigger] positions@[t] < n
                                    && g@[positions@[t] as int]@[j as int] == 0 && !bit_set(
                                    ru@[positions@[t] as int],
                                    (v - 1) as u32,
                                ) && !wrong_listed(
                                    kw@,
                                    positions@[t] as int,
                                    j as int,
                                    v as int,
                                ),
                            forall|i2: int|
                                0 <= i2 < i && g@[i2]@[j as int] == 0 && !bit_set(
                                    ru@[i2],
                                    (v - 1) as u32,
                                ) && !wrong_listed(kw@, i2, j as int, v as int) ==> exists|t: int|
                                    0 <= t < positions@.len() && #[trigger] positions@[t] == i2,
                    {
                        let ghost positions_old = positions@;
                        if g[i][j] == 0 && !test_bit(ru[i], k) && !is_wrong_value(kw, i, j, v) {
                            positions.push(i);
                        }
                        proof {
                            assert forall|i2: int|
                                0 <= i2 < i + 1 && g@[i2]@[j as int] == 0 && !bit_set(
                                    ru@[i2],
                                    (v - 1) as u32,
                                ) && !wrong_listed(kw@, i2, j as int, v as int) implies exists|
                                t: int,
                            |
                                0 <= t < positions@.len() && #[trigger] positions@[t] == i2 by {
                                if i2 < i {
                                    let t0 = choose|t0: int|
                                        0 <= t0 < positions_old.len() && #[trigger] positions_old[
                                        t0] == i2;
                                    assert(positions@[t0] == i2);
                                } else {
                                    assert(positions@[positions@.len() - 1] == i2);
                                }
                            }
                        }
                    }
                    if positions.len() == 0 {
                        proof {
                            assert forall|s: Vec<Vec<usize>>| !admits(
                                n as int,
                                g0,
                                old(g)@,
                                kw@,
                                s,
                            ) by {
                                if admits(n as int, g0, old(g)@, kw@, s) {
                                    assert(admits(n as int, g0, g@, kw@, s));
                                    lemma_admitted_hidden_col(
                                        n as int,
                                        g0,
                                        g@,
                                        ru@,
                                        cu@,
                                        kw@,
                                        s,
                                        j as int,
                                        v as int,
                                    );
                                    let ip = choose|ip: int|
                                        0 <= ip < n && s@[ip]@[j as int] == v as int && (
                                        #[trigger] g@[ip]@[j as int]) == 0 && !bit_set(
                                            ru@[ip],
                                            ((v as int) - 1) as u32,
                                        ) && !wrong_listed(kw@, ip, j as int, v as int);
                                    assert(exists|t: int|
                                        0 <= t < positions@.len() && #[trigger] positions@[t]
                                            == ip);
                                }
                            }
                        }
                        return Err(());
                    }
                    if positions.len() == 1 {
                        let ii = positions[0];
                        let ghost g_before = g@;
                        let ghost ru_b = ru@;
                        let ghost cu_b = cu@;
                        assign_cell(n, g, ru, cu, ii, j, v);
                        proof {
                            lemma_search_inv_assign(
                                n as int,
                                g0,
                                g_before,
                                g@,
                                kw@,
                                ii as int,
                                j as int,
                                v,
                            );
                            lemma_extends_trans(old(g)@, g_before, g@);
                            assert forall|s: Vec<Vec<usize>>|
                                admits(n as int, g0, old(g)@, kw@, s) implies admits(
                                n as int,
                                g0,
                                g@,
                                kw@,
                                s,
                            ) by {
                                assert(admits(n as int, g0, g_before, kw@, s));
                                lemma_admitted_hidden_col(
                                    n as int,
                                    g0,
                                    g_before,
                                    ru_b,
                                    cu_b,
                                    kw@,
                                    s,
                                    j as int,
                                    v as int,
                                );
                                let ip = choose|ip: int|
                                    0 <= ip < n && s@[ip]@[j as int] == v as int && (
                                    #[trigger] g_before[ip]@[j as int]) == 0 && !bit_set(
                                        ru_b[ip],
                                        ((v as int) - 1) as u32,
                                    ) && !wrong_listed(kw@, ip, j as int, v as int);
                                assert(exists|t: int|
                                    0 <= t < positions@.len() && #[trigger] positions@[t] == ip);
                                let t0 = choose|t0: int|
                                    0 <= t0 < positions@.len() && #[trigger] positions@[t0] == ip;
                                assert(t0 == 0);
                                assert(s@[ii as int]@[j as int] == v);
                            }
                        }
                        progress = true;
                        made = true;
                    }
                }
                v += 1;
            }
        }
    }
    Ok(made)
}

// ---------------------------------------------------------------------------
// Cell selection and feasibility pruning
// ---------------------------------------------------------------------------

/// Pick an empty cell with the fewest legal candidates (ties broken by scan
/// order), together with that candidate count; `None` means the square is
/// complete. Zero or one candidates short-circuit the scan.
fn find_most_constrained(n: usize, g: &Vec<Vec<usize>>, ru: &Vec<u32>, cu: &Vec<u32>,
    kw: &Vec<((usize, usize), Vec<usize>)>) -> (r: (Option<(usize, usize)>, usize))
    requires
        1 <= n <= 31,
        state_ok(n as int, g@, ru@, cu@),
    ensures
        r.0 is None ==> forall|i: int, j: int|
            0 <= i < n && 0 <= j < n ==> #[trigger] g@[i]@[j] != 0,
        r.0 matches Some(c) ==> c.0 < n && c.1 < n && g@[c.0 as int]@[c.1 as int] == 0,
        r.1 == 0 ==> (r.0 matches Some(c) ==> forall|v: int|
            1 <= v <= n ==> bit_set(ru@[c.0 as int], (v - 1) as u32) || bit_set(
                cu@[c.1 as int],
                (v - 1) as u32,
            ) || wrong_listed(kw@, c.0 as int, c.1 as int, v)),
{
    let mut best: Option<(usize, usize)> = None;
    let mut min_choices: usize = n + 1;
    for i in 0..n
        invariant
            1 <= n <= 31,
            state_ok(n as int, g@, ru@, cu@),
            best is None ==> min_choices == n + 1,
            min_choices >= 1,
            best is None ==> forall|i2: int, j2: int|
                0 <= i2 < i && 0 <= j2 < n ==> #[trigger] g@[i2]@[j2] != 0,
            best matches Some(c) ==> c.0 < n && c.1 < n && g@[c.0 as int]@[c.1 as int] == 0,
    {
        for j in 0..n
            invariant
                1 <= n <= 31,
                i < n,
                state_ok(n as int, g@, ru@, cu@),
                best is None ==> min_choices == n + 1,
                min_choices >= 1,
                best is None ==> forall|i2: int, j2: int|
                    0 <= i2 < i && 0 <= j2 < n ==> #[trigger] g@[i2]@[j2] != 0,
                best is None ==> forall|j2: int| 0 <= j2 < j ==> #[trigger] g@[i as int]@[j2] != 0,
                best matches Some(c) ==> c.0 < n && c.1 < n && g@[c.0 as int]@[c.1 as int] == 0,
        {
            if g[i][j] == 0 {
                let cands = candidates_for_cell(n, ru[i], cu[j], kw, i, j);
                let choices = cands.len();
                if choices == 0 {
                    proof {
                        assert forall|v: int| 1 <= v <= n implies bit_set(
                            ru@[i as int],
                            (v - 1) as u32,
                        ) || bit_set(cu@[j as int], (v - 1) as u32) || wrong_listed(
                            kw@,
                            i as int,
                            j as int,
                            v,
                        ) by {
                            if !bit_set(ru@[i as int], (v - 1) as u32) && !bit_set(
                                cu@[j as int],
                                (v - 1) as u32,
                            ) && !wrong_listed(kw@, i as int, j as int, v) {
                                assert(exists|t: int| 0 <= t < cands@.len() && cands@[t] == v);
                            }
                        }
                    }
                    return (Some((i, j)), 0);
                }
                if choices < min_choices {
                    min_choices = choices;
                    best = Some((i, j));
                    if choices == 1 {
                        return (best, 1);
                    }
                }
            }
        }
    }
    (best, min_choices)
}

/// The feasibility pre-check: every empty cell must keep at least one
/// candidate, and every value still missing from a row or column must have
/// at least one reachable position there. A failed check proves that no
/// admitted completion of the current state exists.
fn has_valid_assignment(n: usize, g: &Vec<Vec<usize>>, ru: &Vec<u32>, cu: &Vec<u32>,
    kw: &Vec<((usize, usize), Vec<usize>)>, Ghost(g0): Ghost<Seq<Vec<usize>>>) -> (ok: bool)
    requires
        1 <= n <= 31,
        state_ok(n as int, g@, ru@, cu@),
        search_inv(n as int, g0, g@, kw@),
    ensures
        !ok ==> forall|s: Vec<Vec<usize>>| !admits(n as int, g0, g@, kw@, s),
{
    for i in 0..n
        invariant
            1 <= n <= 31,
            state_ok(n as int, g@, ru@, cu@),
            search_inv(n as int, g0, g@, kw@),
    {
        for j in 0..n
            invariant
                1 <= n <= 31,
                i < n,
                state_ok(n as int, g@, ru@, cu@),
                search_inv(n as int, g0, g@, kw@),
        {
            if g[i][j] == 0 {
                let ri = ru[i];
                let cj = cu[j];
                let cands = candidates_for_cell(n, ri, cj, kw, i, j);
                if cands.len() == 0 {
                    proof {
                        assert forall|s: Vec<Vec<usize>>| !admits(n as int, g0, g@, kw@, s) by {
                            if admits(n as int, g0, g@, kw@, s) {
                                lemma_admitted_value_legal(
                                    n as int,
                                    g0,
                                    g@,
                                    ru@,
                                    cu@,
                                    kw@,
                                    s,
                                    i as int,
                                    j as int,
                                );
                                let v0 = s@[i as int]@[j as int] as int;
                                assert(!bit_set(ri, (v0 - 1) as u32) && !bit_set(
                                    cj,
                                    (v0 - 1) as u32,
                                ) && !wrong_listed(kw@, i as int, j as int, v0));
                                assert(exists|t: int|
                                    0 <= t < cands@.len() && #[trigger] cands@[t] == v0);
                            }
                        }
                    }
                    return false;
                }
            }
        }
    }
    let mut v: usize = 1;
    while v <= n
        invariant
            1 <= n <= 31,
            1 <= v <= n + 1,
            state_ok(n as int, g@, ru@, cu@),
            search_inv(n as int, g0, g@, kw@),
        decreases n + 1 - v,
    {
        let k: u32 = (v - 1) as u32;
        for i in 0..n
            invariant
                1 <= n <= 31,
                1 <= v <= n,
                k == (v - 1) as u32,
                state_ok(n as int, g@, ru@, cu@),
                search_inv(n as int, g0, g@, kw@),
        {
            if !test_bit(ru[i], k) {
                let mut can_place = false;
                for j in 0..n
                    invariant
                        1 <= n <= 31,
                        i < n,
                        1 <= v <= n,
                        k == (v - 1) as u32,
                        state_ok(n as int, g@, ru@, cu@),
                        search_inv(n as int, g0, g@, kw@),
                        !can_place ==> forall|j2: int|
                            0 <= j2 < j ==> !(g@[i as int]@[j2] == 0 && !bit_set(
                                cu@[j2],
                                (v - 1) as u32,
                            ) && !wrong_listed(kw@, i as int, j2, v as int)),
                {
                    if g[i][j] == 0 && !test_bit(cu[j], k) && !is_wrong_value(kw, i, j, v) {
                        can_place = true;
                    }
                }
                if !can_place {
                    proof {
                        assert forall|s: Vec<Vec<usize>>| !admits(n as int, g0, g@, kw@, s) by {
                            if admits(n as int, g0, g@, kw@, s) {
                                lemma_admitted_hidden_row(
                                    n as int,
                                    g0,
                                    g@,
                                    ru@,
                                    cu@,
                                    kw@,
                                    s,
                                    i as int,
                                    v as int,
                                );
                                let jp = choose|jp: int|
                                    0 <= jp < n && s@[i as int]@[jp] == v as int && (
                                    #[trigger] g@[i as int]@[jp]) == 0 && !bit_set(
                                        cu@[jp],
                                        ((v as int) - 1) as u32,
                                    ) && !wrong_listed(kw@, i as int, jp, v as int);
                                assert(false);
                            }
                        }
                    }
                    return false;
                }
            }
        }
        for j in 0..n
            invariant
                1 <= n <= 31,
                1 <= v <= n,
                k == (v - 1) as u32,
                state_ok(n as int, g@, ru@, cu@),
                search_inv(n as int, g0, g@, kw@),
        {
            if !test_bit(cu[j], k) {
                let mut can_place = false;
                for i in 0..n
                    invariant
                        1 <= n <= 31,
                        j < n,
                        1 <= v <= n,
                        k == (v - 1) as u32,
                        state_ok(n as int, g@, ru@, cu@),
                        search_inv(n as int, g0, g@, kw@),
                        !can_place ==> forall|i2: int|
                            0 <= i2 < i ==> !(g@[i2]@[j as int] == 0 && !bit_set(
                                ru@[i2],
                                (v - 1) as u32,
                            ) && !wrong_listed(kw@, i2, j as int, v as int)),
                {
                    if g[i][j] == 0 && !test_bit(ru[i], k) && !is_wrong_value(kw, i, j, v) {
                        can_place = true;
                    }
                }
                if !can_place {
                    proof {
                        assert forall|s: Vec<Vec<usize>>| !admits(n as int, g0, g@, kw@, s) by {
                            if admits(n as int, g0, g@, kw@, s) {
                                lemma_admitted_hidden_col(
                                    n as int,
                                    g0,
                                    g@,
                                    ru@,
                                    cu@,
                                    kw@,
                                    s,
                                    j as int,
                                    v as int,
                                );
                                let ip = choose|ip: int|
                                    0 <= ip < n && s@[ip]@[j as int] == v as int && (
                                    #[trigger] g@[ip]@[j as int]) == 0 && !bit_set(
                                        ru@[ip],
                                        ((v as int) - 1) as u32,
                                    ) && !wrong_listed(kw@, ip, j as int, v as int);
                                assert(false);
                            }
                        }
                    }
                    return false;
                }
            }
        }
        v += 1;
    }
    true
}


// ---------------------------------------------------------------------------
// The backtracking search
// ---------------------------------------------------------------------------

/// What the search promises of every square it appends: a Latin square that
/// keeps every seeded cell and avoids every forbidden value elsewhere.
pub open spec fn sol_ok(
    n: int,
    g0: Seq<Vec<usize>>,
    kw: Seq<((usize, usize), Vec<usize>)>,
    s: Vec<Vec<usize>>,
) -> bool {
    &&& is_latin_square(n, s@)
    &&& forall|i: int, j: int|
        0 <= i < n && 0 <= j < n && g0[i]@[j] != 0 ==> #[trigger] s@[i]@[j] == g0[i]@[j]
    &&& forall|i: int, j: int|
        0 <= i < n && 0 <= j < n && g0[i]@[j] == 0 ==> !wrong_listed(
            kw,
            i,
            j,
            (#[trigger] s@[i]@[j]) as int,
        )
}

proof fn lemma_complete_state_latin(n: int, g: Seq<Vec<usize>>, ru: Seq<u32>, cu: Seq<u32>)
    requires
        state_ok(n, g, ru, cu),
        forall|i: int, j: int| 0 <= i < n && 0 <= j < n ==> #[trigger] g[i]@[j] != 0,
    ensures
        is_latin_square(n, g),
{
    assert forall|i: int, j: int|
        0 <= i < g.len() && 0 <= j < g[i]@.len() implies 1 <= #[trigger] g[i]@[j] <= n by {
        assert(g[i]@[j] != 0);
    }
    assert forall|i: int, j1: int, j2: int|
        #![trigger g[i]@[j1], g[i]@[j2]]
        0 <= i < g.len() && 0 <= j1 < j2 < g[i]@.len() implies g[i]@[j1] != g[i]@[j2] by {
        assert(g[i]@[j1] != 0);
    }
    assert forall|j: int, i1: int, i2: int|
        #![trigger g[i1]@[j], g[i2]@[j]]
        0 <= i1 < i2 < g.len() && 0 <= j < g[i1]@.len() && j < g[i2]@.len() implies g[i1]@[j]
        != g[i2]@[j] by {
        assert(g[i1]@[j] != 0);
    }
}

proof fn lemma_grid_empties_congruence(n: int, a: Seq<Vec<usize>>, b: Seq<Vec<usize>>)
    requires
        cells_eq(n, a, b),
    ensures
        grid_empties(a) == grid_empties(b),
{
    assert(extends_grid(a, b)) by {
        assert forall|i: int, j: int|
            0 <= i < a.len() && 0 <= j < a[i]@.len() && a[i]@[j] != 0 implies #[trigger] b[i]@[j]
            == a[i]@[j] by {
            assert(a[i]@[j] == b[i]@[j]);
        }
    }
    assert(extends_grid(b, a)) by {
        assert forall|i: int, j: int|
            0 <= i < b.len() && 0 <= j < b[i]@.len() && b[i]@[j] != 0 implies #[trigger] a[i]@[j]
            == b[i]@[j] by {
            assert(a[i]@[j] == b[i]@[j]);
        }
    }
    lemma_grid_empties_mono(a, b);
    lemma_grid_empties_mono(b, a);
}

/// Depth-first search from the most constrained empty cell: try each of its
/// candidate values with a snapshot of the square and both mask vectors,
/// recurse, and restore the snapshot after every trial. Each completion is
/// appended to `solutions`; the search stops once `max_solutions` are found.
#[verifier::loop_isolation(false)]
fn backtrack(
    n: usize,
    g: &mut Vec<Vec<usize>>,
    ru: &mut Vec<u32>,
    cu: &mut Vec<u32>,
    kw: &Vec<((usize, usize), Vec<usize>)>,
    Ghost(g0): Ghost<Seq<Vec<usize>>>,
    solutions: &mut Vec<Vec<Vec<usize>>>,
    max_solutions: Option<usize>,
)
    requires
        1 <= n <= 31,
        state_ok(n as int, old(g)@, old(ru)@, old(cu)@),
        search_inv(n as int, g0, old(g)@, kw@),
    ensures
        final(solutions)@.len() >= old(solutions)@.len(),
        forall|t: int|
            0 <= t < old(solutions)@.len() ==> #[trigger] final(solutions)@[t] == old(
                solutions,
            )@[t],
        forall|t: int|
            old(solutions)@.len() <= t < final(solutions)@.len() ==> sol_ok(
                n as int,
                g0,
                kw@,
                #[trigger] final(solutions)@[t],
            ),
        forall|t: int|
            old(solutions)@.len() <= t < final(solutions)@.len() ==> extends_grid(
                old(g)@,
                (#[trigger] final(solutions)@[t])@,
            ),
        forall|t1: int, t2: int|
            old(solutions)@.len() <= t1 < t2 < final(solutions)@.len() ==> !cells_eq(
                n as int,
                final(solutions)@[t1]@,
                final(solutions)@[t2]@,
            ),
        max_solutions matches Some(mx) ==> final(solutions)@.len() <= vstd::math::max(
            old(solutions)@.len() as int,
            mx as int,
        ),
        (forall|s: Vec<Vec<usize>>|
            admits(n as int, g0, old(g)@, kw@, s) ==> sol_in(n as int, final(solutions)@, s)) || (
        max_solutions matches Some(mx) && final(solutions)@.len() >= mx),
    decreases grid_empties(old(g)@),
{
    if let Some(mx) = max_solutions {
        if solutions.len() >= mx {
            return;
        }
    }
    let (cell, nchoices) = find_most_constrained(n, g, ru, cu, kw);
    match cell {
        None => {
            let sol = clone_grid(n, g);
            proof {
                lemma_state_ok_transfer(n as int, g@, sol@, ru@, cu@);
                assert forall|i: int, j: int|
                    0 <= i < n && 0 <= j < n implies #[trigger] sol@[i]@[j] != 0 by {
                    assert(sol@[i]@[j] == g@[i]@[j]);
                }
                lemma_complete_state_latin(n as int, sol@, ru@, cu@);
                lemma_search_inv_transfer(n as int, g0, g@, sol@, kw@);
                assert(extends_grid(g@, sol@)) by {
                    assert forall|i2: int, j2: int|
                        0 <= i2 < g@.len() && 0 <= j2 < g@[i2]@.len() && g@[i2]@[j2] != 0
                    implies #[trigger] sol@[i2]@[j2] == g@[i2]@[j2] by {
                        assert(sol@[i2]@[j2] == g@[i2]@[j2]);
                    }
                }
            }
            solutions.push(sol);
            proof {
                assert forall|s: Vec<Vec<usize>>|
                    admits(n as int, g0, old(g)@, kw@, s) implies sol_in(
                    n as int,
                    solutions@,
                    s,
                ) by {
                    let t = solutions@.len() - 1;
                    assert(cells_eq(n as int, solutions@[t]@, s@)) by {
                        assert forall|i2: int, j2: int|
                            0 <= i2 < n && 0 <= j2 < n implies #[trigger] solutions@[t]@[i2]@[j2]
                            == #[trigger] s@[i2]@[j2] by {
                            assert(g@[i2]@[j2] != 0);
                            assert(s@[i2]@[j2] == g@[i2]@[j2]);
                            assert(solutions@[t]@[i2]@[j2] == g@[i2]@[j2]);
                        }
                    }
                }
            }
        },
        Some(c) => {
            if nchoices == 0 {
                proof {
                    assert forall|s: Vec<Vec<usize>>| !admits(n as int, g0, old(g)@, kw@, s) by {
                        if admits(n as int, g0, old(g)@, kw@, s) {
                            lemma_admitted_value_legal(
                                n as int,
                                g0,
                                g@,
                                ru@,
                                cu@,
                                kw@,
                                s,
                                c.0 as int,
                                c.1 as int,
                            );
                            let v0 = s@[c.0 as int]@[c.1 as int] as int;
                            assert(bit_set(ru@[c.0 as int], (v0 - 1) as u32) || bit_set(
                                cu@[c.1 as int],
                                (v0 - 1) as u32,
                            ) || wrong_listed(kw@, c.0 as int, c.1 as int, v0));
                        }
                    }
                }
                return;
            }
            let i = c.0;
            let j = c.1;
            let mri = ru[i];
            let mcj = cu[j];
            let cands = candidates_for_cell(n, mri, mcj, kw, i, j);
            let saved_g = clone_grid(n, g);
            let saved_ru = clone_masks(ru);
            let saved_cu = clone_masks(cu);
            for idx in 0..cands.len()
                invariant
                    cells_eq(n as int, g@, old(g)@),
                    ru@ == old(ru)@,
                    cu@ == old(cu)@,
                    solutions@.len() >= old(solutions)@.len(),
                    forall|t: int|
                        0 <= t < old(solutions)@.len() ==> #[trigger] solutions@[t] == old(
                            solutions,
                        )@[t],
                    forall|t: int|
                        old(solutions)@.len() <= t < solutions@.len() ==> sol_ok(
                            n as int,
                            g0,
                            kw@,
                            #[trigger] solutions@[t],
                        ),
                    forall|t: int|
                        old(solutions)@.len() <= t < solutions@.len() ==> extends_grid(
                            old(g)@,
                            (#[trigger] solutions@[t])@,
                        ),
                    forall|t: int|
                        old(solutions)@.len() <= t < solutions@.len() ==> exists|x: int|
                            0 <= x < idx && (#[trigger] solutions@[t])@[i as int]@[j as int]
                                == cands@[x],
                    forall|t1: int, t2: int|
                        old(solutions)@.len() <= t1 < t2 < solutions@.len() ==> !cells_eq(
                            n as int,
                            solutions@[t1]@,
                            solutions@[t2]@,
                        ),
                    max_solutions matches Some(mx2) ==> solutions@.len() <= vstd::math::max(
                        old(solutions)@.len() as int,
                        mx2 as int,
                    ),
                    (forall|s: Vec<Vec<usize>>|
                        admits(n as int, g0, old(g)@, kw@, s) && (exists|x: int|
                            0 <= x < idx && s@[i as int]@[j as int] == cands@[x]) ==> sol_in(
                            n as int,
                            solutions@,
                            s,
                        )) || (max_solutions matches Some(mx3) && solutions@.len() >= mx3),
            {
                let ghost sols_head = solutions@;
                let v = cands[idx];
                if let Some(mx) = max_solutions {
                    if solutions.len() >= mx {
                        return;
                    }
                }
                proof {
                    assert(cells_eq(n as int, old(g)@, g@));
                    lemma_state_ok_transfer(n as int, old(g)@, g@, ru@, cu@);
                    lemma_search_inv_transfer(n as int, g0, old(g)@, g@, kw@);
                }
                let ghost g_before = g@;
                assign_cell(n, g, ru, cu, i, j, v);
                proof {
                    lemma_search_inv_assign(n as int, g0, g_before, g@, kw@, i as int, j as int, v);
                }
                let ghost g_assigned = g@;
                let mut dead = false;
                let empt = count_empty_cells(n, g);
                proof {
                    assert(n * n <= 961) by (nonlinear_arith)
                        requires
                            n <= 31,
                    ;
                }
                if empt < n * n / 2 {
                    match propagate(n, g, ru, cu, kw, Ghost(g0)) {
                        Err(_) => {
                            dead = true;
                        },
                        Ok(_) => {},
                    }
                }
                if !dead {
                    let feasible = has_valid_assignment(n, g, ru, cu, kw, Ghost(g0));
                    if feasible {
                        proof {
                            lemma_grid_empties_congruence(n as int, g_before, old(g)@);
                            if g@ != g_assigned {
                                lemma_grid_empties_mono(g_assigned, g@);
                            }
                            assert(grid_empties(g@) < grid_empties(old(g)@));
                        }
                        let ghost g_call = g@;
                        let ghost sols_before = solutions@;
                        backtrack(n, g, ru, cu, kw, Ghost(g0), solutions, max_solutions);
                        proof {
                            if !(max_solutions matches Some(mx4) && solutions@.len() >= mx4) {
                                assert forall|s: Vec<Vec<usize>>|
                                    admits(n as int, g0, old(g)@, kw@, s) && (exists|x: int|
                                        0 <= x < idx + 1 && s@[i as int]@[j as int]
                                            == cands@[x]) implies sol_in(
                                    n as int,
                                    solutions@,
                                    s,
                                ) by {
                                    let x = choose|x: int|
                                        0 <= x < idx + 1 && s@[i as int]@[j as int] == cands@[x];
                                    if x < idx {
                                        assert(sol_in(n as int, sols_head, s));
                                        let t = choose|t: int|
                                            0 <= t < sols_head.len() && cells_eq(
                                                n as int,
                                                (#[trigger] sols_head[t])@,
                                                s@,
                                            );
                                        assert(solutions@[t] == sols_head[t]);
                                    } else {
                                        assert(s@[i as int]@[j as int] == v);
                                        assert(admits(n as int, g0, g_assigned, kw@, s)) by {
                                            assert forall|i2: int, j2: int|
                                                0 <= i2 < n && 0 <= j2 < n && g_assigned[i2]@[j2]
                                                    != 0 implies #[trigger] s@[i2]@[j2]
                                                == g_assigned[i2]@[j2] by {
                                                if !(i2 == i && j2 == j) {
                                                    assert(g_assigned[i2]@[j2] == g_before[i2]@[
                                                        j2]);
                                                    assert(g_before[i2]@[j2] == old(g)@[i2]@[j2]);
                                                }
                                            }
                                        }
                                        assert(admits(n as int, g0, g_call, kw@, s));
                                        assert(sol_in(n as int, solutions@, s));
                                    }
                                }
                            }
                        }
                        proof {
                            let base = old(solutions)@.len() as int;
                            assert(extends_grid(old(g)@, g_before)) by {
                                assert forall|i2: int, j2: int|
                                    0 <= i2 < old(g)@.len() && 0 <= j2 < old(g)@[i2]@.len() && old(
                                    g,
                                )@[i2]@[j2] != 0 implies #[trigger] g_before[i2]@[j2] == old(
                                    g,
                                )@[i2]@[j2] by {
                                    assert(g_before[i2]@[j2] == old(g)@[i2]@[j2]);
                                }
                            }
                            lemma_extends_trans(old(g)@, g_before, g_assigned);
                            lemma_extends_trans(old(g)@, g_assigned, g_call);
                            assert(g_call[i as int]@[j as int] == v);
                            assert(grid_empties(g_call) < grid_empties(old(g)@));
                            assert forall|t: int|
                                base <= t < solutions@.len() implies extends_grid(
                                old(g)@,
                                (#[trigger] solutions@[t])@,
                            ) by {
                                if t < sols_before.len() {
                                    assert(solutions@[t] == sols_before[t]);
                                } else {
                                    lemma_extends_trans(old(g)@, g_call, solutions@[t]@);
                                }
                            }
                            assert forall|t: int|
                                base <= t < solutions@.len() implies exists|x: int|
                                0 <= x < idx + 1 && (#[trigger] solutions@[t])@[i as int]@[
                                j as int] == cands@[x] by {
                                if t < sols_before.len() {
                                    assert(solutions@[t] == sols_before[t]);
                                    let x0 = choose|x0: int|
                                        0 <= x0 < idx && (sols_before[t])@[i as int]@[j as int]
                                            == cands@[x0];
                                    assert((solutions@[t])@[i as int]@[j as int] == cands@[x0]);
                                } else {
                                    assert(extends_grid(g_call, solutions@[t]@));
                                    assert((solutions@[t])@[i as int]@[j as int] == v);
                                    assert((solutions@[t])@[i as int]@[j as int] == cands@[
                                        idx as int]);
                                }
                            }
                            assert forall|t1: int, t2: int|
                                base <= t1 < t2 < solutions@.len() implies !cells_eq(
                                n as int,
                                solutions@[t1]@,
                                solutions@[t2]@,
                            ) by {
                                if t2 < sols_before.len() {
                                    assert(solutions@[t1] == sols_before[t1]);
                                    assert(solutions@[t2] == sols_before[t2]);
                                } else if t1 < sols_before.len() {
                                    assert(solutions@[t1] == sols_before[t1]);
                                    let x0 = choose|x0: int|
                                        0 <= x0 < idx && (sols_before[t1])@[i as int]@[j as int]
                                            == cands@[x0];
                                    assert(cands@[x0] < cands@[idx as int]);
                                    assert(extends_grid(g_call, solutions@[t2]@));
                                    assert((solutions@[t2])@[i as int]@[j as int] == v);
                                    if cells_eq(n as int, solutions@[t1]@, solutions@[t2]@) {
                                        assert((solutions@[t1])@[i as int]@[j as int]
                                            == (solutions@[t2])@[i as int]@[j as int]);
                                    }
                                }
                            }
                        }
                    } else {
                        proof {
                            if !(max_solutions matches Some(mx4) && solutions@.len() >= mx4) {
                                assert forall|s: Vec<Vec<usize>>|
                                    admits(n as int, g0, old(g)@, kw@, s) && (exists|x: int|
                                        0 <= x < idx + 1 && s@[i as int]@[j as int]
                                            == cands@[x]) implies sol_in(
                                    n as int,
                                    solutions@,
                                    s,
                                ) by {
                                    let x = choose|x: int|
                                        0 <= x < idx + 1 && s@[i as int]@[j as int] == cands@[x];
                                    if x < idx {
                                        assert(sol_in(n as int, sols_head, s));
                                    } else {
                                        assert(s@[i as int]@[j as int] == v);
                                        assert(admits(n as int, g0, g_assigned, kw@, s)) by {
                                            assert forall|i2: int, j2: int|
                                                0 <= i2 < n && 0 <= j2 < n && g_assigned[i2]@[j2]
                                                    != 0 implies #[trigger] s@[i2]@[j2]
                                                == g_assigned[i2]@[j2] by {
                                                if !(i2 == i && j2 == j) {
                                                    assert(g_assigned[i2]@[j2] == g_before[i2]@[
                                                        j2]);
                                                    assert(g_before[i2]@[j2] == old(g)@[i2]@[j2]);
                                                }
                                            }
                                        }
                                        assert(admits(n as int, g0, g@, kw@, s));
                                        assert(false);
                                    }
                                }
                            }
                        }
                    }
                } else {
                    proof {
                        if !(max_solutions matches Some(mx4) && solutions@.len() >= mx4) {
                            assert forall|s: Vec<Vec<usize>>|
                                admits(n as int, g0, old(g)@, kw@, s) && (exists|x: int|
                                    0 <= x < idx + 1 && s@[i as int]@[j as int]
                                        == cands@[x]) implies sol_in(n as int, solutions@, s) by {
                                let x = choose|x: int|
                                    0 <= x < idx + 1 && s@[i as int]@[j as int] == cands@[x];
                                if x < idx {
                                    assert(sol_in(n as int, sols_head, s));
                                } else {
                                    assert(s@[i as int]@[j as int] == v);
                                    assert(admits(n as int, g0, g_assigned, kw@, s)) by {
                                        assert forall|i2: int, j2: int|
                                            0 <= i2 < n && 0 <= j2 < n && g_assigned[i2]@[j2] != 0
                                        implies #[trigger] s@[i2]@[j2] == g_assigned[i2]@[
                                        j2] by {
                                            if !(i2 == i && j2 == j) {
                                                assert(g_assigned[i2]@[j2] == g_before[i2]@[j2]);
                                                assert(g_before[i2]@[j2] == old(g)@[i2]@[j2]);
                                            }
                                        }
                                    }
                                    assert(false);
                                }
                            }
                        }
                    }
                }
                let rg = clone_grid(n, &saved_g);
                *g = rg;
                let rr = clone_masks(&saved_ru);
                *ru = rr;
                let rc = clone_masks(&saved_cu);
                *cu = rc;
                proof {
                    assert forall|i2: int, j2: int|
                        0 <= i2 < n && 0 <= j2 < n implies #[trigger] g@[i2]@[j2] == old(g)@[i2]@[
                        j2] by {
                        assert(g@[i2]@[j2] == saved_g@[i2]@[j2]);
                        assert(saved_g@[i2]@[j2] == old(g)@[i2]@[j2]);
                    }
                    assert(ru@ =~= old(ru)@);
                    assert(cu@ =~= old(cu)@);
                }
            }
            proof {
                if !(max_solutions matches Some(mx5) && solutions@.len() >= mx5) {
                    assert forall|s: Vec<Vec<usize>>|
                        admits(n as int, g0, old(g)@, kw@, s) implies sol_in(
                        n as int,
                        solutions@,
                        s,
                    ) by {
                        lemma_admitted_value_legal(
                            n as int,
                            g0,
                            old(g)@,
                            old(ru)@,
                            old(cu)@,
                            kw@,
                            s,
                            i as int,
                            j as int,
                        );
                        let v0 = s@[i as int]@[j as int] as int;
                        assert(!bit_set(mri, (v0 - 1) as u32) && !bit_set(mcj, (v0 - 1) as u32)
                            && !wrong_listed(kw@, i as int, j as int, v0));
                        assert(exists|t: int| 0 <= t < cands@.len() && #[trigger] cands@[t] == v0);
                        let x = choose|t: int|
                            0 <= t < cands@.len() && #[trigger] cands@[t] == v0;
                        assert(0 <= x < cands@.len() && s@[i as int]@[j as int] == cands@[x]);
                    }
                }
            }
        },
    }
}


/// A square acceptable for the raw inputs is admitted by the seeded state:
/// the two views of validity coincide once the knowns are written down.
proof fn lemma_respects_is_admitted(
    n: int,
    kv: Seq<((usize, usize), usize)>,
    kw: Seq<((usize, usize), Vec<usize>)>,
    g0: Seq<Vec<usize>>,
    s: Vec<Vec<usize>>,
)
    requires
        kv_ok(n, kv),
        square_dims(n, g0),
        forall|e: int|
            0 <= e < kv.len() ==> g0[(#[trigger] kv[e]).0.0 as int]@[kv[e].0.1 as int] == kv[e].1,
        forall|i: int, j: int|
            0 <= i < n && 0 <= j < n && !kv_has_cell(kv, i, j) ==> #[trigger] g0[i]@[j] == 0,
        solution_respects(n, kv, kw, s),
    ensures
        admits(n, g0, g0, kw, s),
{
    assert forall|i: int, j: int|
        0 <= i < n && 0 <= j < n && g0[i]@[j] != 0 implies #[trigger] s@[i]@[j] == g0[i]@[j] by {
        assert(kv_has_cell(kv, i, j));
        let e = choose|e: int| 0 <= e < kv.len() && (#[trigger] kv[e]).0.0 == i && kv[e].0.1 == j;
        assert(g0[i]@[j] == kv[e].1);
        assert(s@[i]@[j] == kv[e].1);
    }
    assert forall|i: int, j: int|
        0 <= i < n && 0 <= j < n && g0[i]@[j] == 0 implies !wrong_listed(
        kw,
        i,
        j,
        (#[trigger] s@[i]@[j]) as int,
    ) by {
        assert(!kv_has_cell(kv, i, j)) by {
            if kv_has_cell(kv, i, j) {
                let e = choose|e: int|
                    0 <= e < kv.len() && (#[trigger] kv[e]).0.0 == i && kv[e].0.1 == j;
                assert(g0[i]@[j] == kv[e].1);
            }
        }
    }
}

/// Find completions of a partial Latin square of order `size`.
///
/// `known_values` pins cells to required values; `known_wrong_values` lists
/// values each cell must avoid; the search stops after `max_solutions`
/// completions when a bound is given, and otherwise enumerates all of them.
///
/// Every returned square is a Latin square that satisfies all known values
/// and, at every cell no known value pins, avoids all forbidden values; no
/// square is returned twice. Conversely, every acceptable square is found:
/// with no bound the result holds them all, and with a bound `m` it either
/// holds `m` squares or, when fewer exist, all of them. If the known values
/// collide within a row or column the result is empty.
pub fn complete_latin_square_backtrack_all_solutions(
    size: usize,
    known_values: &Vec<((usize, usize), usize)>,
    known_wrong_values: &Vec<((usize, usize), Vec<usize>)>,
    max_solutions: Option<usize>,
) -> (solutions: Vec<Vec<Vec<usize>>>)
    requires
        1 <= size <= 31,
        kv_ok(size as int, known_values@),
        kw_ok(size as int, known_wrong_values@),
    ensures
        forall|t: int|
            0 <= t < solutions@.len() ==> solution_respects(
                size as int,
                known_values@,
                known_wrong_values@,
                #[trigger] solutions@[t],
            ),
        forall|t1: int, t2: int|
            0 <= t1 < t2 < solutions@.len() ==> !cells_eq(
                size as int,
                solutions@[t1]@,
                solutions@[t2]@,
            ) && solutions@[t1] != solutions@[t2],
        max_solutions matches Some(mx) ==> solutions@.len() <= mx,
        max_solutions is None ==> forall|s: Vec<Vec<usize>>|
            solution_respects(size as int, known_values@, known_wrong_values@, s) ==> sol_in(
                size as int,
                solutions@,
                s,
            ),
        max_solutions matches Some(mx) ==> solutions@.len() == mx || (forall|s: Vec<Vec<usize>>|
            solution_respects(size as int, known_values@, known_wrong_values@, s) ==> sol_in(
                size as int,
                solutions@,
                s,
            )),
        kv_has_conflict(known_values@) ==> solutions@.len() == 0,
{
    let mut g = seed_grid(size, known_values);
    if grid_has_duplicate(size, &g) {
        proof {
            assert forall|s: Vec<Vec<usize>>| !solution_respects(
                size as int,
                known_values@,
                known_wrong_values@,
                s,
            ) by {
                if solution_respects(size as int, known_values@, known_wrong_values@, s) {
                    lemma_respects_is_admitted(
                        size as int,
                        known_values@,
                        known_wrong_values@,
                        g@,
                        s,
                    );
                    if !partial_rows_distinct(g@) {
                        let (di, dj1, dj2) = choose|di: int, dj1: int, dj2: int|
                            0 <= di < g@.len() && 0 <= dj1 < dj2 < g@[di]@.len() && g@[di]@[dj1]
                                != 0 && g@[di]@[dj1] == g@[di]@[dj2];
                        assert(g@[di]@[dj2] != 0);
                        assert(s@[di]@[dj1] == g@[di]@[dj1]);
                        assert(s@[di]@[dj2] == g@[di]@[dj2]);
                        assert(s@[di]@[dj1] != s@[di]@[dj2]);
                        assert(false);
                    } else {
                        let (dj, di1, di2) = choose|dj: int, di1: int, di2: int|
                            0 <= di1 < di2 < g@.len() && 0 <= dj < g@[di1]@.len()
                                && dj < g@[di2]@.len() && g@[di1]@[dj] != 0 && g@[di1]@[dj] == g@[
                                di2]@[dj];
                        assert(g@[di2]@[dj] != 0);
                        assert(s@[di1]@[dj] == g@[di1]@[dj]);
                        assert(s@[di2]@[dj] == g@[di2]@[dj]);
                        assert(s@[di1]@[dj] != s@[di2]@[dj]);
                        assert(false);
                    }
                }
            }
        }
        return Vec::new();
    }
    proof {
        if kv_has_conflict(known_values@) {
            let kv = known_values@;
            let (e1, e2) = choose|e1: int, e2: int|
                #![trigger kv[e1], kv[e2]]
                0 <= e1 < kv.len() && 0 <= e2 < kv.len() && kv[e1].0 != kv[e2].0 && (kv[e1].0.0
                    == kv[e2].0.0 || kv[e1].0.1 == kv[e2].0.1) && kv[e1].1 == kv[e2].1;
            let r1 = kv[e1].0.0 as int;
            let c1 = kv[e1].0.1 as int;
            let r2 = kv[e2].0.0 as int;
            let c2 = kv[e2].0.1 as int;
            assert(g@[r1]@[c1] == kv[e1].1);
            assert(g@[r2]@[c2] == kv[e2].1);
            assert(kv[e1].1 >= 1);
            if r1 == r2 {
                assert(c1 != c2);
                if c1 < c2 {
                    assert(g@[r1]@[c1] != g@[r1]@[c2]);
                } else {
                    assert(g@[r1]@[c2] != g@[r1]@[c1]);
                }
            } else {
                assert(c1 == c2);
                if r1 < r2 {
                    assert(g@[r1]@[c1] != g@[r2]@[c1]);
                } else {
                    assert(g@[r2]@[c1] != g@[r1]@[c1]);
                }
            }
            assert(false);
        }
    }
    let mut ru = compute_masks(size, &g, false);
    let mut cu = compute_masks(size, &g, true);
    let ghost g0 = g@;
    let empt = count_empty_cells(size, &g);
    proof {
        lemma_grid_empties_bound(size as int, g@);
        assert(size * size <= 961) by (nonlinear_arith)
            requires
                size <= 31,
        ;
    }
    let initial_filled = size * size - empt;
    if initial_filled > size {
        match propagate(size, &mut g, &mut ru, &mut cu, known_wrong_values, Ghost(g0)) {
            Err(_) => {
                proof {
                    assert forall|s: Vec<Vec<usize>>| !solution_respects(
                        size as int,
                        known_values@,
                        known_wrong_values@,
                        s,
                    ) by {
                        if solution_respects(size as int, known_values@, known_wrong_values@, s) {
                            lemma_respects_is_admitted(
                                size as int,
                                known_values@,
                                known_wrong_values@,
                                g0,
                                s,
                            );
                        }
                    }
                }
                return Vec::new();
            },
            Ok(_) => {},
        }
    }
    proof {
        assert forall|s: Vec<Vec<usize>>|
            solution_respects(size as int, known_values@, known_wrong_values@, s) implies admits(
            size as int,
            g0,
            g@,
            known_wrong_values@,
            s,
        ) by {
            lemma_respects_is_admitted(size as int, known_values@, known_wrong_values@, g0, s);
        }
    }
    if !has_valid_assignment(size, &g, &ru, &cu, known_wrong_values, Ghost(g0)) {
        return Vec::new();
    }
    let mut solutions: Vec<Vec<Vec<usize>>> = Vec::new();
    backtrack(
        size,
        &mut g,
        &mut ru,
        &mut cu,
        known_wrong_values,
        Ghost(g0),
        &mut solutions,
        max_solutions,
    );
    proof {
        if !(max_solutions matches Some(cap) && solutions@.len() >= cap) {
            assert forall|s: Vec<Vec<usize>>|
                solution_respects(size as int, known_values@, known_wrong_values@, s)
                implies sol_in(size as int, solutions@, s) by {}
        }
    }
    proof {
        assert forall|t1: int, t2: int|
            0 <= t1 < t2 < solutions@.len() implies solutions@[t1] != solutions@[t2] by {
            if solutions@[t1] == solutions@[t2] {
                assert(cells_eq(size as int, solutions@[t1]@, solutions@[t2]@));
            }
        }
    }
    proof {
        let kv = known_values@;
        let kw = known_wrong_values@;
        assert forall|t: int|
            0 <= t < solutions@.len() implies solution_respects(
            size as int,
            kv,
            kw,
            #[trigger] solutions@[t],
        ) by {
            let s = solutions@[t];
            assert(sol_ok(size as int, g0, kw, s));
            assert forall|e: int|
                0 <= e < kv.len() implies s@[(#[trigger] kv[e]).0.0 as int]@[kv[e].0.1 as int]
                == kv[e].1 by {
                let ri = kv[e].0.0 as int;
                let ci = kv[e].0.1 as int;
                assert(g0[ri]@[ci] == kv[e].1);
                assert(g0[ri]@[ci] != 0);
            }
            assert forall|i: int, j: int|
                0 <= i < size && 0 <= j < size && !kv_has_cell(kv, i, j) implies !wrong_listed(
                kw,
                i,
                j,
                (#[trigger] s@[i]@[j]) as int,
            ) by {
                assert(g0[i]@[j] == 0);
            }
        }
    }
    solutions
}



// ---------------------------------------------------------------------------
// Completeness: what the search can never lose
// ---------------------------------------------------------------------------

/// A completion the state `g` still admits: acceptable for the seeded
/// square `g0` and the forbidden values, and keeping every cell `g` has
/// already assigned.
pub open spec fn admits(
    n: int,
    g0: Seq<Vec<usize>>,
    g: Seq<Vec<usize>>,
    kw: Seq<((usize, usize), Vec<usize>)>,
    s: Vec<Vec<usize>>,
) -> bool {
    &&& sol_ok(n, g0, kw, s)
    &&& forall|i: int, j: int|
        0 <= i < n && 0 <= j < n && g[i]@[j] != 0 ==> #[trigger] s@[i]@[j] == g[i]@[j]
}

/// Some recorded square has exactly the cells of `s`.
pub open spec fn sol_in(n: int, sols: Seq<Vec<Vec<usize>>>, s: Vec<Vec<usize>>) -> bool {
    exists|t: int| 0 <= t < sols.len() && cells_eq(n, (#[trigger] sols[t])@, s@)
}

/// The set of values a line holds.
spec fn vals_set(vals: Seq<usize>) -> Set<int>
    decreases vals.len(),
{
    if vals.len() == 0 {
        Set::empty()
    } else {
        vals_set(vals.drop_last()).insert(vals.last() as int)
    }
}

proof fn lemma_vals_set_props(vals: Seq<usize>)
    ensures
        vals_set(vals).finite(),
        forall|x: int|
            vals_set(vals).contains(x) <==> exists|k: int|
                0 <= k < vals.len() && #[trigger] vals[k] == x,
    decreases vals.len(),
{
    if vals.len() > 0 {
        lemma_vals_set_props(vals.drop_last());
        assert forall|x: int| vals_set(vals).contains(x) implies exists|k: int|
            0 <= k < vals.len() && #[trigger] vals[k] == x by {
            if vals_set(vals.drop_last()).contains(x) {
                let k = choose|k: int| 0 <= k < vals.drop_last().len() && vals.drop_last()[k] == x;
                assert(vals[k] == x);
            } else {
                assert(vals[vals.len() - 1] == x);
            }
        }
        assert forall|x: int|
            (exists|k: int| 0 <= k < vals.len() && #[trigger] vals[k] == x) implies vals_set(
            vals,
        ).contains(x) by {
            let k = choose|k: int| 0 <= k < vals.len() && vals[k] == x;
            if k < vals.len() - 1 {
                assert(vals.drop_last()[k] == x);
            }
        }
    }
}

proof fn lemma_vals_set_card(vals: Seq<usize>)
    requires
        forall|k1: int, k2: int| 0 <= k1 < k2 < vals.len() ==> vals[k1] != vals[k2],
    ensures
        vals_set(vals).len() == vals.len(),
    decreases vals.len(),
{
    if vals.len() > 0 {
        lemma_vals_set_card(vals.drop_last());
        lemma_vals_set_props(vals.drop_last());
        assert(!vals_set(vals.drop_last()).contains(vals.last() as int)) by {
            if vals_set(vals.drop_last()).contains(vals.last() as int) {
                let k = choose|k: int|
                    0 <= k < vals.drop_last().len() && #[trigger] vals.drop_last()[k] == vals.last()
                         as int;
                assert(vals[k] == vals[vals.len() - 1]);
            }
        }
    }
}

/// Pigeonhole: a line of `n` distinct values drawn from `1..=n` holds every
/// one of them.
proof fn lemma_distinct_bounded_covers(vals: Seq<usize>, n: int, v: int)
    requires
        vals.len() == n,
        forall|k: int| 0 <= k < n ==> 1 <= #[trigger] vals[k] <= n,
        forall|k1: int, k2: int| 0 <= k1 < k2 < n ==> vals[k1] != vals[k2],
        1 <= v <= n,
    ensures
        exists|k: int| 0 <= k < n && #[trigger] vals[k] == v,
{
    lemma_vals_set_props(vals);
    lemma_vals_set_card(vals);
    let s = vals_set(vals);
    let whole = vstd::set_lib::set_int_range(1, n + 1);
    vstd::set_lib::lemma_int_range(1, n + 1);
    if !s.contains(v) {
        let smaller = whole.remove(v);
        assert(s.subset_of(smaller)) by {
            assert forall|x: int| s.contains(x) implies smaller.contains(x) by {
                let k = choose|k: int| 0 <= k < vals.len() && #[trigger] vals[k] == x;
            }
        }
        assert(whole.contains(v));
        vstd::set_lib::lemma_len_subset(s, smaller);
        assert(false);
    }
}

/// A Latin square holds every value in every row.
proof fn lemma_latin_row_covers(n: int, s: Seq<Vec<usize>>, i: int, v: int)
    requires
        is_latin_square(n, s),
        0 <= i < n,
        1 <= v <= n,
    ensures
        exists|j: int| 0 <= j < n && #[trigger] s[i]@[j] == v,
{
    let vals = Seq::new(n as nat, |j: int| s[i]@[j]);
    lemma_distinct_bounded_covers(vals, n, v);
    let k = choose|k: int| 0 <= k < n && #[trigger] vals[k] == v;
    assert(s[i]@[k] == v);
}

/// A Latin square holds every value in every column.
proof fn lemma_latin_col_covers(n: int, s: Seq<Vec<usize>>, j: int, v: int)
    requires
        is_latin_square(n, s),
        0 <= j < n,
        1 <= v <= n,
    ensures
        exists|i: int| 0 <= i < n && #[trigger] s[i]@[j] == v,
{
    let vals = Seq::new(n as nat, |i: int| s[i]@[j]);
    lemma_distinct_bounded_covers(vals, n, v);
    let k = choose|k: int| 0 <= k < n && #[trigger] vals[k] == v;
    assert(s[k]@[j] == v);
}

/// The value an admitted completion puts in an empty cell is legal there:
/// absent from both occupancy masks and not forbidden.
proof fn lemma_admitted_value_legal(
    n: int,
    g0: Seq<Vec<usize>>,
    g: Seq<Vec<usize>>,
    ru: Seq<u32>,
    cu: Seq<u32>,
    kw: Seq<((usize, usize), Vec<usize>)>,
    s: Vec<Vec<usize>>,
    i: int,
    j: int,
)
    requires
        1 <= n <= 31,
        state_ok(n, g, ru, cu),
        search_inv(n, g0, g, kw),
        admits(n, g0, g, kw, s),
        0 <= i < n,
        0 <= j < n,
        g[i]@[j] == 0,
    ensures
        1 <= s@[i]@[j] <= n,
        !bit_set(ru[i], (s@[i]@[j] - 1) as u32),
        !bit_set(cu[j], (s@[i]@[j] - 1) as u32),
        !wrong_listed(kw, i, j, s@[i]@[j] as int),
{
    let v = s@[i]@[j];
    assert(1 <= v <= n);
    let k = (v - 1) as u32;
    if bit_set(ru[i], k) {
        assert(row_has(n, g, i, k + 1));
        let j2 = choose|j2: int| 0 <= j2 < n && g[i]@[j2] == k + 1;
        assert(g[i]@[j2] == v);
        assert(s@[i]@[j2] == v);
        assert(j2 != j);
        if j2 < j {
            assert(s@[i]@[j2] != s@[i]@[j]);
        } else {
            assert(s@[i]@[j] != s@[i]@[j2]);
        }
        assert(false);
    }
    if bit_set(cu[j], k) {
        assert(col_has(n, g, j, k + 1));
        let i2 = choose|i2: int| 0 <= i2 < n && g[i2]@[j] == k + 1;
        assert(g[i2]@[j] == v);
        assert(s@[i2]@[j] == v);
        assert(i2 != i);
        if i2 < i {
            assert(s@[i2]@[j] != s@[i]@[j]);
        } else {
            assert(s@[i]@[j] != s@[i2]@[j]);
        }
        assert(false);
    }
    assert(g0[i]@[j] == 0) by {
        if g0[i]@[j] != 0 {
            assert(g[i]@[j] == g0[i]@[j]);
        }
    }
}

/// An admitted completion must place a value missing from a row at some
/// still-open position of that row: empty, column-free and not forbidden.
proof fn lemma_admitted_hidden_row(
    n: int,
    g0: Seq<Vec<usize>>,
    g: Seq<Vec<usize>>,
    ru: Seq<u32>,
    cu: Seq<u32>,
    kw: Seq<((usize, usize), Vec<usize>)>,
    s: Vec<Vec<usize>>,
    i: int,
    v: int,
)
    requires
        1 <= n <= 31,
        state_ok(n, g, ru, cu),
        search_inv(n, g0, g, kw),
        admits(n, g0, g, kw, s),
        0 <= i < n,
        1 <= v <= n,
        !bit_set(ru[i], (v - 1) as u32),
    ensures
        exists|jp: int|
            0 <= jp < n && s@[i]@[jp] == v && (#[trigger] g[i]@[jp]) == 0 && !bit_set(
                cu[jp],
                (v - 1) as u32,
            ) && !wrong_listed(kw, i, jp, v),
{
    lemma_latin_row_covers(n, s@, i, v);
    let jp = choose|jp: int| 0 <= jp < n && #[trigger] s@[i]@[jp] == v;
    assert(g[i]@[jp] == 0) by {
        if g[i]@[jp] != 0 {
            assert(s@[i]@[jp] == g[i]@[jp]);
            assert(row_has(n, g, i, ((v - 1) as u32) + 1)) by {
                assert(g[i]@[jp] == v);
            }
        }
    }
    lemma_admitted_value_legal(n, g0, g, ru, cu, kw, s, i, jp);
}

/// An admitted completion must place a value missing from a column at some
/// still-open position of that column.
proof fn lemma_admitted_hidden_col(
    n: int,
    g0: Seq<Vec<usize>>,
    g: Seq<Vec<usize>>,
    ru: Seq<u32>,
    cu: Seq<u32>,
    kw: Seq<((usize, usize), Vec<usize>)>,
    s: Vec<Vec<usize>>,
    j: int,
    v: int,
)
    requires
        1 <= n <= 31,
        state_ok(n, g, ru, cu),
        search_inv(n, g0, g, kw),
        admits(n, g0, g, kw, s),
        0 <= j < n,
        1 <= v <= n,
        !bit_set(cu[j], (v - 1) as u32),
    ensures
        exists|ip: int|
            0 <= ip < n && s@[ip]@[j] == v && (#[trigger] g[ip]@[j]) == 0 && !bit_set(
                ru[ip],
                (v - 1) as u32,
            ) && !wrong_listed(kw, ip, j, v),
{
    lemma_latin_col_covers(n, s@, j, v);
    let ip = choose|ip: int| 0 <= ip < n && #[trigger] s@[ip]@[j] == v;
    assert(g[ip]@[j] == 0) by {
        if g[ip]@[j] != 0 {
            assert(s@[ip]@[j] == g[ip]@[j]);
            assert(col_has(n, g, j, ((v - 1) as u32) + 1)) by {
                assert(g[ip]@[j] == v);
            }
        }
    }
    lemma_admitted_value_legal(n, g0, g, ru, cu, kw, s, ip, j);
}

/// Law: every returned square satisfies all known values and excludes all
/// forbidden values — at every cell, the known cells included — provided no
/// known value is itself forbidden at its own cell (on such an input the
/// known value stands and the forbidden list there is overridden).
pub proof fn lemma_solution_avoids_all_wrongs(
    n: int,
    kv: Seq<((usize, usize), usize)>,
    kw: Seq<((usize, usize), Vec<usize>)>,
    s: Vec<Vec<usize>>,
)
    requires
        kv_ok(n, kv),
        solution_respects(n, kv, kw, s),
        forall|e: int|
            0 <= e < kv.len() ==> !wrong_listed(
                kw,
                (#[trigger] kv[e]).0.0 as int,
                kv[e].0.1 as int,
                kv[e].1 as int,
            ),
    ensures
        forall|i: int, j: int|
            0 <= i < n && 0 <= j < n ==> !wrong_listed(kw, i, j, (#[trigger] s@[i]@[j]) as int),
{
    assert forall|i: int, j: int|
        0 <= i < n && 0 <= j < n implies !wrong_listed(kw, i, j, (#[trigger] s@[i]@[j]) as int) by {
        if kv_has_cell(kv, i, j) {
            let e = choose|e: int|
                0 <= e < kv.len() && (#[trigger] kv[e]).0.0 == i && kv[e].0.1 == j;
            assert(s@[i]@[j] == kv[e].1);
        }
    }
}

} // verus!
