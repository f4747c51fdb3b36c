//! Search orchestrator: enumerate candidate given-sets, evaluate each
//! against the constraint solver in parallel batches, keep the candidates
//! whose completion is unique, and deduplicate puzzles by their canonical
//! given-set.

use vstd::prelude::*;

use rand::seq::IndexedRandom;
use rayon::iter::{IntoParallelRefIterator, ParallelIterator};

use crate::canon::{canon_sorted, cell_lt, cell_order, lemma_canonical_form_unique,
    standardize_tile_tuple};
use crate::combos::{is_max_positions, is_position_successor, is_selection, is_selection_by,
    lemma_lex_asym, lemma_lex_total, lemma_no_positions_above_max,
    lemma_no_positions_below_identity, lemma_successor_immediate, pos_lex_lt, successor_at,
    wf_positions, CombinationIterator};
use crate::grid::{cyclic_formula, cyclic_latin_square, is_latin_square, lemma_latin_cells_transfer,
    square_dims, vals_in_range};
use crate::solver::{cells_eq, clone_grid, complete_latin_square_backtrack_all_solutions,
    kv_has_cell, kv_ok, kw_ok, sol_in, solution_respects, wrong_listed};

verus! {

// ---------------------------------------------------------------------------
// Specification of candidates and results
// ---------------------------------------------------------------------------

/// A well-formed candidate given-set: `k` cells of the `n`-by-`n` square in
/// strictly increasing row-major order (hence distinct).
pub open spec fn tiles_ok(n: int, tiles: Seq<(usize, usize)>, k: int) -> bool {
    &&& tiles.len() == k
    &&& forall|t: int| 0 <= t < tiles.len() ==> (#[trigger] tiles[t]).0 < n && tiles[t].1 < n
    &&& forall|t1: int, t2: int| 0 <= t1 < t2 < tiles.len() ==> cell_lt(tiles[t1], tiles[t2])
}

/// Cell `(i, j)` belongs to the given-set.
pub open spec fn tiles_contain(tiles: Seq<(usize, usize)>, i: int, j: int) -> bool {
    exists|t: int| 0 <= t < tiles.len() && (#[trigger] tiles[t]).0 == i && tiles[t].1 == j
}

/// The ground-truth value at cell `(i, j)`: the cyclic square's entry.
pub open spec fn truth_cell(n: int, i: int, j: int) -> int {
    ((i + j) % n) + 1
}

/// A completion forced by the given-set `tiles`: a Latin square that
/// reproduces the ground truth exactly on the given cells and differs from
/// it on every other cell.
pub open spec fn forced_solution_ok(n: int, tiles: Seq<(usize, usize)>, s: Seq<Vec<usize>>) -> bool {
    &&& is_latin_square(n, s)
    &&& forall|i: int, j: int|
        0 <= i < n && 0 <= j < n && tiles_contain(tiles, i, j) ==> #[trigger] s[i]@[j]
            == truth_cell(n, i, j)
    &&& forall|i: int, j: int|
        0 <= i < n && 0 <= j < n && !tiles_contain(tiles, i, j) ==> #[trigger] s[i]@[j]
            != truth_cell(n, i, j)
}

/// The given-set forces exactly one completion: one exists, and any two
/// coincide cell for cell.
pub open spec fn uniquely_solvable(n: int, tiles: Seq<(usize, usize)>) -> bool {
    &&& exists|s: Vec<Vec<usize>>| #[trigger] forced_solution_ok(n, tiles, s@)
    &&& forall|s1: Vec<Vec<usize>>, s2: Vec<Vec<usize>>|
        #![trigger forced_solution_ok(n, tiles, s1@), forced_solution_ok(n, tiles, s2@)]
        forced_solution_ok(n, tiles, s1@) && forced_solution_ok(n, tiles, s2@) ==> cells_eq(
            n,
            s1@,
            s2@,
        )
}

/// What evaluating one candidate reports: the candidate's tiles together
/// with the completion they force, exactly when that completion is unique;
/// nothing otherwise.
pub open spec fn candidate_outcome_ok(
    n: int,
    tiles: Seq<(usize, usize)>,
    out: Option<(Vec<(usize, usize)>, Vec<Vec<usize>>)>,
) -> bool {
    &&& (out matches Some(p) ==> p.0@ == tiles && forced_solution_ok(n, tiles, p.1@) && (forall|
        s: Vec<Vec<usize>>,
    |
        #[trigger] forced_solution_ok(n, tiles, s@) ==> cells_eq(n, p.1@, s@)))
    &&& (out is Some <==> uniquely_solvable(n, tiles))
}

/// What the search promises of every reported puzzle: a well-formed
/// given-set together with its forced completion, which is the only one.
pub open spec fn puzzle_ok(n: int, k: int, p: (Vec<(usize, usize)>, Vec<Vec<usize>>)) -> bool {
    &&& tiles_ok(n, p.0@, k)
    &&& forced_solution_ok(n, p.0@, p.1@)
    &&& forall|s: Vec<Vec<usize>>|
        #[trigger] forced_solution_ok(n, p.0@, s@) ==> cells_eq(n, p.1@, s@)
}


/// The newly recorded puzzles (everything past `results_old`) come from
/// batch candidates at strictly increasing batch positions `src`: they
/// keep the batch's relative order.
pub open spec fn appended_in_order(
    batch: Seq<Vec<(usize, usize)>>,
    results_old: Seq<(Vec<(usize, usize)>, Vec<Vec<usize>>)>,
    results_new: Seq<(Vec<(usize, usize)>, Vec<Vec<usize>>)>,
    src: Seq<int>,
) -> bool {
    &&& src.len() == results_new.len() - results_old.len()
    &&& forall|q: int| 0 <= q < src.len() ==> 0 <= #[trigger] src[q] < batch.len()
    &&& forall|q1: int, q2: int| 0 <= q1 < q2 < src.len() ==> src[q1] < src[q2]
    &&& forall|q: int|
        0 <= q < src.len() ==> (#[trigger] results_new[results_old.len() + q]).0@ == batch[
            src[q]]@
}

/// The given-set `t` is one of the batch's candidates.
pub open spec fn from_batch(batch: Seq<Vec<(usize, usize)>>, t: Seq<(usize, usize)>) -> bool {
    exists|b: int| 0 <= b < batch.len() && (#[trigger] batch[b])@ == t
}

/// The given-set `t` is registered in the seen list.
pub open spec fn seen_has(seen: Seq<Vec<(usize, usize)>>, t: Seq<(usize, usize)>) -> bool {
    exists|e: int| 0 <= e < seen.len() && (#[trigger] seen[e])@ == t
}

/// The orchestrator's running state: every recorded puzzle is well formed,
/// the seen list is exactly the list of recorded given-sets (their own
/// canonical forms), and no two recorded puzzles share a given-set.
pub open spec fn results_ok(
    n: int,
    k: int,
    seen: Seq<Vec<(usize, usize)>>,
    results: Seq<(Vec<(usize, usize)>, Vec<Vec<usize>>)>,
) -> bool {
    &&& forall|r: int| 0 <= r < results.len() ==> puzzle_ok(n, k, #[trigger] results[r])
    &&& seen.len() == results.len()
    &&& forall|r: int| 0 <= r < results.len() ==> (#[trigger] seen[r])@ == results[r].0@
    &&& forall|r1: int, r2: int|
        0 <= r1 < r2 < results.len() ==> (#[trigger] results[r1]).0@ != (#[trigger] results[r2]).0@
}


/// After a yield, a candidate counted as enumerated either was already
/// enumerated before the step or is the combination just yielded.
proof fn lemma_enumerated_step(
    it_before: CombinationIterator,
    it_now: CombinationIterator,
    u: Seq<(usize, usize)>,
    n: int,
    k: int,
    c: Seq<(usize, usize)>,
    t: Seq<(usize, usize)>,
)
    requires
        1 <= n,
        k >= 1,
        universe_ok(n, u),
        it_before.spec_items() == u,
        it_now.spec_items() == u,
        it_before.spec_k() == k,
        it_now.spec_k() == k,
        !it_before.spec_exhausted(),
        !it_now.spec_exhausted(),
        !it_now.spec_fresh(),
        it_before.spec_fresh() ==> it_now.spec_positions() == it_before.spec_positions()
            && it_before.spec_positions() == Seq::new(k as nat, |q: int| q),
        !it_before.spec_fresh() ==> is_position_successor(
            it_before.spec_positions(),
            it_now.spec_positions(),
            n * n,
            k,
        ),
        is_selection_by(c, u, it_now.spec_positions()),
        tiles_ok(n, t, k),
        enumerated(it_now, n, t),
    ensures
        enumerated(it_before, n, t) || c == t,
{
    let pt = tile_positions(n, t);
    lemma_tile_positions_wf(n, k, t);
    let bpos = it_now.spec_positions();
    if pt == bpos {
        lemma_selection_equals_tiles(n, k, u, c, t);
    } else if it_before.spec_fresh() {
        assert(pos_lex_lt(pt, bpos));
        lemma_no_positions_below_identity(pt, n * n, k);
        assert(false);
    } else {
        let a = it_before.spec_positions();
        let piv = choose|p: int| #[trigger] successor_at(a, bpos, n * n, k, p);
        assert(pos_lex_lt(pt, bpos));
        assert(!pos_lex_lt(a, pt)) by {
            if pos_lex_lt(a, pt) {
                lemma_successor_immediate(a, bpos, pt, n * n, k, piv);
                if pt == bpos {
                } else {
                    assert(pos_lex_lt(bpos, pt));
                    lemma_lex_asym(pt, bpos);
                }
            }
        }
        if pt =~= a {
            assert(pt == a);
        } else {
            assert(pt.len() == a.len());
            assert(exists|q: int| 0 <= q < pt.len() && #[trigger] pt[q] != a[q]) by {
                if forall|q: int| 0 <= q < pt.len() ==> #[trigger] pt[q] == a[q] {
                    assert(pt =~= a);
                }
            }
            lemma_lex_total(pt, a, 0);
            assert(pos_lex_lt(pt, a));
        }
        assert(enumerated(it_before, n, t));
    }
}

/// When the enumeration stands at its last combination, every candidate
/// already counts as enumerated.
proof fn lemma_enumerated_at_max(it: CombinationIterator, n: int, k: int, t: Seq<(usize, usize)>)
    requires
        1 <= n,
        k >= 1,
        !it.spec_exhausted(),
        !it.spec_fresh(),
        is_max_positions(it.spec_positions(), n * n, k),
        tiles_ok(n, t, k),
    ensures
        enumerated(it, n, t),
{
    let pt = tile_positions(n, t);
    lemma_tile_positions_wf(n, k, t);
    let a = it.spec_positions();
    lemma_no_positions_above_max(pt, a, n * n, k);
    if pt =~= a {
        assert(pt == a);
    } else {
        assert(pt.len() == a.len());
        assert(exists|q: int| 0 <= q < pt.len() && #[trigger] pt[q] != a[q]) by {
            if forall|q: int| 0 <= q < pt.len() ==> #[trigger] pt[q] == a[q] {
                assert(pt =~= a);
            }
        }
        lemma_lex_total(pt, a, 0);
        assert(pos_lex_lt(pt, a));
    }
}

// ---------------------------------------------------------------------------
// Small helpers
// ---------------------------------------------------------------------------

/// Do two tile vectors list the same cells in the same order?
fn tiles_eq(a: &Vec<(usize, usize)>, b: &Vec<(usize, usize)>) -> (r: bool)
    ensures
        r == (a@ == b@),
{
    if a.len() != b.len() {
        return false;
    }
    let mut x: usize = 0;
    while x < a.len()
        invariant
            x <= a@.len(),
            a@.len() == b@.len(),
            forall|q: int| 0 <= q < x ==> a@[q] == b@[q],
        decreases a@.len() - x,
    {
        let pa = a[x];
        let pb = b[x];
        if pa.0 != pb.0 || pa.1 != pb.1 {
            return false;
        }
        x += 1;
    }
    proof {
        assert(a@ =~= b@);
    }
    true
}

/// Is the given-set already registered?
fn seen_contains(seen: &Vec<Vec<(usize, usize)>>, t: &Vec<(usize, usize)>) -> (r: bool)
    ensures
        r == seen_has(seen@, t@),
{
    let mut e: usize = 0;
    while e < seen.len()
        invariant
            e <= seen@.len(),
            forall|q: int| 0 <= q < e ==> (#[trigger] seen@[q])@ != t@,
        decreases seen@.len() - e,
    {
        if tiles_eq(&seen[e], t) {
            return true;
        }
        e += 1;
    }
    false
}

/// A fresh copy of a tile vector.
fn clone_tiles(t: &Vec<(usize, usize)>) -> (r: Vec<(usize, usize)>)
    ensures
        r@ == t@,
{
    let mut r: Vec<(usize, usize)> = Vec::new();
    for x in 0..t.len()
        invariant
            r@.len() == x,
            forall|q: int| 0 <= q < x ==> #[trigger] r@[q] == t@[q],
    {
        r.push(t[x]);
    }
    proof {
        assert(r@ =~= t@);
    }
    r
}

/// Does the given-set hold cell `(i, j)`?
fn tiles_has_cell(tiles: &Vec<(usize, usize)>, i: usize, j: usize) -> (r: bool)
    ensures
        r == tiles_contain(tiles@, i as int, j as int),
{
    let mut t: usize = 0;
    while t < tiles.len()
        invariant
            t <= tiles@.len(),
            forall|q: int|
                0 <= q < t ==> !((#[trigger] tiles@[q]).0 == i && tiles@[q].1 == j),
        decreases tiles@.len() - t,
    {
        let c = tiles[t];
        if c.0 == i && c.1 == j {
            return true;
        }
        t += 1;
    }
    false
}

// ---------------------------------------------------------------------------
// Evaluating one candidate
// ---------------------------------------------------------------------------

/// Cell `(i, j)` appears among the known-wrong entries.
spec fn kw_covers(kw: Seq<((usize, usize), Vec<usize>)>, i: int, j: int) -> bool {
    exists|e: int| 0 <= e < kw.len() && (#[trigger] kw[e]).0.0 == i && kw[e].0.1 == j
}

/// Evaluate one candidate given-set against the solver: seed the given
/// cells with their ground-truth values, forbid the ground-truth value
/// everywhere else, and report the candidate only when exactly one
/// completion exists (detected with a bound of two).
fn evaluate_candidate(tiles: &Vec<(usize, usize)>, grid: &Vec<Vec<usize>>, n: usize, k: usize) -> (r:
    Option<(Vec<(usize, usize)>, Vec<Vec<usize>>)>)
    requires
        1 <= n <= 31,
        square_dims(n as int, grid@),
        vals_in_range(n as int, grid@),
        cyclic_formula(n as int, grid@),
        tiles_ok(n as int, tiles@, k as int),
    ensures
        candidate_outcome_ok(n as int, tiles@, r),
{
    let mut kv: Vec<((usize, usize), usize)> = Vec::new();
    for t in 0..tiles.len()
        invariant
            1 <= n <= 31,
            square_dims(n as int, grid@),
            vals_in_range(n as int, grid@),
            tiles_ok(n as int, tiles@, k as int),
            kv@.len() == t,
            forall|q: int|
                0 <= q < t ==> (#[trigger] kv@[q]).0 == tiles@[q] && kv@[q].1 == grid@[
                    tiles@[q].0 as int]@[tiles@[q].1 as int],
    {
        let cell = tiles[t];
        let val = grid[cell.0][cell.1];
        kv.push((cell, val));
    }
    let mut kw: Vec<((usize, usize), Vec<usize>)> = Vec::new();
    for i in 0..n
        invariant
            1 <= n <= 31,
            square_dims(n as int, grid@),
            vals_in_range(n as int, grid@),
            tiles_ok(n as int, tiles@, k as int),
            forall|e: int|
                0 <= e < kw@.len() ==> (#[trigger] kw@[e]).0.0 < n && kw@[e].0.1 < n
                    && kw@[e].1@.len() == 1 && kw@[e].1@[0] == grid@[kw@[e].0.0 as int]@[kw@[e].0.1 as int]
                    && !tiles_contain(tiles@, kw@[e].0.0 as int, kw@[e].0.1 as int),
            forall|i2: int, j2: int|
                0 <= i2 < i && 0 <= j2 < n && !tiles_contain(tiles@, i2, j2) ==> kw_covers(
                    kw@,
                    i2,
                    j2,
                ),
    {
        for j in 0..n
            invariant
                1 <= n <= 31,
                i < n,
                square_dims(n as int, grid@),
                vals_in_range(n as int, grid@),
                tiles_ok(n as int, tiles@, k as int),
                forall|e: int|
                    0 <= e < kw@.len() ==> (#[trigger] kw@[e]).0.0 < n && kw@[e].0.1 < n
                        && kw@[e].1@.len() == 1 && kw@[e].1@[0] == grid@[kw@[e].0.0 as int]@[kw@[e].0.1 as int]
                        && !tiles_contain(tiles@, kw@[e].0.0 as int, kw@[e].0.1 as int),
                forall|i2: int, j2: int|
                    0 <= i2 < i && 0 <= j2 < n && !tiles_contain(tiles@, i2, j2) ==> kw_covers(
                        kw@,
                        i2,
                        j2,
                    ),
                forall|j2: int|
                    0 <= j2 < j && !tiles_contain(tiles@, i as int, j2) ==> kw_covers(
                        kw@,
                        i as int,
                        j2,
                    ),
        {
            let ghost kw_old = kw@;
            if !tiles_has_cell(tiles, i, j) {
                let mut l: Vec<usize> = Vec::new();
                l.push(grid[i][j]);
                kw.push(((i, j), l));
            }
            proof {
                assert forall|i2: int, j2: int|
                    0 <= i2 < i && 0 <= j2 < n && !tiles_contain(tiles@, i2, j2) implies kw_covers(
                    kw@,
                    i2,
                    j2,
                ) by {
                    let e = choose|e: int|
                        0 <= e < kw_old.len() && (#[trigger] kw_old[e]).0.0 == i2 && kw_old[e].0.1
                            == j2;
                    assert(kw@[e].0.0 == i2 && kw@[e].0.1 == j2);
                }
                assert forall|j2: int|
                    0 <= j2 < j + 1 && !tiles_contain(tiles@, i as int, j2) implies kw_covers(
                    kw@,
                    i as int,
                    j2,
                ) by {
                    if j2 < j {
                        let e = choose|e: int|
                            0 <= e < kw_old.len() && (#[trigger] kw_old[e]).0.0 == i as int
                                && kw_old[e].0.1 == j2;
                        assert(kw@[e].0.0 == i as int && kw@[e].0.1 == j2);
                    } else {
                        assert(kw@[kw@.len() - 1].0.0 == i as int && kw@[kw@.len() - 1].0.1 == j2);
                    }
                }
            }
        }
    }
    proof {
        assert(kv_ok(n as int, kv@)) by {
            assert forall|e1: int, e2: int|
                0 <= e1 < e2 < kv@.len() implies (#[trigger] kv@[e1]).0 != (#[trigger] kv@[e2]).0 by {
                assert(cell_lt(tiles@[e1], tiles@[e2]));
            }
            assert forall|e: int|
                0 <= e < kv@.len() implies (#[trigger] kv@[e]).0.0 < n && kv@[e].0.1 < n
                && 1 <= kv@[e].1 <= n by {
                assert(kv@[e].0 == tiles@[e]);
            }
        }
        assert(kw_ok(n as int, kw@)) by {
            assert forall|e: int, t: int|
                #![trigger kw@[e].1@[t]]
                0 <= e < kw@.len() && 0 <= t < kw@[e].1@.len() implies 1 <= kw@[e].1@[t] <= n by {
                assert(t == 0);
            }
        }
    }
    proof {
        let kvv = kv@;
        let kww = kw@;
        assert forall|s: Vec<Vec<usize>>|
            solution_respects(n as int, kvv, kww, s) implies forced_solution_ok(
            n as int,
            tiles@,
            s@,
        ) by {
            assert forall|i: int, j: int|
                0 <= i < n && 0 <= j < n && tiles_contain(tiles@, i, j) implies #[trigger] s@[i]@[
            j] == truth_cell(n as int, i, j) by {
                let t = choose|t: int|
                    0 <= t < tiles@.len() && (#[trigger] tiles@[t]).0 == i && tiles@[t].1 == j;
                assert(kvv[t].0 == tiles@[t]);
                assert(s@[i]@[j] == kvv[t].1);
                assert(kvv[t].1 == grid@[i]@[j]);
                assert(grid@[i]@[j] == truth_cell(n as int, i, j));
            }
            assert forall|i: int, j: int|
                0 <= i < n && 0 <= j < n && !tiles_contain(tiles@, i, j) implies #[trigger] s@[i]@[
            j] != truth_cell(n as int, i, j) by {
                assert(!kv_has_cell(kvv, i, j)) by {
                    if kv_has_cell(kvv, i, j) {
                        let e = choose|e: int|
                            0 <= e < kvv.len() && (#[trigger] kvv[e]).0.0 == i && kvv[e].0.1 == j;
                        assert(kvv[e].0 == tiles@[e]);
                        assert(tiles@[e].0 == i && tiles@[e].1 == j);
                    }
                }
                assert(!wrong_listed(kww, i, j, s@[i]@[j] as int));
                assert(kw_covers(kww, i, j));
                let e = choose|e: int|
                    0 <= e < kww.len() && (#[trigger] kww[e]).0.0 == i && kww[e].0.1 == j;
                if s@[i]@[j] == grid@[i]@[j] {
                    assert(kww[e].1@[0] == s@[i]@[j]);
                    assert(wrong_listed(kww, i, j, s@[i]@[j] as int));
                }
                assert(grid@[i]@[j] == truth_cell(n as int, i, j));
            }
        }
        assert forall|s: Vec<Vec<usize>>|
            forced_solution_ok(n as int, tiles@, s@) implies solution_respects(
            n as int,
            kvv,
            kww,
            s,
        ) by {
            assert forall|e: int|
                0 <= e < kvv.len() implies s@[(#[trigger] kvv[e]).0.0 as int]@[kvv[e].0.1 as int]
                == kvv[e].1 by {
                assert(kvv[e].0 == tiles@[e]);
                let ti = tiles@[e].0 as int;
                let tj = tiles@[e].1 as int;
                assert(tiles_contain(tiles@, ti, tj)) by {
                    assert((tiles@[e]).0 == ti && tiles@[e].1 == tj);
                }
                assert(s@[ti]@[tj] == truth_cell(n as int, ti, tj));
                assert(kvv[e].1 == grid@[ti]@[tj]);
                assert(grid@[ti]@[tj] == truth_cell(n as int, ti, tj));
            }
            assert forall|i: int, j: int|
                0 <= i < n && 0 <= j < n && !kv_has_cell(kvv, i, j) implies !wrong_listed(
                kww,
                i,
                j,
                (#[trigger] s@[i]@[j]) as int,
            ) by {
                assert(!tiles_contain(tiles@, i, j)) by {
                    if tiles_contain(tiles@, i, j) {
                        let t = choose|t: int|
                            0 <= t < tiles@.len() && (#[trigger] tiles@[t]).0 == i && tiles@[t].1
                                == j;
                        assert(kvv[t].0 == tiles@[t]);
                        assert(kv_has_cell(kvv, i, j)) by {
                            assert((kvv[t]).0.0 == i && kvv[t].0.1 == j);
                        }
                    }
                }
                assert(s@[i]@[j] != truth_cell(n as int, i, j));
                if wrong_listed(kww, i, j, s@[i]@[j] as int) {
                    let (e, t0) = choose|e: int, t0: int|
                        #![trigger kww[e].1@[t0]]
                        0 <= e < kww.len() && kww[e].0.0 == i && kww[e].0.1 == j && 0 <= t0 < kww[
                            e].1@.len() && kww[e].1@[t0] == s@[i]@[j];
                    assert(t0 == 0);
                    assert(kww[e].1@[0] == grid@[i]@[j]);
                    assert(grid@[i]@[j] == truth_cell(n as int, i, j));
                    assert(false);
                }
            }
        }
    }
    let sols = complete_latin_square_backtrack_all_solutions(n, &kv, &kw, Some(2));
    if sols.len() == 1 {
        let tiles_copy = clone_tiles(tiles);
        let sol_copy = clone_grid(n, &sols[0]);
        proof {
            let s = sols@[0];
            assert(solution_respects(n as int, kv@, kw@, s));
            lemma_latin_cells_transfer(n as int, s@, sol_copy@);
            assert forall|i: int, j: int|
                0 <= i < n && 0 <= j < n && tiles_contain(tiles@, i, j) implies #[trigger] sol_copy@[
                i]@[j] == truth_cell(n as int, i, j) by {
                let t = choose|t: int|
                    0 <= t < tiles@.len() && (#[trigger] tiles@[t]).0 == i && tiles@[t].1 == j;
                assert(kv@[t].0 == tiles@[t]);
                assert(s@[i]@[j] == kv@[t].1);
                assert(kv@[t].1 == grid@[i]@[j]);
                assert(grid@[i]@[j] == truth_cell(n as int, i, j));
            }
            assert forall|i: int, j: int|
                0 <= i < n && 0 <= j < n && !tiles_contain(tiles@, i, j) implies #[trigger] sol_copy@[
                i]@[j] != truth_cell(n as int, i, j) by {
                assert(!kv_has_cell(kv@, i, j)) by {
                    if kv_has_cell(kv@, i, j) {
                        let e = choose|e: int|
                            0 <= e < kv@.len() && (#[trigger] kv@[e]).0.0 == i && kv@[e].0.1 == j;
                        assert(kv@[e].0 == tiles@[e]);
                        assert(tiles@[e].0 == i && tiles@[e].1 == j);
                    }
                }
                assert(!wrong_listed(kw@, i, j, s@[i]@[j] as int));
                assert(kw_covers(kw@, i, j));
                let e = choose|e: int|
                    0 <= e < kw@.len() && (#[trigger] kw@[e]).0.0 == i && kw@[e].0.1 == j;
                if s@[i]@[j] == grid@[i]@[j] {
                    assert(kw@[e].1@[0] == s@[i]@[j]);
                    assert(wrong_listed(kw@, i, j, s@[i]@[j] as int));
                }
                assert(grid@[i]@[j] == truth_cell(n as int, i, j));
            }
            assert(forced_solution_ok(n as int, tiles@, sol_copy@));
            assert forall|s2: Vec<Vec<usize>>|
                #[trigger] forced_solution_ok(n as int, tiles@, s2@) implies cells_eq(
                n as int,
                sol_copy@,
                s2@,
            ) by {
                assert(solution_respects(n as int, kv@, kw@, s2));
                assert(sol_in(n as int, sols@, s2));
                let t = choose|t: int|
                    0 <= t < sols@.len() && cells_eq(n as int, (#[trigger] sols@[t])@, s2@);
                assert(t == 0);
                assert forall|i2: int, j2: int|
                    0 <= i2 < n && 0 <= j2 < n implies #[trigger] sol_copy@[i2]@[j2] == #[trigger] s2@[
                i2]@[j2] by {
                    assert(sol_copy@[i2]@[j2] == s@[i2]@[j2]);
                    assert(s@[i2]@[j2] == s2@[i2]@[j2]);
                }
            }
            assert(uniquely_solvable(n as int, tiles@)) by {
                assert(forced_solution_ok(n as int, tiles@, sol_copy@));
                assert forall|s1: Vec<Vec<usize>>, s2: Vec<Vec<usize>>|
                    #![trigger forced_solution_ok(n as int, tiles@, s1@), forced_solution_ok(n as int, tiles@, s2@)]
                    forced_solution_ok(n as int, tiles@, s1@) && forced_solution_ok(
                        n as int,
                        tiles@,
                        s2@,
                    ) implies cells_eq(n as int, s1@, s2@) by {
                    assert(cells_eq(n as int, sol_copy@, s1@));
                    assert(cells_eq(n as int, sol_copy@, s2@));
                    assert forall|i2: int, j2: int|
                        0 <= i2 < n && 0 <= j2 < n implies #[trigger] s1@[i2]@[j2] == #[trigger] s2@[
                    i2]@[j2] by {
                        assert(sol_copy@[i2]@[j2] == s1@[i2]@[j2]);
                        assert(sol_copy@[i2]@[j2] == s2@[i2]@[j2]);
                    }
                }
            }
        }
        Some((tiles_copy, sol_copy))
    } else {
        proof {
            if sols@.len() == 0 {
                if uniquely_solvable(n as int, tiles@) {
                    let sw = choose|sw: Vec<Vec<usize>>|
                        #[trigger] forced_solution_ok(n as int, tiles@, sw@);
                    assert(solution_respects(n as int, kv@, kw@, sw));
                    assert(sol_in(n as int, sols@, sw));
                    assert(false);
                }
            } else {
                assert(sols@.len() == 2);
                let s0 = sols@[0];
                let s1 = sols@[1];
                assert(solution_respects(n as int, kv@, kw@, s0));
                assert(solution_respects(n as int, kv@, kw@, s1));
                assert(forced_solution_ok(n as int, tiles@, s0@));
                assert(forced_solution_ok(n as int, tiles@, s1@));
                assert(!cells_eq(n as int, s0@, s1@));
                if uniquely_solvable(n as int, tiles@) {
                    assert(cells_eq(n as int, s0@, s1@));
                }
            }
        }
        None
    }
}


// ---------------------------------------------------------------------------
// The two outside calls: a parallel map and a random draw
// ---------------------------------------------------------------------------

/// Relies on rayon's `par_iter().map(..).collect::<Vec<_>>()`: the closure
/// runs once per element of the batch and the collected vector preserves
/// the batch's order, so slot `b` holds exactly what `evaluate_candidate`
/// (a verified function, whose contract gives the clause below) returned
/// for candidate `b`.
#[verifier::external_body]
fn par_evaluate_batch(batch: &Vec<Vec<(usize, usize)>>, grid: &Vec<Vec<usize>>, n: usize, k: usize)
    -> (out: Vec<Option<(Vec<(usize, usize)>, Vec<Vec<usize>>)>>)
    requires
        1 <= n <= 31,
        square_dims(n as int, grid@),
        vals_in_range(n as int, grid@),
        cyclic_formula(n as int, grid@),
        forall|b: int| 0 <= b < batch@.len() ==> tiles_ok(n as int, (#[trigger] batch@[b])@, k as int),
    ensures
        out@.len() == batch@.len(),
        forall|b: int|
            0 <= b < out@.len() ==> candidate_outcome_ok(n as int, batch@[b]@, #[trigger] out@[b]),
{
    batch.par_iter().map(|tiles| evaluate_candidate(tiles, grid, n, k)).collect()
}

/// Relies on rand's `IndexedRandom::sample` on a slice: it draws `k`
/// elements uniformly without repetition of positions (its documentation:
/// "Chooses amount elements from the slice at random, without repetition"),
/// so over a list of distinct cells the draw has length `k`, repeats no
/// cell, and takes every cell from the list. Nothing about which cells come
/// back is assumed.
#[verifier::external_body]
fn draw_random_tiles(universe: &Vec<(usize, usize)>, k: usize) -> (r: Vec<(usize, usize)>)
    requires
        k <= universe@.len(),
        universe@.no_duplicates(),
    ensures
        r@.len() == k,
        r@.no_duplicates(),
        forall|t: int| 0 <= t < r@.len() ==> universe@.contains(#[trigger] r@[t]),
{
    let mut rng = rand::rng();
    universe.as_slice().sample(&mut rng, k).cloned().collect()
}

// ---------------------------------------------------------------------------
// Batch processing and the search itself
// ---------------------------------------------------------------------------


// ---------------------------------------------------------------------------
// Candidate given-sets as positions into the row-major cell universe
// ---------------------------------------------------------------------------

/// The row-major position of a cell in the universe of all cells.
pub open spec fn cell_pos(n: int, c: (usize, usize)) -> int {
    c.0 * n + c.1
}

/// The position vector of a given-set.
pub open spec fn tile_positions(n: int, tiles: Seq<(usize, usize)>) -> Seq<int> {
    Seq::new(tiles.len(), |q: int| cell_pos(n, tiles[q]))
}

/// The universe of all cells in row-major order: each slot holds the cell
/// whose row-major code is its own index.
pub open spec fn universe_ok(n: int, u: Seq<(usize, usize)>) -> bool {
    &&& u.len() == n * n
    &&& forall|x: int| 0 <= x < u.len() ==> (#[trigger] u[x]).0 < n && u[x].1 < n
    &&& forall|x: int| 0 <= x < u.len() ==> cell_pos(n, #[trigger] u[x]) == x
}

proof fn lemma_cell_pos_inj(n: int, c1: (usize, usize), c2: (usize, usize))
    requires
        1 <= n,
        c1.0 < n,
        c1.1 < n,
        c2.0 < n,
        c2.1 < n,
        cell_pos(n, c1) == cell_pos(n, c2),
    ensures
        c1 == c2,
{
    assert(c1.0 == c2.0) by (nonlinear_arith)
        requires
            1 <= n,
            c1.0 < n,
            c1.1 < n,
            c2.0 < n,
            c2.1 < n,
            c1.0 * n + c1.1 == c2.0 * n + c2.1,
    ;
}

/// A well-formed given-set has a well-formed position vector.
proof fn lemma_tile_positions_wf(n: int, k: int, t: Seq<(usize, usize)>)
    requires
        1 <= n,
        tiles_ok(n, t, k),
    ensures
        wf_positions(tile_positions(n, t), n * n, k),
{
    let p = tile_positions(n, t);
    assert forall|q: int| 0 <= q < k implies 0 <= #[trigger] p[q] < n * n by {
        assert(p[q] == cell_pos(n, t[q]));
        assert(0 <= t[q].0 * n + t[q].1 < n * n) by (nonlinear_arith)
            requires
                1 <= n,
                t[q].0 < n,
                t[q].1 < n,
        ;
    }
    assert forall|q1: int, q2: int| 0 <= q1 < q2 < k implies p[q1] < p[q2] by {
        assert(cell_lt(t[q1], t[q2]));
        assert(p[q1] == cell_pos(n, t[q1]));
        assert(p[q2] == cell_pos(n, t[q2]));
        if t[q1].0 < t[q2].0 {
            assert(t[q1].0 * n + t[q1].1 < t[q2].0 * n + t[q2].1) by (nonlinear_arith)
                requires
                    1 <= n,
                    t[q1].0 < t[q2].0,
                    t[q1].1 < n,
            ;
        }
    }
}

/// The universe holds each in-range cell at its own row-major position.
proof fn lemma_universe_at_cell(n: int, u: Seq<(usize, usize)>, c: (usize, usize))
    requires
        1 <= n,
        universe_ok(n, u),
        c.0 < n,
        c.1 < n,
    ensures
        0 <= cell_pos(n, c) < n * n,
        u[cell_pos(n, c)] == c,
{
    assert(0 <= c.0 * n + c.1 < n * n) by (nonlinear_arith)
        requires
            1 <= n,
            c.0 < n,
            c.1 < n,
    ;
    let x = cell_pos(n, c);
    assert(cell_pos(n, u[x]) == x);
    lemma_cell_pos_inj(n, u[x], c);
}

/// The combination drawn at a given-set's position vector is that
/// given-set itself.
proof fn lemma_selection_equals_tiles(
    n: int,
    k: int,
    u: Seq<(usize, usize)>,
    c: Seq<(usize, usize)>,
    t: Seq<(usize, usize)>,
)
    requires
        1 <= n,
        universe_ok(n, u),
        tiles_ok(n, t, k),
        is_selection_by(c, u, tile_positions(n, t)),
    ensures
        c == t,
{
    let p = tile_positions(n, t);
    assert forall|q: int| 0 <= q < k implies #[trigger] c[q] == t[q] by {
        assert(c[q] == u[p[q]]);
        assert(p[q] == cell_pos(n, t[q]));
        lemma_universe_at_cell(n, u, t[q]);
    }
    assert(c =~= t);
}

/// The given-sets the enumerator has already produced: all of them once it
/// is exhausted, none while it is fresh, and otherwise exactly those whose
/// position vector has not passed the current one.
pub open spec fn enumerated(it: CombinationIterator, n: int, t: Seq<(usize, usize)>) -> bool {
    if it.spec_exhausted() {
        true
    } else if it.spec_fresh() {
        false
    } else {
        tile_positions(n, t) == it.spec_positions() || pos_lex_lt(
            tile_positions(n, t),
            it.spec_positions(),
        )
    }
}

/// Evaluate one batch of candidates in parallel, then sequentially record
/// each single-solution candidate whose canonical given-set has not been
/// seen before.
#[verifier::loop_isolation(false)]
fn process_batch(
    batch: &Vec<Vec<(usize, usize)>>,
    grid: &Vec<Vec<usize>>,
    n: usize,
    k: usize,
    seen: &mut Vec<Vec<(usize, usize)>>,
    results: &mut Vec<(Vec<(usize, usize)>, Vec<Vec<usize>>)>,
) -> (order_src: Ghost<Seq<int>>)
    requires
        1 <= n <= 31,
        square_dims(n as int, grid@),
        vals_in_range(n as int, grid@),
        cyclic_formula(n as int, grid@),
        forall|b: int| 0 <= b < batch@.len() ==> tiles_ok(n as int, (#[trigger] batch@[b])@, k as int),
        results_ok(n as int, k as int, old(seen)@, old(results)@),
    ensures
        results_ok(n as int, k as int, final(seen)@, final(results)@),
        final(results)@.len() >= old(results)@.len(),
        forall|r: int| 0 <= r < old(results)@.len() ==> #[trigger] final(results)@[r] == old(
            results,
        )@[r],
        forall|r: int| 0 <= r < old(seen)@.len() ==> #[trigger] final(seen)@[r] == old(seen)@[r],
        forall|r: int|
            old(results)@.len() <= r < final(results)@.len() ==> from_batch(
                batch@,
                (#[trigger] final(results)@[r]).0@,
            ),
        forall|r: int|
            old(results)@.len() <= r < final(results)@.len() ==> !seen_has(
                old(seen)@,
                (#[trigger] final(results)@[r]).0@,
            ),
        forall|b: int|
            0 <= b < batch@.len() && uniquely_solvable(n as int, (#[trigger] batch@[b])@)
                ==> seen_has(final(seen)@, batch@[b]@),
        appended_in_order(batch@, old(results)@, final(results)@, order_src@),
{
    let ghost mut sources: Seq<int> = Seq::empty();
    let out = par_evaluate_batch(batch, grid, n, k);
    for b in 0..out.len()
        invariant
            1 <= n <= 31,
            out@.len() == batch@.len(),
            forall|b2: int|
                0 <= b2 < batch@.len() ==> tiles_ok(n as int, (#[trigger] batch@[b2])@, k as int),
            forall|b2: int|
                0 <= b2 < out@.len() ==> candidate_outcome_ok(
                    n as int,
                    batch@[b2]@,
                    #[trigger] out@[b2],
                ),
            results_ok(n as int, k as int, seen@, results@),
            old(seen)@.len() == old(results)@.len(),
            results@.len() >= old(results)@.len(),
            seen@.len() >= old(seen)@.len(),
            forall|r: int|
                0 <= r < old(results)@.len() ==> #[trigger] results@[r] == old(results)@[r],
            forall|r: int| 0 <= r < old(seen)@.len() ==> #[trigger] seen@[r] == old(seen)@[r],
            forall|r: int|
                old(results)@.len() <= r < results@.len() ==> from_batch(
                    batch@,
                    (#[trigger] results@[r]).0@,
                ),
            forall|r: int|
                old(results)@.len() <= r < results@.len() ==> !seen_has(
                    old(seen)@,
                    (#[trigger] results@[r]).0@,
                ),
            forall|b2: int|
                0 <= b2 < b && uniquely_solvable(n as int, (#[trigger] batch@[b2])@) ==> seen_has(
                    seen@,
                    batch@[b2]@,
                ),
            sources.len() == results@.len() - old(results)@.len(),
            forall|q: int| 0 <= q < sources.len() ==> 0 <= #[trigger] sources[q] < b,
            forall|q1: int, q2: int| 0 <= q1 < q2 < sources.len() ==> sources[q1] < sources[q2],
            forall|q: int|
                0 <= q < sources.len() ==> (#[trigger] results@[old(results)@.len() + q]).0@
                    == batch@[sources[q]]@,
    {
        match &out[b] {
            Option::Some(p) => {
                proof {
                    assert(candidate_outcome_ok(n as int, batch@[b as int]@, out@[b as int]));
                    assert(p.0@ == batch@[b as int]@);
                    assert(canon_sorted(p.0@)) by {
                        assert forall|q1: int, q2: int|
                            0 <= q1 < q2 < p.0@.len() implies #[trigger] cell_order()(
                            p.0@[q1],
                            p.0@[q2],
                        ) by {
                            assert(cell_lt(batch@[b as int]@[q1], batch@[b as int]@[q2]));
                        }
                    }
                }
                let std_tiles = standardize_tile_tuple(&p.0);
                proof {
                    lemma_canonical_form_unique(std_tiles@, p.0@);
                }
                if !seen_contains(seen, &std_tiles) {
                    let ghost seen_old = seen@;
                    let ghost results_old = results@;
                    seen.push(std_tiles);
                    let tiles_copy = clone_tiles(&p.0);
                    let sol_copy = clone_grid(n, &p.1);
                    proof {
                        lemma_latin_cells_transfer(n as int, p.1@, sol_copy@);
                    }
                    results.push((tiles_copy, sol_copy));
                    proof {
                        sources = sources.push(b as int);
                        assert forall|r: int|
                            0 <= r < results@.len() implies puzzle_ok(
                            n as int,
                            k as int,
                            #[trigger] results@[r],
                        ) by {
                            if r < results_old.len() {
                                assert(results@[r] == results_old[r]);
                            } else {
                                assert forall|i: int, j: int|
                                    0 <= i < n && 0 <= j < n && tiles_contain(
                                        tiles_copy@,
                                        i,
                                        j,
                                    ) implies #[trigger] sol_copy@[i]@[j] == truth_cell(
                                    n as int,
                                    i,
                                    j,
                                ) by {
                                    assert(sol_copy@[i]@[j] == p.1@[i]@[j]);
                                }
                                assert forall|i: int, j: int|
                                    0 <= i < n && 0 <= j < n && !tiles_contain(
                                        tiles_copy@,
                                        i,
                                        j,
                                    ) implies #[trigger] sol_copy@[i]@[j] != truth_cell(
                                    n as int,
                                    i,
                                    j,
                                ) by {
                                    assert(sol_copy@[i]@[j] == p.1@[i]@[j]);
                                }
                                assert forall|s2: Vec<Vec<usize>>|
                                    #[trigger] forced_solution_ok(
                                    n as int,
                                    tiles_copy@,
                                    s2@,
                                ) implies cells_eq(n as int, sol_copy@, s2@) by {
                                    assert(forced_solution_ok(n as int, batch@[b as int]@, s2@));
                                    assert(cells_eq(n as int, p.1@, s2@));
                                    assert forall|i2: int, j2: int|
                                        0 <= i2 < n && 0 <= j2 < n implies #[trigger] sol_copy@[
                                    i2]@[j2] == #[trigger] s2@[i2]@[j2] by {
                                        assert(sol_copy@[i2]@[j2] == p.1@[i2]@[j2]);
                                        assert(p.1@[i2]@[j2] == s2@[i2]@[j2]);
                                    }
                                }
                            }
                        }
                        assert forall|r: int|
                            0 <= r < results@.len() implies (#[trigger] seen@[r])@ == results@[
                        r].0@ by {
                            if r < results_old.len() {
                                assert(seen@[r] == seen_old[r]);
                                assert(results@[r] == results_old[r]);
                            }
                        }
                        assert forall|r1: int, r2: int|
                            0 <= r1 < r2 < results@.len() implies (#[trigger] results@[r1]).0@ != (
                        #[trigger] results@[r2]).0@ by {
                            if r2 == results_old.len() {
                                assert(results@[r1] == results_old[r1]);
                                assert(seen_old[r1]@ == results_old[r1].0@);
                                assert(!seen_has(seen_old, std_tiles@));
                            } else {
                                assert(results@[r1] == results_old[r1]);
                                assert(results@[r2] == results_old[r2]);
                            }
                        }
                        assert forall|r: int|
                            old(results)@.len() <= r < results@.len() implies from_batch(
                            batch@,
                            (#[trigger] results@[r]).0@,
                        ) by {
                            if r < results_old.len() {
                                assert(results@[r] == results_old[r]);
                            } else {
                                assert(batch@[b as int]@ == (results@[r].0)@);
                            }
                        }
                        assert forall|r: int|
                            old(results)@.len() <= r < results@.len() implies !seen_has(
                            old(seen)@,
                            (#[trigger] results@[r]).0@,
                        ) by {
                            if r < results_old.len() {
                                assert(results@[r] == results_old[r]);
                            } else {
                                if seen_has(old(seen)@, results@[r].0@) {
                                    let e = choose|e: int|
                                        0 <= e < old(seen)@.len() && (#[trigger] old(seen)@[e])@
                                            == results@[r].0@;
                                    assert(seen_old[e] == old(seen)@[e]);
                                    assert(seen_has(seen_old, std_tiles@));
                                }
                            }
                        }
                        assert forall|b2: int|
                            0 <= b2 < b + 1 && uniquely_solvable(
                                n as int,
                                (#[trigger] batch@[b2])@,
                            ) implies seen_has(seen@, batch@[b2]@) by {
                            if b2 < b {
                                let e = choose|e: int|
                                    0 <= e < seen_old.len() && (#[trigger] seen_old[e])@ == batch@[
                                    b2]@;
                                assert((seen@[e])@ == batch@[b2]@);
                            } else {
                                assert((seen@[seen@.len() - 1])@ == batch@[b2]@);
                            }
                        }
                    }
                } else {
                    proof {
                        assert forall|b2: int|
                            0 <= b2 < b + 1 && uniquely_solvable(
                                n as int,
                                (#[trigger] batch@[b2])@,
                            ) implies seen_has(seen@, batch@[b2]@) by {
                            if b2 == b {
                                assert(seen_has(seen@, std_tiles@));
                            }
                        }
                    }
                }
            },
            Option::None => {
                proof {
                    assert forall|b2: int|
                        0 <= b2 < b + 1 && uniquely_solvable(
                            n as int,
                            (#[trigger] batch@[b2])@,
                        ) implies seen_has(seen@, batch@[b2]@) by {
                        if b2 == b {
                            assert(!uniquely_solvable(n as int, batch@[b2]@));
                        }
                    }
                }
            },
        }
    }
    proof {
        assert(appended_in_order(batch@, old(results)@, results@, sources));
    }
    Ghost(sources)
}

/// Items picked from an in-range, strictly ordered universe form a
/// well-formed candidate given-set.
proof fn lemma_selection_tiles_ok(
    n: int,
    k: int,
    c: Seq<(usize, usize)>,
    items: Seq<(usize, usize)>,
)
    requires
        is_selection(c, items),
        c.len() == k,
        forall|t: int| 0 <= t < items.len() ==> (#[trigger] items[t]).0 < n && items[t].1 < n,
        forall|t1: int, t2: int| 0 <= t1 < t2 < items.len() ==> cell_lt(items[t1], items[t2]),
    ensures
        tiles_ok(n, c, k),
{
    let idxs = choose|idxs: Seq<int>| is_selection_by(c, items, idxs);
    assert forall|t: int| 0 <= t < c.len() implies (#[trigger] c[t]).0 < n && c[t].1 < n by {
        assert(c[t] == items[idxs[t]]);
    }
    assert forall|t1: int, t2: int| 0 <= t1 < t2 < c.len() implies cell_lt(c[t1], c[t2]) by {
        assert(c[t1] == items[idxs[t1]]);
        assert(c[t2] == items[idxs[t2]]);
        assert(idxs[t1] < idxs[t2]);
    }
}

/// Find the given-sets of size `n_well_placed` whose clues force exactly
/// one completion of the order-`n` cyclic Latin square.
///
/// With `random_tries` unset, every size-`n_well_placed` subset of the
/// cells is examined in lexicographic order; with `Some(count)`, that many
/// distinct subsets are sampled at random, stopping early once no new
/// subset turns up. Candidates are evaluated in batches through a parallel
/// map, and accepted puzzles are deduplicated by their canonical given-set.
///
/// Every returned pair holds a well-formed given-set together with a Latin
/// square that matches the cyclic ground truth exactly on the given cells
/// and differs from it everywhere else; no two returned given-sets are
/// equal.
#[verifier::rlimit(100)]
pub fn find_single_solution_puzzles(
    n: usize,
    n_well_placed: usize,
    random_tries: Option<usize>,
) -> (results: Vec<(Vec<(usize, usize)>, Vec<Vec<usize>>)>)
    requires
        1 <= n <= 31,
        n_well_placed <= n * n,
    ensures
        forall|r: int|
            0 <= r < results@.len() ==> puzzle_ok(
                n as int,
                n_well_placed as int,
                #[trigger] results@[r],
            ),
        forall|r1: int, r2: int|
            0 <= r1 < r2 < results@.len() ==> (#[trigger] results@[r1]).0@ != (
            #[trigger] results@[r2]).0@,
        random_tries is None && n_well_placed == 0 ==> results@.len() == 0,
        random_tries is None && n_well_placed >= 1 ==> forall|t: Vec<(usize, usize)>|
            tiles_ok(n as int, t@, n_well_placed as int) && uniquely_solvable(n as int, t@)
                ==> exists|r: int|
                0 <= r < results@.len() && (#[trigger] results@[r]).0@ == t@,
{
    proof {
        assert(n * n <= 961) by (nonlinear_arith)
            requires
                n <= 31,
        ;
    }
    let grid = cyclic_latin_square(n);
    let mut tile_coordinates: Vec<(usize, usize)> = Vec::new();
    proof {
        assert(0int * (n as int) == 0) by (nonlinear_arith);
    }
    for i in 0..n
        invariant
            1 <= n <= 31,
            tile_coordinates@.len() == i * n,
            forall|t: int|
                0 <= t < tile_coordinates@.len() ==> (#[trigger] tile_coordinates@[t]).0 < i
                    && tile_coordinates@[t].1 < n,
            forall|t: int|
                0 <= t < tile_coordinates@.len() ==> cell_pos(
                    n as int,
                    #[trigger] tile_coordinates@[t],
                ) == t,
            forall|t1: int, t2: int|
                0 <= t1 < t2 < tile_coordinates@.len() ==> cell_lt(
                    tile_coordinates@[t1],
                    tile_coordinates@[t2],
                ),
    {
        for j in 0..n
            invariant
                1 <= n <= 31,
                i < n,
                tile_coordinates@.len() == i * n + j,
                forall|t: int|
                    0 <= t < i * n ==> (#[trigger] tile_coordinates@[t]).0 < i
                        && tile_coordinates@[t].1 < n,
                forall|t: int|
                    i * n <= t < tile_coordinates@.len() ==> (#[trigger] tile_coordinates@[t]).0
                        == i && tile_coordinates@[t].1 < j,
                forall|t: int|
                    0 <= t < tile_coordinates@.len() ==> cell_pos(
                        n as int,
                        #[trigger] tile_coordinates@[t],
                    ) == t,
                forall|t1: int, t2: int|
                    0 <= t1 < t2 < tile_coordinates@.len() ==> cell_lt(
                        tile_coordinates@[t1],
                        tile_coordinates@[t2],
                    ),
        {
            tile_coordinates.push((i, j));
        }
        proof {
            assert((i + 1) * n == i * n + n) by (nonlinear_arith);
        }
    }
    proof {
        assert(n * n == tile_coordinates@.len());
        assert(universe_ok(n as int, tile_coordinates@));
        assert forall|t: int|
            0 <= t < tile_coordinates@.len() implies (#[trigger] tile_coordinates@[t]).0 < n
            && tile_coordinates@[t].1 < n by {}
        assert(tile_coordinates@.no_duplicates()) by {
            assert forall|t1: int, t2: int|
                0 <= t1 < t2 < tile_coordinates@.len() implies tile_coordinates@[t1]
                != tile_coordinates@[t2] by {
                assert(cell_lt(tile_coordinates@[t1], tile_coordinates@[t2]));
            }
            assert forall|t1: int, t2: int|
                0 <= t1 < tile_coordinates@.len() && 0 <= t2 < tile_coordinates@.len() && t1 != t2
                implies tile_coordinates@[t1] != tile_coordinates@[t2] by {
                if t1 < t2 {
                    assert(cell_lt(tile_coordinates@[t1], tile_coordinates@[t2]));
                } else {
                    assert(cell_lt(tile_coordinates@[t2], tile_coordinates@[t1]));
                }
            }
        }
    }
    let mut results: Vec<(Vec<(usize, usize)>, Vec<Vec<usize>>)> = Vec::new();
    let mut seen: Vec<Vec<(usize, usize)>> = Vec::new();
    if let Option::Some(num_random) = random_tries {
        let chunk_size: usize = 10000;
        let mut tried: Vec<Vec<(usize, usize)>> = Vec::new();
        let mut remaining = num_random;
        while remaining > 0
            invariant
                1 <= n <= 31,
                n_well_placed <= n * n,
                n * n <= 961,
                square_dims(n as int, grid@),
                vals_in_range(n as int, grid@),
                cyclic_formula(n as int, grid@),
                tile_coordinates@.len() == n * n,
                tile_coordinates@.no_duplicates(),
                forall|t: int|
                    0 <= t < tile_coordinates@.len() ==> (#[trigger] tile_coordinates@[t]).0 < n
                        && tile_coordinates@[t].1 < n,
                forall|t1: int, t2: int|
                    0 <= t1 < t2 < tile_coordinates@.len() ==> cell_lt(
                        tile_coordinates@[t1],
                        tile_coordinates@[t2],
                    ),
                results_ok(n as int, n_well_placed as int, seen@, results@),
                chunk_size >= 1,
            ensures
                results_ok(n as int, n_well_placed as int, seen@, results@),
            decreases remaining,
        {
            let this_chunk = if chunk_size < remaining {
                chunk_size
            } else {
                remaining
            };
            let mut batch: Vec<Vec<(usize, usize)>> = Vec::new();
            let mut d: usize = 0;
            while d < this_chunk
                invariant
                    1 <= n <= 31,
                    n_well_placed <= n * n,
                    n * n <= 961,
                    square_dims(n as int, grid@),
                    vals_in_range(n as int, grid@),
                    cyclic_formula(n as int, grid@),
                    tile_coordinates@.len() == n * n,
                    tile_coordinates@.no_duplicates(),
                    forall|t: int|
                        0 <= t < tile_coordinates@.len() ==> (#[trigger] tile_coordinates@[t]).0
                            < n && tile_coordinates@[t].1 < n,
                    forall|t1: int, t2: int|
                        0 <= t1 < t2 < tile_coordinates@.len() ==> cell_lt(
                            tile_coordinates@[t1],
                            tile_coordinates@[t2],
                        ),
                    d <= this_chunk,
                    forall|b: int|
                        0 <= b < batch@.len() ==> tiles_ok(
                            n as int,
                            (#[trigger] batch@[b])@,
                            n_well_placed as int,
                        ),
                decreases this_chunk - d,
            {
                let draw = draw_random_tiles(&tile_coordinates, n_well_placed);
                let sorted_draw = standardize_tile_tuple(&draw);
                proof {
                    broadcast use vstd::seq_lib::group_to_multiset_ensures;

                    draw@.lemma_multiset_has_no_duplicates();
                    sorted_draw@.lemma_multiset_has_no_duplicates_conv();
                    assert forall|t: int|
                        0 <= t < sorted_draw@.len() implies (#[trigger] sorted_draw@[t]).0 < n
                        && sorted_draw@[t].1 < n by {
                        assert(sorted_draw@.contains(sorted_draw@[t]));
                        assert(sorted_draw@.to_multiset().count(sorted_draw@[t]) > 0);
                        assert(draw@.contains(sorted_draw@[t]));
                        let w = choose|w: int| 0 <= w < draw@.len() && draw@[w] == sorted_draw@[t];
                        assert(tile_coordinates@.contains(draw@[w]));
                        let u = choose|u: int|
                            0 <= u < tile_coordinates@.len() && tile_coordinates@[u] == draw@[w];
                        assert(tile_coordinates@[u].0 < n && tile_coordinates@[u].1 < n);
                    }
                    assert(tiles_ok(n as int, sorted_draw@, n_well_placed as int)) by {
                        assert forall|t1: int, t2: int|
                            0 <= t1 < t2 < sorted_draw@.len() implies cell_lt(
                            sorted_draw@[t1],
                            sorted_draw@[t2],
                        ) by {
                            assert(cell_order()(sorted_draw@[t1], sorted_draw@[t2]));
                            assert(sorted_draw@[t1] != sorted_draw@[t2]);
                        }
                    }
                }
                if !seen_contains(&tried, &sorted_draw) {
                    let copy_for_batch = clone_tiles(&sorted_draw);
                    tried.push(sorted_draw);
                    batch.push(copy_for_batch);
                }
                d += 1;
            }
            if batch.len() == 0 {
                break;
            }
            let blen = batch.len();
            remaining = if blen < remaining {
                remaining - blen
            } else {
                0
            };
            let _ = process_batch(&batch, &grid, n, n_well_placed, &mut seen, &mut results);
        }
    } else {
        let chunk_size: usize = 100000;
        let universe_copy = clone_tiles(&tile_coordinates);
        let mut combos = CombinationIterator::new(universe_copy, n_well_placed);
        loop
            invariant
                1 <= n <= 31,
                n_well_placed <= n * n,
                n * n <= 961,
                square_dims(n as int, grid@),
                vals_in_range(n as int, grid@),
                cyclic_formula(n as int, grid@),
                tile_coordinates@.len() == n * n,
                forall|t: int|
                    0 <= t < tile_coordinates@.len() ==> (#[trigger] tile_coordinates@[t]).0 < n
                        && tile_coordinates@[t].1 < n,
                forall|t1: int, t2: int|
                    0 <= t1 < t2 < tile_coordinates@.len() ==> cell_lt(
                        tile_coordinates@[t1],
                        tile_coordinates@[t2],
                    ),
                combos.wf(),
                combos.spec_items() == tile_coordinates@,
                combos.spec_k() == n_well_placed,
                n_well_placed == 0 ==> combos.spec_exhausted(),
                n_well_placed == 0 ==> results@.len() == 0,
                universe_ok(n as int, tile_coordinates@),
                !combos.spec_exhausted() && combos.spec_fresh() ==> combos.spec_positions()
                    == Seq::new(n_well_placed as nat, |q: int| q),
                !combos.spec_exhausted() ==> wf_positions(
                    combos.spec_positions(),
                    (n as int) * (n as int),
                    n_well_placed as int,
                ),
                n_well_placed >= 1 ==> forall|t: Vec<(usize, usize)>|
                    tiles_ok(n as int, t@, n_well_placed as int) && uniquely_solvable(
                        n as int,
                        t@,
                    ) && enumerated(combos, n as int, t@) ==> seen_has(seen@, t@),
                results_ok(n as int, n_well_placed as int, seen@, results@),
                chunk_size >= 1,
            ensures
                results_ok(n as int, n_well_placed as int, seen@, results@),
                n_well_placed == 0 ==> results@.len() == 0,
                n_well_placed >= 1 ==> forall|t: Vec<(usize, usize)>|
                    tiles_ok(n as int, t@, n_well_placed as int) && uniquely_solvable(
                        n as int,
                        t@,
                    ) ==> seen_has(seen@, t@),
            decreases combos.progress_measure(),
        {
            let ghost measure_head = combos.progress_measure();
            let mut batch: Vec<Vec<(usize, usize)>> = Vec::new();
            let mut stop = false;
            for _x in 0..chunk_size
                invariant
                    1 <= n <= 31,
                    n_well_placed <= n * n,
                    tile_coordinates@.len() == n * n,
                    forall|t: int|
                        0 <= t < tile_coordinates@.len() ==> (#[trigger] tile_coordinates@[t]).0
                            < n && tile_coordinates@[t].1 < n,
                    forall|t1: int, t2: int|
                        0 <= t1 < t2 < tile_coordinates@.len() ==> cell_lt(
                            tile_coordinates@[t1],
                            tile_coordinates@[t2],
                        ),
                    combos.wf(),
                    combos.spec_items() == tile_coordinates@,
                    combos.spec_k() == n_well_placed,
                    n_well_placed == 0 ==> combos.spec_exhausted(),
                    n_well_placed == 0 ==> batch@.len() == 0,
                    universe_ok(n as int, tile_coordinates@),
                    !combos.spec_exhausted() && combos.spec_fresh() ==> combos.spec_positions()
                        == Seq::new(n_well_placed as nat, |q: int| q),
                    !combos.spec_exhausted() ==> wf_positions(
                        combos.spec_positions(),
                        (n as int) * (n as int),
                        n_well_placed as int,
                    ),
                    stop ==> combos.spec_exhausted(),
                    _x > 0 && batch@.len() == 0 ==> stop,
                    n_well_placed >= 1 ==> forall|t: Vec<(usize, usize)>|
                        tiles_ok(n as int, t@, n_well_placed as int) && uniquely_solvable(
                            n as int,
                            t@,
                        ) && enumerated(combos, n as int, t@) ==> seen_has(seen@, t@)
                            || from_batch(batch@, t@),
                    combos.progress_measure() <= measure_head,
                    batch@.len() > 0 ==> combos.progress_measure() < measure_head,
                    forall|b: int|
                        0 <= b < batch@.len() ==> tiles_ok(
                            n as int,
                            (#[trigger] batch@[b])@,
                            n_well_placed as int,
                        ),
            {
                if !stop {
                    let ghost it_before = combos;
                    match combos.next() {
                        Option::Some(c) => {
                            proof {
                                lemma_selection_tiles_ok(
                                    n as int,
                                    n_well_placed as int,
                                    c@,
                                    tile_coordinates@,
                                );
                            }
                            let ghost batch_before = batch@;
                            batch.push(c);
                            proof {
                                if n_well_placed >= 1 {
                                    assert forall|t: Vec<(usize, usize)>|
                                        tiles_ok(n as int, t@, n_well_placed as int)
                                            && uniquely_solvable(n as int, t@) && enumerated(
                                            combos,
                                            n as int,
                                            t@,
                                        ) implies seen_has(seen@, t@) || from_batch(
                                        batch@,
                                        t@,
                                    ) by {
                                        lemma_enumerated_step(
                                            it_before,
                                            combos,
                                            tile_coordinates@,
                                            n as int,
                                            n_well_placed as int,
                                            c@,
                                            t@,
                                        );
                                        if c@ == t@ {
                                            assert(batch@[batch@.len() - 1]@ == t@);
                                        } else {
                                            assert(enumerated(it_before, n as int, t@));
                                            assert(seen_has(seen@, t@) || from_batch(
                                                batch_before,
                                                t@,
                                            ));
                                            if from_batch(batch_before, t@) {
                                                let bb = choose|bb: int|
                                                    0 <= bb < batch_before.len() && (
                                                    #[trigger] batch_before[bb])@ == t@;
                                                assert(batch@[bb]@ == t@);
                                            }
                                        }
                                    }
                                }
                            }
                        },
                        Option::None => {
                            stop = true;
                            proof {
                                if n_well_placed >= 1 {
                                    assert forall|t: Vec<(usize, usize)>|
                                        tiles_ok(n as int, t@, n_well_placed as int)
                                            && uniquely_solvable(n as int, t@) && enumerated(
                                            combos,
                                            n as int,
                                            t@,
                                        ) implies seen_has(seen@, t@) || from_batch(
                                        batch@,
                                        t@,
                                    ) by {
                                        if it_before.spec_exhausted() {
                                            assert(enumerated(it_before, n as int, t@));
                                        } else {
                                            assert(!it_before.spec_fresh());
                                            lemma_enumerated_at_max(
                                                it_before,
                                                n as int,
                                                n_well_placed as int,
                                                t@,
                                            );
                                            assert(enumerated(it_before, n as int, t@));
                                        }
                                        assert(seen_has(seen@, t@) || from_batch(batch@, t@));
                                    }
                                }
                            }
                        },
                    }
                }
            }
            if batch.len() == 0 {
                proof {
                    if n_well_placed >= 1 {
                        assert(combos.spec_exhausted());
                        assert forall|t: Vec<(usize, usize)>|
                            tiles_ok(n as int, t@, n_well_placed as int) && uniquely_solvable(
                                n as int,
                                t@,
                            ) implies seen_has(seen@, t@) by {
                            assert(enumerated(combos, n as int, t@));
                            assert(seen_has(seen@, t@) || from_batch(batch@, t@));
                        }
                    }
                }
                break;
            }
            let ghost seen_before = seen@;
            let _ = process_batch(&batch, &grid, n, n_well_placed, &mut seen, &mut results);
            proof {
                if n_well_placed >= 1 {
                    assert forall|t: Vec<(usize, usize)>|
                        tiles_ok(n as int, t@, n_well_placed as int) && uniquely_solvable(
                            n as int,
                            t@,
                        ) && enumerated(combos, n as int, t@) implies seen_has(seen@, t@) by {
                        if seen_has(seen_before, t@) {
                            let e = choose|e: int|
                                0 <= e < seen_before.len() && (#[trigger] seen_before[e])@ == t@;
                            assert(seen@[e] == seen_before[e]);
                        } else {
                            assert(from_batch(batch@, t@));
                            let bb = choose|bb: int|
                                0 <= bb < batch@.len() && (#[trigger] batch@[bb])@ == t@;
                            assert(uniquely_solvable(n as int, batch@[bb]@));
                            assert(seen_has(seen@, batch@[bb]@));
                        }
                    }
                }
            }
        }
        proof {
            if n_well_placed >= 1 {
                assert forall|t: Vec<(usize, usize)>|
                    tiles_ok(n as int, t@, n_well_placed as int) && uniquely_solvable(
                        n as int,
                        t@,
                    ) implies exists|r: int|
                    0 <= r < results@.len() && (#[trigger] results@[r]).0@ == t@ by {
                    assert(seen_has(seen@, t@));
                    let e = choose|e: int| 0 <= e < seen@.len() && (#[trigger] seen@[e])@ == t@;
                    assert((results@[e]).0@ == t@);
                }
            }
        }
    }
    results
}

/// The host-side validation rule: the number of placed tiles must not
/// exceed the number of cells of the square.
pub fn validate_args(size: usize, placed: usize) -> (ok: bool)
    requires
        size <= 31,
    ensures
        ok == (placed <= size * size),
{
    proof {
        assert(size * size <= 961) by (nonlinear_arith)
            requires
                size <= 31,
        ;
    }
    placed <= size * size
}


/// Law: the search never reports one puzzle twice. Reported given-sets are
/// already canonical (sorted row-major), and two distinct ones differ even
/// as unordered cell-sets, so their canonical forms can never collide.
pub proof fn lemma_puzzles_canonically_distinct(
    n: int,
    k: int,
    p1: (Vec<(usize, usize)>, Vec<Vec<usize>>),
    p2: (Vec<(usize, usize)>, Vec<Vec<usize>>),
)
    requires
        puzzle_ok(n, k, p1),
        puzzle_ok(n, k, p2),
        p1.0@ != p2.0@,
    ensures
        p1.0@.to_multiset() != p2.0@.to_multiset(),
        canon_sorted(p1.0@),
        canon_sorted(p2.0@),
{
    assert(canon_sorted(p1.0@)) by {
        assert forall|q1: int, q2: int|
            0 <= q1 < q2 < p1.0@.len() implies #[trigger] cell_order()(p1.0@[q1], p1.0@[q2]) by {
            assert(cell_lt(p1.0@[q1], p1.0@[q2]));
        }
    }
    assert(canon_sorted(p2.0@)) by {
        assert forall|q1: int, q2: int|
            0 <= q1 < q2 < p2.0@.len() implies #[trigger] cell_order()(p2.0@[q1], p2.0@[q2]) by {
            assert(cell_lt(p2.0@[q1], p2.0@[q2]));
        }
    }
    if p1.0@.to_multiset() == p2.0@.to_multiset() {
        lemma_canonical_form_unique(p1.0@, p2.0@);
    }
}

} // verus!
