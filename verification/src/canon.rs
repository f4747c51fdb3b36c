//! Canonical form of a given-set: its cell coordinates sorted by row, then
//! column. Two given-sets describe the same puzzle exactly when their
//! canonical forms are equal.

use vstd::prelude::*;
use vstd::relations::{sorted_by, total_ordering};
use vstd::seq_lib::{lemma_sorted_unique, to_multiset_build, to_multiset_insert};

verus! {

/// Row-major order on cells, allowing equality.
pub open spec fn cell_le(a: (usize, usize), b: (usize, usize)) -> bool {
    a.0 < b.0 || (a.0 == b.0 && a.1 <= b.1)
}

/// Strict row-major order on cells.
pub open spec fn cell_lt(a: (usize, usize), b: (usize, usize)) -> bool {
    a.0 < b.0 || (a.0 == b.0 && a.1 < b.1)
}

/// The order on cells as a relation value, for vstd's sorting vocabulary.
pub open spec fn cell_order() -> spec_fn((usize, usize), (usize, usize)) -> bool {
    |a: (usize, usize), b: (usize, usize)| cell_le(a, b)
}

/// A given-set in canonical form: sorted by row, then column.
pub open spec fn canon_sorted(s: Seq<(usize, usize)>) -> bool {
    sorted_by(s, cell_order())
}

/// Row-major order on cells is a total order.
pub proof fn lemma_cell_order_total()
    ensures
        total_ordering(cell_order()),
{
}

/// Law: canonical forms are unique. A sorted sequence is determined by the
/// cells it holds, so (a) canonicalizing an already-canonical given-set
/// returns it unchanged, and (b) any two permutations of the same given-set
/// share one canonical form.
pub proof fn lemma_canonical_form_unique(a: Seq<(usize, usize)>, b: Seq<(usize, usize)>)
    requires
        canon_sorted(a),
        canon_sorted(b),
        a.to_multiset() == b.to_multiset(),
    ensures
        a == b,
{
    lemma_cell_order_total();
    lemma_sorted_unique(a, b, cell_order());
}

/// Canonical form of a tile tuple: the same cells, sorted by row then
/// column. Used to recognise two orderings of one given-set as one puzzle.
pub fn standardize_tile_tuple(tiles: &Vec<(usize, usize)>) -> (r: Vec<(usize, usize)>)
    ensures
        r@.len() == tiles@.len(),
        r@.to_multiset() == tiles@.to_multiset(),
        canon_sorted(r@),
{
    let mut r: Vec<(usize, usize)> = Vec::new();
    proof {
        assert(r@ =~= tiles@.take(0));
    }
    for idx in 0..tiles.len()
        invariant
            r@.len() == idx,
            r@.to_multiset() == tiles@.take(idx as int).to_multiset(),
            canon_sorted(r@),
    {
        let x = tiles[idx];
        let mut p: usize = 0;
        while p < r.len() && (r[p].0 < x.0 || (r[p].0 == x.0 && r[p].1 <= x.1))
            invariant
                p <= r@.len(),
                canon_sorted(r@),
                forall|q: int| 0 <= q < p ==> cell_le(#[trigger] r@[q], x),
            decreases r@.len() - p,
        {
            p += 1;
        }
        let ghost r_old = r@;
        let ghost pp = p as int;
        r.insert(p, x);
        proof {
            r_old.insert_ensures(pp, x);
            to_multiset_insert(r_old, pp, x);
            assert(tiles@.take(idx as int + 1) =~= tiles@.take(idx as int).push(x));
            to_multiset_build(tiles@.take(idx as int), x);
            assert forall|q1: int, q2: int|
                0 <= q1 < q2 < r@.len() implies #[trigger] cell_order()(r@[q1], r@[q2]) by {
                if q2 < pp {
                    assert(r@[q1] == r_old[q1]);
                    assert(r@[q2] == r_old[q2]);
                    assert(cell_order()(r_old[q1], r_old[q2]));
                } else if q2 == pp {
                    assert(r@[q1] == r_old[q1]);
                    assert(cell_le(r_old[q1], x));
                } else if q1 == pp {
                    assert(r@[q2] == r_old[q2 - 1]);
                    assert(!cell_le(r_old[pp], x));
                    if q2 - 1 > pp {
                        assert(cell_order()(r_old[pp], r_old[q2 - 1]));
                    }
                } else if q1 < pp {
                    assert(r@[q1] == r_old[q1]);
                    assert(r@[q2] == r_old[q2 - 1]);
                    assert(q2 - 1 >= pp);
                    assert(cell_order()(r_old[q1], r_old[q2 - 1]));
                } else {
                    assert(r@[q1] == r_old[q1 - 1]);
                    assert(r@[q2] == r_old[q2 - 1]);
                    assert(cell_order()(r_old[q1 - 1], r_old[q2 - 1]));
                }
            }
        }
    }
    proof {
        assert(tiles@.take(tiles@.len() as int) =~= tiles@);
    }
    r
}

} // verus!
