//! Lazy enumeration of all size-`k` subsets of a universe of cells, in
//! lexicographic order, holding only the current index vector in memory.

use vstd::prelude::*;

verus! {

/// `m` raised to the power `e`.
pub open spec fn pow_len(m: nat, e: nat) -> nat
    decreases e,
{
    if e == 0 {
        1
    } else {
        m * pow_len(m, (e - 1) as nat)
    }
}

/// Positional encoding of an index vector, most significant digit first.
/// It grows strictly with each lexicographic successor step.
pub open spec fn code_of(s: Seq<usize>, m: nat) -> nat
    decreases s.len(),
{
    if s.len() == 0 {
        0
    } else {
        (s[0] as nat) * pow_len(m, (s.len() - 1) as nat) + code_of(s.drop_first(), m)
    }
}

proof fn lemma_pow_len_pos(m: nat, e: nat)
    requires
        m >= 1,
    ensures
        pow_len(m, e) >= 1,
    decreases e,
{
    if e > 0 {
        lemma_pow_len_pos(m, (e - 1) as nat);
        assert(m * pow_len(m, (e - 1) as nat) >= 1 * pow_len(m, (e - 1) as nat))
            by (nonlinear_arith)
            requires
                m >= 1,
                pow_len(m, (e - 1) as nat) >= 1,
        ;
    }
}

proof fn lemma_code_bound(s: Seq<usize>, m: nat)
    requires
        m >= 1,
        forall|t: int| 0 <= t < s.len() ==> #[trigger] s[t] < m,
    ensures
        code_of(s, m) < pow_len(m, s.len()),
    decreases s.len(),
{
    if s.len() == 0 {
    } else {
        let p = pow_len(m, (s.len() - 1) as nat);
        lemma_code_bound(s.drop_first(), m);
        lemma_pow_len_pos(m, (s.len() - 1) as nat);
        assert(s[0] * p + p <= m * p) by (nonlinear_arith)
            requires
                s[0] < m,
                p >= 1,
        ;
    }
}

proof fn lemma_code_lex(s1: Seq<usize>, s2: Seq<usize>, m: nat, p: int)
    requires
        s1.len() == s2.len(),
        forall|t: int| 0 <= t < s1.len() ==> #[trigger] s1[t] < m,
        forall|t: int| 0 <= t < s2.len() ==> #[trigger] s2[t] < m,
        0 <= p < s1.len(),
        forall|q: int| 0 <= q < p ==> #[trigger] s1[q] == s2[q],
        s1[p] < s2[p],
    ensures
        code_of(s1, m) < code_of(s2, m),
    decreases p,
{
    let pw = pow_len(m, (s1.len() - 1) as nat);
    if p == 0 {
        lemma_code_bound(s1.drop_first(), m);
        assert((s1[0] + 1) * pw <= s2[0] * pw) by (nonlinear_arith)
            requires
                s1[0] + 1 <= s2[0],
                pw >= 0,
        ;
        assert((s1[0] + 1) * pw == s1[0] * pw + pw) by (nonlinear_arith);
    } else {
        assert(s1[0] == s2[0]);
        assert forall|q: int| 0 <= q < p - 1 implies #[trigger] s1.drop_first()[q]
            == s2.drop_first()[q] by {
            assert(s1[q + 1] == s2[q + 1]);
        }
        lemma_code_lex(s1.drop_first(), s2.drop_first(), m, p - 1);
    }
}


/// A well-formed position vector: `k` strictly increasing positions into a
/// universe of size `n`.
pub open spec fn wf_positions(p: Seq<int>, n: int, k: int) -> bool {
    &&& p.len() == k
    &&& forall|q: int| 0 <= q < k ==> 0 <= #[trigger] p[q] < n
    &&& forall|q1: int, q2: int| 0 <= q1 < q2 < k ==> p[q1] < p[q2]
}

/// The last position vector of the enumeration: position `t` at its
/// maximum `n - k + t`.
pub open spec fn is_max_positions(p: Seq<int>, n: int, k: int) -> bool {
    &&& p.len() == k
    &&& forall|q: int| 0 <= q < k ==> #[trigger] p[q] == n - k + q
}

/// `b` follows `a` by one successor step with pivot `p`: everything right
/// of `p` in `a` was already at its maximum, `a[p]` still had room and
/// grows by one, and `b`'s tail restarts at consecutive positions.
pub open spec fn successor_at(a: Seq<int>, b: Seq<int>, n: int, k: int, p: int) -> bool {
    &&& a.len() == k
    &&& b.len() == k
    &&& 0 <= p < k
    &&& a[p] < n - k + p
    &&& forall|q: int| p < q < k ==> #[trigger] a[q] == n - k + q
    &&& forall|q: int| 0 <= q < p ==> #[trigger] b[q] == a[q]
    &&& b[p] == a[p] + 1
    &&& forall|q: int| p < q < k ==> #[trigger] b[q] == a[p] + 1 + q - p
}

/// `b` is the successor of `a` in the enumeration.
pub open spec fn is_position_successor(a: Seq<int>, b: Seq<int>, n: int, k: int) -> bool {
    exists|p: int| successor_at(a, b, n, k, p)
}

/// Strictly increasing vectors grow at least as fast as the index.
proof fn lemma_incr_gap(p: Seq<int>, q1: int, q2: int)
    requires
        forall|x1: int, x2: int| 0 <= x1 < x2 < p.len() ==> p[x1] < p[x2],
        0 <= q1 <= q2 < p.len(),
    ensures
        p[q2] >= p[q1] + q2 - q1,
    decreases q2 - q1,
{
    if q1 < q2 {
        lemma_incr_gap(p, q1, q2 - 1);
    }
}

/// Every well-formed vector fits under the maximal one, pointwise.
pub proof fn lemma_wf_positions_bounded(p: Seq<int>, n: int, k: int)
    requires
        wf_positions(p, n, k),
    ensures
        forall|q: int| 0 <= q < k ==> q <= #[trigger] p[q] <= n - k + q,
{
    assert forall|q: int| 0 <= q < k implies q <= #[trigger] p[q] <= n - k + q by {
        if q > 0 {
            lemma_incr_gap(p, 0, q);
        }
        if q < k - 1 {
            lemma_incr_gap(p, q, k - 1);
        }
    }
}

/// If `a` and `b` agree below `lo`, differ somewhere from `lo` on, and `a`
/// never exceeds `b` there, then `a` precedes `b` lexicographically.
proof fn lemma_lex_from_pointwise(a: Seq<int>, b: Seq<int>, lo: int)
    requires
        a.len() == b.len(),
        0 <= lo < a.len(),
        forall|q: int| 0 <= q < lo ==> a[q] == b[q],
        exists|q: int| lo <= q < a.len() && #[trigger] a[q] != b[q],
        forall|q: int| lo <= q < a.len() ==> #[trigger] a[q] <= b[q],
    ensures
        pos_lex_lt(a, b),
    decreases a.len() - lo,
{
    if a[lo] != b[lo] {
        assert(a[lo] < b[lo]);
        assert((forall|q: int| 0 <= q < lo ==> a[q] == b[q]) && a[lo] < b[lo]);
    } else {
        let qd = choose|q: int| lo <= q < a.len() && #[trigger] a[q] != b[q];
        assert(qd > lo);
        lemma_lex_from_pointwise(a, b, lo + 1);
    }
}

/// Two distinct equal-length vectors are lexicographically comparable.
pub proof fn lemma_lex_total(a: Seq<int>, b: Seq<int>, lo: int)
    requires
        a.len() == b.len(),
        0 <= lo < a.len(),
        forall|q: int| 0 <= q < lo ==> a[q] == b[q],
        exists|q: int| lo <= q < a.len() && #[trigger] a[q] != b[q],
    ensures
        pos_lex_lt(a, b) || pos_lex_lt(b, a),
    decreases a.len() - lo,
{
    if a[lo] != b[lo] {
        if a[lo] < b[lo] {
            assert((forall|q: int| 0 <= q < lo ==> a[q] == b[q]) && a[lo] < b[lo]);
        } else {
            assert((forall|q: int| 0 <= q < lo ==> b[q] == a[q]) && b[lo] < a[lo]);
        }
    } else {
        let qd = choose|q: int| lo <= q < a.len() && #[trigger] a[q] != b[q];
        assert(qd > lo);
        lemma_lex_total(a, b, lo + 1);
    }
}

/// Lexicographic order never holds both ways.
pub proof fn lemma_lex_asym(a: Seq<int>, b: Seq<int>)
    requires
        a.len() == b.len(),
        pos_lex_lt(a, b),
    ensures
        !pos_lex_lt(b, a),
{
    if pos_lex_lt(b, a) {
        let p1 = choose|p: int|
            0 <= p < a.len() && p < b.len() && (forall|q: int| 0 <= q < p ==> a[q] == b[q]) && a[p]
                < b[p];
        let p2 = choose|p: int|
            0 <= p < b.len() && p < a.len() && (forall|q: int| 0 <= q < p ==> b[q] == a[q]) && b[p]
                < a[p];
        if p1 < p2 {
            assert(b[p1] == a[p1]);
        } else if p2 < p1 {
            assert(a[p2] == b[p2]);
        }
    }
}

/// Nothing precedes the identity vector: the enumeration starts at its
/// first combination.
pub proof fn lemma_no_positions_below_identity(w: Seq<int>, n: int, k: int)
    requires
        wf_positions(w, n, k),
        k >= 1,
    ensures
        !pos_lex_lt(w, Seq::new(k as nat, |q: int| q)),
{
    lemma_wf_positions_bounded(w, n, k);
    let ident = Seq::new(k as nat, |q: int| q);
    if pos_lex_lt(w, ident) {
        let p = choose|p: int|
            0 <= p < w.len() && p < ident.len() && (forall|q: int| 0 <= q < p ==> w[q] == ident[q])
                && w[p] < ident[p];
        assert(w[p] >= p);
    }
}

/// Nothing follows the maximal vector: exhaustion is exact.
pub proof fn lemma_no_positions_above_max(w: Seq<int>, m: Seq<int>, n: int, k: int)
    requires
        wf_positions(w, n, k),
        is_max_positions(m, n, k),
    ensures
        !pos_lex_lt(m, w),
    decreases k,
{
    lemma_wf_positions_bounded(w, n, k);
    if pos_lex_lt(m, w) {
        let p = choose|p: int|
            0 <= p < m.len() && p < w.len() && (forall|q: int| 0 <= q < p ==> m[q] == w[q]) && m[p]
                < w[p];
        assert(w[p] <= n - k + p);
    }
}

/// The successor step skips nothing: whatever lies strictly after `a`
/// lies at or after `b`.
pub proof fn lemma_successor_immediate(a: Seq<int>, b: Seq<int>, w: Seq<int>, n: int, k: int, p: int)
    requires
        successor_at(a, b, n, k, p),
        wf_positions(w, n, k),
        pos_lex_lt(a, w),
    ensures
        w == b || pos_lex_lt(b, w),
{
    lemma_wf_positions_bounded(w, n, k);
    let pl = choose|pl: int|
        0 <= pl < a.len() && pl < w.len() && (forall|q: int| 0 <= q < pl ==> a[q] == w[q]) && a[pl]
            < w[pl];
    if pl < p {
        assert((forall|q: int| 0 <= q < pl ==> b[q] == w[q]) && b[pl] < w[pl]);
    } else if pl > p {
        assert(w[pl] <= n - k + pl);
        assert(a[pl] == n - k + pl);
        assert(false);
    } else {
        // pl == p: w[p] >= b[p], and b's tail is the least possible
        assert(w[p] >= a[p] + 1);
        if w[p] > b[p] {
            assert((forall|q: int| 0 <= q < p ==> b[q] == w[q]) && b[p] < w[p]);
        } else {
            assert(w[p] == b[p]);
            assert forall|q: int| p <= q < k implies #[trigger] b[q] <= w[q] by {
                if q > p {
                    lemma_incr_gap(w, p, q);
                }
            }
            if w =~= b {
                assert(w == b);
            } else {
                assert(exists|q: int| 0 <= q < k && #[trigger] b[q] != w[q]);
                let qd = choose|q: int| 0 <= q < k && #[trigger] b[q] != w[q];
                assert(qd > p);
                lemma_lex_from_pointwise(b, w, p + 1);
            }
        }
    }
}

/// Enumerates the size-`k` subsets of `items` as the classic lexicographic
/// successor of an index vector: find the rightmost index that can still
/// grow, advance it, and restart the indices to its right at consecutive
/// positions. Memory use stays proportional to `k`.
pub struct CombinationIterator {
    items: Vec<(usize, usize)>,
    indices: Vec<usize>,
    k: usize,
    first: bool,
    exhausted: bool,
}

/// `a` precedes `b` in lexicographic order: they agree up to some position
/// where `a` is strictly smaller.
pub open spec fn pos_lex_lt(a: Seq<int>, b: Seq<int>) -> bool {
    exists|p: int|
        0 <= p < a.len() && p < b.len() && (forall|q: int| 0 <= q < p ==> a[q] == b[q]) && a[p]
            < b[p]
}

/// `c` is the subsequence of `items` picked by the strictly increasing
/// index sequence `idxs`.
pub open spec fn is_selection_by(
    c: Seq<(usize, usize)>,
    items: Seq<(usize, usize)>,
    idxs: Seq<int>,
) -> bool {
    &&& idxs.len() == c.len()
    &&& forall|t: int| 0 <= t < idxs.len() ==> 0 <= #[trigger] idxs[t] < items.len()
    &&& forall|t1: int, t2: int| 0 <= t1 < t2 < idxs.len() ==> idxs[t1] < idxs[t2]
    &&& forall|t: int| 0 <= t < c.len() ==> #[trigger] c[t] == items[idxs[t]]
}

/// `c` picks its elements from `items` at strictly increasing positions.
pub open spec fn is_selection(c: Seq<(usize, usize)>, items: Seq<(usize, usize)>) -> bool {
    exists|idxs: Seq<int>| is_selection_by(c, items, idxs)
}


/// Law: over a duplicate-free universe, different position vectors pick
/// different combinations — together with the strictly growing positions of
/// `next`, no combination is ever yielded twice.
pub proof fn lemma_distinct_positions_distinct_selection(
    c1: Seq<(usize, usize)>,
    c2: Seq<(usize, usize)>,
    items: Seq<(usize, usize)>,
    p1: Seq<int>,
    p2: Seq<int>,
)
    requires
        is_selection_by(c1, items, p1),
        is_selection_by(c2, items, p2),
        items.no_duplicates(),
        c1.len() == c2.len(),
        p1 != p2,
    ensures
        c1 != c2,
{
    if c1 == c2 {
        assert forall|t: int| 0 <= t < p1.len() implies #[trigger] p1[t] == p2[t] by {
            assert(c1[t] == items[p1[t]]);
            assert(c2[t] == items[p2[t]]);
            assert(c1[t] == c2[t]);
        }
        assert(p1 =~= p2);
    }
}

impl CombinationIterator {
    /// The iterator's well-formedness: while combinations remain, the index
    /// vector has length `k`, increases strictly, and leaves each index room
    /// to reach its maximum.
    pub closed spec fn wf(self) -> bool {
        !self.exhausted ==> {
            &&& self.indices@.len() == self.k
            &&& 1 <= self.k <= self.items@.len()
            &&& forall|t: int|
                0 <= t < self.k ==> #[trigger] self.indices@[t] + self.k <= self.items@.len() + t
            &&& forall|t1: int, t2: int|
                0 <= t1 < t2 < self.k ==> self.indices@[t1] < self.indices@[t2]
        }
    }

    /// How much of the enumeration is still ahead; every call of `next`
    /// that yields a combination makes it smaller.
    pub closed spec fn progress_measure(self) -> nat {
        if self.exhausted {
            0
        } else {
            2 * ((pow_len((self.items@.len() + 1) as nat, self.k as nat) - code_of(
                self.indices@,
                (self.items@.len() + 1) as nat,
            )) as nat) + (if self.first {
                1nat
            } else {
                0nat
            })
        }
    }

    pub closed spec fn spec_items(self) -> Seq<(usize, usize)> {
        self.items@
    }

    pub closed spec fn spec_k(self) -> usize {
        self.k
    }

    /// No combination is left.
    pub closed spec fn spec_exhausted(self) -> bool {
        self.exhausted
    }

    /// The current index vector, as positions into the universe.
    pub closed spec fn spec_positions(self) -> Seq<int> {
        self.indices@.map_values(|u: usize| u as int)
    }

    /// No combination has been yielded yet.
    pub closed spec fn spec_fresh(self) -> bool {
        self.first
    }

    /// A fresh enumeration of the size-`k` subsets of `items`; empty when
    /// `k` is zero or larger than the universe.
    pub fn new(items: Vec<(usize, usize)>, k: usize) -> (it: CombinationIterator)
        ensures
            it.wf(),
            it.spec_items() == items@,
            it.spec_k() == k,
            it.spec_exhausted() == (k == 0 || k > items@.len()),
            it.spec_fresh(),
            !it.spec_exhausted() ==> it.spec_positions() =~= Seq::new(k as nat, |t: int| t),
            !it.spec_exhausted() ==> wf_positions(
                it.spec_positions(),
                items@.len() as int,
                k as int,
            ),
    {
        if k == 0 || k > items.len() {
            CombinationIterator { items, indices: Vec::new(), k, first: true, exhausted: true }
        } else {
            let mut indices: Vec<usize> = Vec::new();
            for t in 0..k
                invariant
                    indices@.len() == t,
                    forall|q: int| 0 <= q < t ==> #[trigger] indices@[q] == q,
            {
                indices.push(t);
            }
            CombinationIterator { items, indices, k, first: true, exhausted: false }
        }
    }

    /// The combination at the current index vector.
    fn gather(&self) -> (c: Vec<(usize, usize)>)
        requires
            self.wf(),
            !self.exhausted,
        ensures
            c@.len() == self.spec_k(),
            is_selection_by(c@, self.spec_items(), self.spec_positions()),
            is_selection(c@, self.spec_items()),
    {
        let mut c: Vec<(usize, usize)> = Vec::new();
        for t in 0..self.k
            invariant
                self.wf(),
                !self.exhausted,
                c@.len() == t,
                forall|q: int| 0 <= q < t ==> #[trigger] c@[q] == self.items@[self.indices@[q] as int],
        {
            let idx = self.indices[t];
            c.push(self.items[idx]);
        }
        proof {
            let w = self.indices@.map_values(|u: usize| u as int);
            assert(is_selection_by(c@, self.items@, w));
        }
        c
    }

    /// The next combination in lexicographic order, or `None` once the
    /// enumeration is exhausted (after which it stays exhausted).
    pub fn next(&mut self) -> (r: Option<Vec<(usize, usize)>>)
        requires
            old(self).wf(),
        ensures
            final(self).wf(),
            final(self).spec_items() == old(self).spec_items(),
            final(self).spec_k() == old(self).spec_k(),
            r is Some ==> final(self).progress_measure() < old(self).progress_measure(),
            r is None ==> final(self).spec_exhausted(),
            old(self).spec_exhausted() ==> r is None && *final(self) == *old(self),
            final(self).progress_measure() <= old(self).progress_measure(),
            r matches Some(c) ==> c@.len() == old(self).spec_k() && is_selection_by(
                c@,
                old(self).spec_items(),
                final(self).spec_positions(),
            ) && is_selection(c@, old(self).spec_items()),
            r is Some ==> !final(self).spec_fresh() && (if old(self).spec_fresh() {
                final(self).spec_positions() == old(self).spec_positions()
            } else {
                pos_lex_lt(old(self).spec_positions(), final(self).spec_positions())
            }),
            old(self).spec_fresh() && !old(self).spec_exhausted() ==> r is Some,
            r is Some ==> !final(self).spec_exhausted(),
            !old(self).spec_exhausted() && !old(self).spec_fresh() && r is Some
                ==> is_position_successor(
                old(self).spec_positions(),
                final(self).spec_positions(),
                old(self).spec_items().len() as int,
                old(self).spec_k() as int,
            ),
            !old(self).spec_exhausted() && r is None ==> is_max_positions(
                old(self).spec_positions(),
                old(self).spec_items().len() as int,
                old(self).spec_k() as int,
            ) && final(self).spec_positions() == old(self).spec_positions(),
            !old(self).spec_exhausted() ==> wf_positions(
                old(self).spec_positions(),
                old(self).spec_items().len() as int,
                old(self).spec_k() as int,
            ),
            !final(self).spec_exhausted() ==> wf_positions(
                final(self).spec_positions(),
                final(self).spec_items().len() as int,
                final(self).spec_k() as int,
            ),
    {
        if self.exhausted {
            return None;
        }
        let ghost m = (self.items@.len() + 1) as nat;
        proof {
            assert forall|t: int| 0 <= t < self.indices@.len() implies #[trigger] self.indices@[t]
                < m by {
                assert(self.indices@[t] + self.k <= self.items@.len() + t);
            }
            lemma_code_bound(self.indices@, m);
            assert(wf_positions(
                self.spec_positions(),
                self.items@.len() as int,
                self.k as int,
            )) by {
                assert forall|q: int|
                    0 <= q < self.k implies 0 <= #[trigger] self.spec_positions()[q]
                    < self.items@.len() by {
                    assert(self.indices@[q] + self.k <= self.items@.len() + q);
                    assert(self.spec_positions()[q] == self.indices@[q] as int);
                }
                assert forall|q1: int, q2: int|
                    0 <= q1 < q2 < self.k implies self.spec_positions()[q1] < self.spec_positions()[
                q2] by {
                    assert(self.spec_positions()[q1] == self.indices@[q1] as int);
                    assert(self.spec_positions()[q2] == self.indices@[q2] as int);
                }
            }
        }
        if self.first {
            self.first = false;
            let combo = self.gather();
            return Some(combo);
        }
        let n = self.items.len();
        let k = self.k;
        let mut i: usize = k;
        let ghost s_old = self.indices@;
        proof {
            assert forall|t: int| 0 <= t < s_old.len() implies #[trigger] s_old[t] < m by {
                assert(self.indices@[t] + self.k <= self.items@.len() + t);
            }
        }
        while i > 0
            invariant
                i <= k,
                self.wf(),
                !self.exhausted,
                !self.first,
                self.k == k,
                k == old(self).spec_k(),
                self.items@ == old(self).spec_items(),
                self.items@.len() == n,
                self.indices@ == s_old,
                !old(self).first,
                !old(self).exhausted,
                old(self).indices@ == s_old,
                m == n + 1,
                s_old.len() == k,
                forall|t: int| 0 <= t < s_old.len() ==> #[trigger] s_old[t] < m,
                forall|t: int| i <= t < k ==> #[trigger] s_old[t] + k == n + t,
            decreases i,
        {
            i -= 1;
            if self.indices[i] < n - k + i {
                let base = self.indices[i] + 1;
                self.indices[i] = base;
                let mut q: usize = i + 1;
                while q < k
                    invariant
                        i < q <= k,
                        k == self.k,
                        k == old(self).spec_k(),
                        !self.first,
                        self.items@ == old(self).spec_items(),
                        n == self.items@.len(),
                        1 <= k <= n,
                        self.indices@.len() == k,
                        !self.exhausted,
                        self.items@.len() == n,
                        base == self.indices@[i as int],
                        base + k <= n + i + 1,
                        forall|t: int| 0 <= t < i ==> #[trigger] self.indices@[t] == s_old[t],
                        forall|t: int|
                            i <= t < q ==> #[trigger] self.indices@[t] == base + t - i,
                        forall|t: int|
                            q <= t < k ==> #[trigger] self.indices@[t] + k <= n + t,
                        forall|t1: int, t2: int|
                            0 <= t1 < t2 < i ==> self.indices@[t1] < self.indices@[t2],
                        forall|t1: int, t2: int|
                            0 <= t1 < t2 < i + 1 ==> self.indices@[t1] < self.indices@[t2],
                    decreases k - q,
                {
                    let w = self.indices[q - 1] + 1;
                    self.indices[q] = w;
                    q += 1;
                }
                proof {
                    assert forall|t1: int, t2: int|
                        0 <= t1 < t2 < k implies self.indices@[t1] < self.indices@[t2] by {
                        if t1 >= i && t2 > i {
                            assert(self.indices@[t1] == base + t1 - i);
                            assert(self.indices@[t2] == base + t2 - i);
                        } else if t1 < i && t2 >= i {
                            assert(s_old[t1] < s_old[i as int]);
                            assert(self.indices@[t2] >= base);
                        }
                    }
                    assert forall|t: int|
                        0 <= t < k implies #[trigger] self.indices@[t] + k <= n + t by {
                        if t >= i {
                            assert(self.indices@[t] == base + t - i);
                        }
                    }
                    assert forall|t: int| 0 <= t < self.indices@.len() implies #[trigger] self
                        .indices@[t] < m by {
                        assert(self.indices@[t] + k <= n + t);
                    }
                    lemma_code_bound(self.indices@, m);
                    lemma_code_lex(s_old, self.indices@, m, i as int);
                    assert(pos_lex_lt(
                        s_old.map_values(|u: usize| u as int),
                        self.indices@.map_values(|u: usize| u as int),
                    )) by {
                        let a = s_old.map_values(|u: usize| u as int);
                        let b = self.indices@.map_values(|u: usize| u as int);
                        assert(forall|q: int| 0 <= q < i ==> a[q] == b[q]);
                        assert(a[i as int] < b[i as int]);
                    }
                    assert(successor_at(
                        s_old.map_values(|u: usize| u as int),
                        self.indices@.map_values(|u: usize| u as int),
                        n as int,
                        k as int,
                        i as int,
                    )) by {
                        let a = s_old.map_values(|u: usize| u as int);
                        let bb = self.indices@.map_values(|u: usize| u as int);
                        assert(a[i as int] == s_old[i as int] as int);
                        assert(a[i as int] < n - k + i);
                        assert forall|q: int| i < q < k implies #[trigger] a[q] == n - k + q by {
                            assert(a[q] == s_old[q] as int);
                            assert(s_old[q] + k == n + q);
                        }
                        assert forall|q: int| 0 <= q < i implies #[trigger] bb[q] == a[q] by {
                            assert(bb[q] == self.indices@[q] as int);
                            assert(a[q] == s_old[q] as int);
                        }
                        assert(bb[i as int] == base as int);
                        assert forall|q: int| i < q < k implies #[trigger] bb[q] == a[i as int] + 1
                            + q - i by {
                            assert(bb[q] == self.indices@[q] as int);
                            assert(self.indices@[q] == base + q - i);
                        }
                    }
                    assert(wf_positions(
                        self.spec_positions(),
                        self.items@.len() as int,
                        self.k as int,
                    )) by {
                        assert forall|q: int|
                            0 <= q < self.k implies 0 <= #[trigger] self.spec_positions()[q]
                            < self.items@.len() by {
                            assert(self.indices@[q] + self.k <= self.items@.len() + q);
                            assert(self.spec_positions()[q] == self.indices@[q] as int);
                        }
                        assert forall|q1: int, q2: int|
                            0 <= q1 < q2 < self.k implies self.spec_positions()[q1]
                            < self.spec_positions()[q2] by {
                            assert(self.spec_positions()[q1] == self.indices@[q1] as int);
                            assert(self.spec_positions()[q2] == self.indices@[q2] as int);
                        }
                    }
                }
                let combo = self.gather();
                return Some(combo);
            }
        }
        proof {
            assert(is_max_positions(self.spec_positions(), n as int, k as int)) by {
                assert forall|q: int|
                    0 <= q < k implies #[trigger] self.spec_positions()[q] == n - k + q by {
                    assert(self.spec_positions()[q] == self.indices@[q] as int);
                    assert(s_old[q] + k == n + q);
                }
            }
        }
        self.exhausted = true;
        None
    }
}

} // verus!
