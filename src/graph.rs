use vstd::prelude::*;

verus! {

/// Every row of `m` has as many entries as `m` has rows.
pub open spec fn is_square(m: Seq<Seq<i64>>) -> bool {
    forall|i: int| 0 <= i < m.len() ==> (#[trigger] m[i]).len() == m.len()
}

/// Every index of `p` names a vertex below `n`.
pub open spec fn valid_indices(p: Seq<usize>, n: nat) -> bool {
    forall|i: int| 0 <= i < p.len() ==> (#[trigger] p[i]) < n
}

/// No vertex occurs twice in `p`.
pub open spec fn all_distinct(p: Seq<usize>) -> bool {
    forall|i: int, j: int| 0 <= i < j < p.len() ==> p[i] != p[j]
}

/// `p` visits each vertex of `0..n` exactly once.
pub open spec fn is_permutation(p: Seq<usize>, n: nat) -> bool {
    p.len() == n && valid_indices(p, n) && all_distinct(p)
}

/// `r` orders all vertices of `w`, and no order of them costs less.
pub open spec fn cheapest_order(w: Seq<Seq<i64>>, r: Seq<usize>) -> bool {
    &&& is_permutation(r, w.len())
    &&& forall|p: Seq<usize>| is_permutation(p, w.len()) ==> path_cost(w, r) <= #[trigger] path_cost(w, p)
}

/// The open-path cost of `p` under the weights `m`: the sum of the weights of
/// its consecutive pairs.
pub open spec fn path_cost(m: Seq<Seq<i64>>, p: Seq<usize>) -> int
    decreases p.len(),
{
    if p.len() < 2 {
        0
    } else {
        path_cost(m, p.drop_last()) + m[p[p.len() - 2] as int][p[p.len() - 1] as int] as int
    }
}

pub open spec fn path_cost_bound(len: nat) -> int {
    len * 0x8000_0000_0000_0000int
}

/// The cost of a path is bounded by its length times the largest magnitude of
/// an `i64`.
pub proof fn lemma_path_cost_bound(m: Seq<Seq<i64>>, p: Seq<usize>)
    ensures
        -path_cost_bound(p.len()) <= path_cost(m, p) <= path_cost_bound(p.len()),
    decreases p.len(),
{
    if p.len() >= 2 {
        lemma_path_cost_bound(m, p.drop_last());
    }
}

/// A sequence of distinct vertices below `n` that is shorter than `n` misses
/// one of them.
pub proof fn lemma_missing_vertex(p: Seq<usize>, n: nat) -> (v: usize)
    requires
        all_distinct(p),
        valid_indices(p, n),
        p.len() < n,
        n <= usize::MAX,
    ensures
        v < n,
        !p.contains(v),
{
    let q = p.map_values(|x: usize| x as int);
    assert(q.no_duplicates()) by {
        assert forall|i: int, j: int| 0 <= i < q.len() && 0 <= j < q.len() && i != j implies q[i] != q[j] by {
            if i < j {
                assert(p[i] != p[j]);
            } else {
                assert(p[j] != p[i]);
            }
        }
    }
    q.unique_seq_to_set();
    vstd::set_lib::lemma_int_range(0, n as int);
    let range = vstd::set_lib::set_int_range(0, n as int);
    if range.subset_of(q.to_set()) {
        vstd::seq_lib::seq_to_set_is_finite(q);
        vstd::set_lib::lemma_len_subset(range, q.to_set());
        assert(false);
    }
    let w = choose|w: int| range.contains(w) && !q.to_set().contains(w);
    assert(0 <= w < n);
    if p.contains(w as usize) {
        let i = choose|i: int| 0 <= i < p.len() && p[i] == w as usize;
        assert(q[i] == w);
        assert(q.to_set().contains(w));
    }
    w as usize
}

/// The cost of a path extended by one vertex.
pub proof fn lemma_path_cost_push(m: Seq<Seq<i64>>, p: Seq<usize>, v: usize)
    requires
        p.len() >= 1,
    ensures
        path_cost(m, p.push(v)) == path_cost(m, p) + m[p[p.len() - 1] as int][v as int],
{
    assert(p.push(v).drop_last() =~= p);
}

/// A sequence of `n` distinct vertices below `n` holds every vertex below `n`.
pub proof fn lemma_permutation_covers(p: Seq<usize>, n: nat, v: usize)
    requires
        is_permutation(p, n),
        v < n,
    ensures
        p.contains(v),
{
    if !p.contains(v) {
        let q = p.map_values(|x: usize| x as int);
        assert(q.no_duplicates()) by {
            assert forall|i: int, j: int| 0 <= i < q.len() && 0 <= j < q.len() && i != j implies q[i] != q[j] by {
                if i < j {
                    assert(p[i] != p[j]);
                } else {
                    assert(p[j] != p[i]);
                }
            }
        }
        q.unique_seq_to_set();
        vstd::set_lib::lemma_int_range(0, n as int);
        let range = vstd::set_lib::set_int_range(0, n as int).remove(v as int);
        assert(q.to_set().subset_of(range)) by {
            assert forall|w: int| q.to_set().contains(w) implies range.contains(w) by {
                let i = choose|i: int| 0 <= i < q.len() && q[i] == w;
                assert(p[i] < n);
                if w == v {
                    assert(p[i] == v);
                    assert(p.contains(v));
                }
            }
        }
        vstd::set_lib::lemma_len_subset(q.to_set(), range);
        assert(false);
    }
}

/// A sequence of distinct vertices below `n` has at most `n` entries.
pub proof fn lemma_distinct_len(p: Seq<usize>, n: nat)
    requires
        all_distinct(p),
        valid_indices(p, n),
    ensures
        p.len() <= n,
{
    if p.len() > n {
        let t = p.take(n as int);
        assert(is_permutation(t, n));
        lemma_permutation_covers(t, n, p[n as int]);
        let i = choose|i: int| 0 <= i < t.len() && t[i] == p[n as int];
        assert(p[i] == p[n as int]);
    }
}

/// A reordering of a permutation is a permutation.
pub proof fn lemma_reordered_permutation(p: Seq<usize>, r: Seq<usize>, n: nat)
    requires
        is_permutation(p, n),
        r.to_multiset() == p.to_multiset(),
    ensures
        is_permutation(r, n),
{
    broadcast use vstd::seq_lib::group_to_multiset_ensures, vstd::multiset::group_multiset_axioms;

    assert(p.no_duplicates()) by {
        assert forall|i: int, j: int| 0 <= i < p.len() && 0 <= j < p.len() && i != j implies p[i] != p[j] by {
            if i < j {
                assert(p[i] != p[j]);
            } else {
                assert(p[j] != p[i]);
            }
        }
    }
    p.lemma_multiset_has_no_duplicates();
    r.lemma_multiset_has_no_duplicates_conv();
    vstd::seq_lib::to_multiset_len(r);
    vstd::seq_lib::to_multiset_len(p);
    assert forall|i: int| 0 <= i < r.len() implies (#[trigger] r[i]) < n by {
        assert(r.contains(r[i]));
        assert(r.to_multiset().count(r[i]) > 0);
        assert(p.to_multiset().count(r[i]) > 0);
        assert(p.contains(r[i]));
    }
    assert forall|i: int, j: int| 0 <= i < j < r.len() implies r[i] != r[j] by {}
}

/// The edge between two vertices, by index.
#[derive(Clone, Copy, Debug, PartialEq, Eq, Structural)]
pub struct Edge(pub usize, pub usize);

impl Edge {
    pub fn new(from: usize, to: usize) -> (r: Edge)
        ensures
            r == Edge(from, to),
    {
        Edge(from, to)
    }
}

/// A weight of the graph, in fixed-point units.
#[derive(Clone, Copy, Debug, PartialEq, Eq, Structural, PartialOrd, Ord, Hash)]
pub struct Weight(pub i64);

impl Weight {
    pub fn new(value: i64) -> (r: Weight)
        ensures
            r.0 == value,
    {
        Weight(value)
    }

    pub fn into_inner(self) -> (r: i64)
        ensures
            r == self.0,
    {
        self.0
    }
}

/// A cost: a sum of weights, or a distance, in fixed-point units.
#[derive(Clone, Copy, Debug, PartialEq, Eq, Structural, PartialOrd, Ord, Hash)]
pub struct Cost(pub i128);

/// `r` is the square root of `s`, rounded down.
pub open spec fn is_floor_sqrt(r: int, s: int) -> bool {
    0 <= r && r * r <= s && s < (r + 1) * (r + 1)
}

/// The square root of `s`, rounded down.
pub open spec fn floor_sqrt(s: int) -> int {
    choose|r: int| is_floor_sqrt(r, s)
}

pub proof fn lemma_floor_sqrt_unique(r: int, s: int)
    requires
        is_floor_sqrt(r, s),
    ensures
        floor_sqrt(s) == r,
{
    assert(is_floor_sqrt(floor_sqrt(s), s));
    let q = floor_sqrt(s);
    if q < r {
        assert((q + 1) * (q + 1) <= r * r) by (nonlinear_arith)
            requires
                0 <= q < r,
        ;
    } else if r < q {
        assert((r + 1) * (r + 1) <= q * q) by (nonlinear_arith)
            requires
                0 <= r < q,
        ;
    }
}

/// The square root of `s` rounded down, by bisection.
pub fn isqrt(s: u128) -> (r: u64)
    ensures
        is_floor_sqrt(r as int, s as int),
        r as int == floor_sqrt(s as int),
{
    let mut lo: u128 = 0;
    let mut hi: u128 = 0x1_0000_0000_0000_0000;
    assert(hi * hi > s) by (nonlinear_arith)
        requires
            hi == 0x1_0000_0000_0000_0000u128,
            s <= u128::MAX,
    ;
    while hi - lo > 1
        invariant
            lo < hi <= 0x1_0000_0000_0000_0000u128,
            lo * lo <= s,
            s < hi * hi,
        decreases hi - lo,
    {
        let mid = lo + (hi - lo) / 2;
        assert(mid * mid < 0x1_0000_0000_0000_0000_0000_0000_0000_0000int) by (nonlinear_arith)
            requires
                mid < 0x1_0000_0000_0000_0000int,
                mid >= 0,
        ;
        if mid * mid <= s {
            lo = mid;
        } else {
            hi = mid;
        }
    }
    assert(hi == lo + 1);
    proof {
        lemma_floor_sqrt_unique(lo as int, s as int);
    }
    lo as u64
}

impl Cost {
    pub fn new(value: i128) -> (r: Cost)
        ensures
            r.0 == value,
    {
        Cost(value)
    }

    pub fn into_inner(self) -> (r: i128)
        ensures
            r == self.0,
    {
        self.0
    }

    /// The square root, rounded down.
    pub fn sqrt(self) -> (r: Cost)
        requires
            self.0 >= 0,
        ensures
            r.0 == floor_sqrt(self.0 as int),
    {
        Cost(isqrt(self.0 as u128) as i128)
    }
}

} // verus!
