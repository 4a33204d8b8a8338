use vstd::prelude::*;
use crate::create::{node_indices, send_path};
use crate::util::factorial_spec;
use crate::graph::{
    all_distinct, cheapest_order, is_permutation, is_square, lemma_distinct_len, lemma_missing_vertex,
    lemma_path_cost_bound, lemma_path_cost_push, lemma_permutation_covers, path_cost, valid_indices,
};
use crate::matrix::{
    lemma_mod_wrap, lemma_relabel_back, lemma_rotate_preserves_cost, relabel, relabel_path, rotated,
    Graph, Matrix,
};
use crate::path::Path;
use crate::step::{Progress, StepSink};

verus! {

/// `v` is a member of the vertex set `mask`.
pub open spec fn in_mask(mask: u32, v: int) -> bool {
    0 <= v < 32 && mask & (1u32 << (v as u32)) != 0
}

proof fn lemma_bit_remove(m: u32, k: u32, v: u32)
    requires
        k < 32,
        v < 32,
    ensures
        in_mask(m & !(1u32 << k), v as int) <==> (in_mask(m, v as int) && v != k),
{
    assert((m & !(1u32 << k)) & (1u32 << v) != 0 <==> (m & (1u32 << v) != 0 && v != k)) by (bit_vector)
        requires
            k < 32,
            v < 32,
    ;
}

proof fn lemma_bit_single(k: u32, v: u32)
    requires
        k < 32,
        v < 32,
    ensures
        in_mask(1u32 << k, v as int) <==> v == k,
{
    assert((1u32 << k) & (1u32 << v) != 0 <==> v == k) by (bit_vector)
        requires
            k < 32,
            v < 32,
    ;
}

proof fn lemma_bit_below(m: u32, n: u32, v: u32)
    requires
        n < 32,
        v < 32,
        m < (1u32 << n),
        in_mask(m, v as int),
    ensures
        v < n,
{
    assert(m & (1u32 << v) != 0 ==> v < n) by (bit_vector)
        requires
            n < 32,
            v < 32,
            m < (1u32 << n),
    ;
}

proof fn lemma_bit_full(n: u32, v: u32)
    requires
        2 <= n < 32,
        v < 32,
    ensures
        in_mask(((1u32 << n) - 2) as u32, v as int) <==> (1 <= v < n),
{
    assert((((1u32 << n) - 2) as u32) & (1u32 << v) != 0 <==> (1 <= v && v < n)) by (bit_vector)
        requires
            2 <= n < 32,
            v < 32,
    ;
}

proof fn lemma_bit_decrease(m: u32, k: u32)
    requires
        k < 32,
        in_mask(m, k as int),
    ensures
        (m & !(1u32 << k)) < m,
{
    assert(m & (1u32 << k) != 0 ==> (m & !(1u32 << k)) < m) by (bit_vector)
        requires
            k < 32,
    ;
}

proof fn lemma_bit_singleton(m: u32, k: u32)
    requires
        k < 32,
        in_mask(m, k as int),
        m & !(1u32 << k) == 0,
    ensures
        m == 1u32 << k,
{
    assert(m & (1u32 << k) != 0 && m & !(1u32 << k) == 0 ==> m == 1u32 << k) by (bit_vector)
        requires
            k < 32,
    ;
}

proof fn lemma_bit_zero_clear(m: u32, k: u32)
    requires
        k < 32,
        m & 1 == 0,
    ensures
        (m & !(1u32 << k)) & 1 == 0,
        !in_mask(m, 0),
{
    assert((m & !(1u32 << k)) & 1 == 0) by (bit_vector)
        requires
            m & 1 == 0,
    ;
    assert(m & (1u32 << 0u32) == 0) by (bit_vector)
        requires
            m & 1 == 0,
    ;
}

proof fn lemma_low_bits(x: u32, j: u64)
    requires
        j <= 32,
        forall|v: int| 0 <= v < j ==> !in_mask(x, v),
    ensures
        (x as u64) & ((1u64 << j) - 1) as u64 == 0,
    decreases j,
{
    if j > 0 {
        let i = (j - 1) as u64;
        lemma_low_bits(x, i);
        assert(!in_mask(x, i as int));
        let i32v = i as u32;
        assert(x & (1u32 << i32v) == 0);
        assert((x as u64) & ((1u64 << i) - 1) as u64 == 0 && x & (1u32 << i32v) == 0 && i < 32 && i32v == i
            ==> (x as u64) & ((1u64 << (i + 1) as u64) - 1) as u64 == 0) by (bit_vector);
    } else {
        assert((x as u64) & ((1u64 << 0u64) - 1) as u64 == 0) by (bit_vector);
    }
}

/// A non-empty vertex set has a member.
proof fn lemma_nonempty_member(x: u32) -> (v: int)
    requires
        x != 0,
    ensures
        in_mask(x, v),
{
    if forall|v: int| 0 <= v < 32 ==> !in_mask(x, v) {
        lemma_low_bits(x, 32);
        assert((x as u64) & ((1u64 << 32u64) - 1) as u64 == 0 ==> x == 0) by (bit_vector);
        assert(false);
    }
    choose|v: int| 0 <= v < 32 && in_mask(x, v)
}

/// Marks a predecessor that was never set.
const UNSET: u8 = 0xCD;

/// Marks a subset whose predecessor search found nothing.
const NOT_FOUND: u8 = 0xCC;

/// A cost that was never set.
const NO_COST: i128 = i128::MAX;

/// `q` starts at 0, visits no vertex twice, ends at `k`, and its vertices
/// after the first are exactly the members of `mask`.
pub open spec fn tour_of(q: Seq<usize>, mask: u32, k: int) -> bool {
    &&& q.len() >= 2
    &&& q[0] == 0
    &&& q[q.len() - 1] == k
    &&& all_distinct(q)
    &&& forall|i: int| 1 <= i < q.len() ==> in_mask(mask, #[trigger] q[i] as int)
    &&& forall|v: int| #[trigger] in_mask(mask, v) ==> q.contains(v as usize)
}

/// The rows of a predecessor table as sequences.
pub open spec fn rows_u8(t: Seq<Vec<u8>>) -> Seq<Seq<u8>> {
    t.map_values(|r: Vec<u8>| r@)
}

/// The rows of a cost table as sequences.
pub open spec fn rows_i128(t: Seq<Vec<i128>>) -> Seq<Seq<i128>> {
    t.map_values(|r: Vec<i128>| r@)
}

/// The path that the predecessor table gives for the set `r` ending at `k`.
pub open spec fn recon(prev: Seq<Seq<u8>>, r: u32, k: int) -> Seq<usize>
    decreases r,
{
    if 0 <= k < 32 {
        let sub = r & !(1u32 << (k as u32));
        if sub != 0 && sub < r && (r as int) < prev.len() && k < prev[r as int].len() {
            recon(prev, sub, prev[r as int][k] as int).push(k as usize)
        } else {
            seq![0usize, k as usize]
        }
    } else {
        seq![0usize, k as usize]
    }
}

/// The entry for the set `r` ending at `k` holds the least cost of a tour of
/// `r` that ends at `k`, and the predecessor table leads to such a tour.
pub open spec fn entry_good(w: Seq<Seq<i64>>, cost: Seq<Seq<i128>>, prev: Seq<Seq<u8>>, r: u32, k: int) -> bool {
    &&& tour_of(recon(prev, r, k), r, k)
    &&& path_cost(w, recon(prev, r, k)) == cost[r as int][k]
    &&& forall|q: Seq<usize>| #[trigger] tour_of(q, r, k) ==> cost[r as int][k] <= path_cost(w, q)
}

/// Every entry of the first `done` rows of the tables that stands for a set
/// without vertex 0 and with its end vertex is good.
pub open spec fn table_good(w: Seq<Seq<i64>>, cost: Seq<Seq<i128>>, prev: Seq<Seq<u8>>, done: int, n: int) -> bool {
    forall|r: u32, k: int|
        (r as int) < done && 1 <= k < n && r & 1 == 0 && #[trigger] in_mask(r, k) ==> entry_good(w, cost, prev, r, k)
}

proof fn lemma_recon_stable(prev: Seq<Seq<u8>>, row: Seq<u8>, r: u32, k: int)
    requires
        (r as int) < prev.len(),
    ensures
        recon(prev.push(row), r, k) == recon(prev, r, k),
    decreases r,
{
    if 0 <= k < 32 {
        let sub = r & !(1u32 << (k as u32));
        assert(prev.push(row)[r as int] == prev[r as int]);
        if sub != 0 && sub < r && k < prev[r as int].len() {
            lemma_recon_stable(prev, row, sub, prev[r as int][k] as int);
        }
    }
}

proof fn lemma_remove_equiv(mask: u32, k: int)
    requires
        0 <= k < 32,
    ensures
        forall|v: int| #[trigger] in_mask(mask & !(1u32 << (k as u32)), v) <==> (in_mask(mask, v) && v != k),
{
    assert forall|v: int| #[trigger] in_mask(mask & !(1u32 << (k as u32)), v) <==> (in_mask(mask, v) && v != k) by {
        if 0 <= v < 32 {
            lemma_bit_remove(mask, k as u32, v as u32);
        }
    }
}

proof fn lemma_tour_valid(q: Seq<usize>, mask: u32, k: int)
    requires
        tour_of(q, mask, k),
    ensures
        valid_indices(q, 32),
        q.len() <= 32,
{
    assert forall|i: int| 0 <= i < q.len() implies (#[trigger] q[i]) < 32 by {
        if i >= 1 {
            assert(in_mask(mask, q[i] as int));
        }
    }
    lemma_distinct_len(q, 32);
}

proof fn lemma_tour_extend(q: Seq<usize>, sub: u32, mask: u32, m: int, k: int)
    requires
        tour_of(q, sub, m),
        1 <= k < 32,
        in_mask(mask, k),
        forall|v: int| #[trigger] in_mask(sub, v) <==> (in_mask(mask, v) && v != k),
    ensures
        tour_of(q.push(k as usize), mask, k),
{
    let t = q.push(k as usize);
    assert(!q.contains(k as usize)) by {
        if q.contains(k as usize) {
            let i = choose|i: int| 0 <= i < q.len() && q[i] == k as usize;
            if i >= 1 {
                assert(in_mask(sub, q[i] as int));
            }
        }
    }
    assert forall|a: int, b: int| 0 <= a < b < t.len() implies t[a] != t[b] by {
        if b == q.len() {
            assert(q.contains(q[a]));
        }
    }
    assert forall|i: int| 1 <= i < t.len() implies in_mask(mask, #[trigger] t[i] as int) by {
        if i < q.len() {
            assert(in_mask(sub, q[i] as int));
        }
    }
    assert forall|v: int| #[trigger] in_mask(mask, v) implies t.contains(v as usize) by {
        if v == k {
            assert(t[q.len() as int] == k as usize);
        } else {
            assert(in_mask(sub, v));
            let i = choose|i: int| 0 <= i < q.len() && q[i] == v as usize;
            assert(t[i] == v as usize);
        }
    }
}

proof fn lemma_tour_shrink(q: Seq<usize>, mask: u32, sub: u32, k: int)
    requires
        tour_of(q, mask, k),
        q.len() >= 3,
        forall|v: int| #[trigger] in_mask(sub, v) <==> (in_mask(mask, v) && v != k),
    ensures
        tour_of(q.drop_last(), sub, q[q.len() - 2] as int),
        q[q.len() - 2] != 0,
        q[q.len() - 2] != k,
        in_mask(sub, q[q.len() - 2] as int),
        q.drop_last().push(q[q.len() - 1]) == q,
{
    let t = q.drop_last();
    let m = q[q.len() - 2];
    assert(q[0] != m);
    assert(m != q[q.len() - 1]);
    assert(in_mask(mask, m as int));
    assert forall|i: int| 1 <= i < t.len() implies in_mask(sub, #[trigger] t[i] as int) by {
        assert(in_mask(mask, q[i] as int));
        assert(q[i] != q[q.len() - 1]);
    }
    assert forall|v: int| #[trigger] in_mask(sub, v) implies t.contains(v as usize) by {
        assert(in_mask(mask, v));
        let i = choose|i: int| 0 <= i < q.len() && q[i] == v as usize;
        assert(i != q.len() - 1);
        assert(t[i] == v as usize);
    }
    assert(t.push(q[q.len() - 1]) =~= q);
}

proof fn lemma_tour_singleton(q: Seq<usize>, mask: u32, k: int)
    requires
        tour_of(q, mask, k),
        forall|v: int| #[trigger] in_mask(mask, v) ==> v == k,
    ensures
        q == seq![0usize, k as usize],
{
    if q.len() >= 3 {
        assert(in_mask(mask, q[1] as int));
        assert(in_mask(mask, q[2] as int));
        assert(q[1] != q[2]);
    }
    assert(q =~= seq![0usize, k as usize]);
}

/// A tour of a non-empty set without `k` visits at least three vertices.
proof fn lemma_tour_long(q: Seq<usize>, mask: u32, k: int, v: int)
    requires
        tour_of(q, mask, k),
        in_mask(mask, v),
        v != k,
        v != 0,
    ensures
        q.len() >= 3,
{
    let i = choose|i: int| 0 <= i < q.len() && q[i] == v as usize;
    assert(i != 0 && i != q.len() - 1);
}

/// The path that the entry `(c, p)` for the set `mask` ending at `k` stands
/// for, given the rows before it.
pub open spec fn entry_path(prev: Seq<Seq<u8>>, mask: u32, k: int, p: int) -> Seq<usize> {
    let sub = mask & !(1u32 << (k as u32));
    if sub == 0 {
        seq![0usize, k as usize]
    } else {
        recon(prev, sub, p).push(k as usize)
    }
}

/// The entry `(c, p)` for the set `mask` ending at `k` is right: its path is a
/// tour of `mask` ending at `k` that costs `c`, and no such tour costs less.
pub open spec fn entry_ok(w: Seq<Seq<i64>>, prev: Seq<Seq<u8>>, mask: u32, k: int, c: i128, p: int) -> bool {
    &&& tour_of(entry_path(prev, mask, k, p), mask, k)
    &&& path_cost(w, entry_path(prev, mask, k, p)) == c
    &&& forall|q: Seq<usize>| #[trigger] tour_of(q, mask, k) ==> c <= path_cost(w, q)
}

proof fn lemma_zero_mask(v: int)
    ensures
        !in_mask(0u32, v),
{
    if 0 <= v < 32 {
        let x = v as u32;
        assert(0u32 & (1u32 << x) == 0) by (bit_vector);
    }
}

/// The entry of the table for the set `mask` ending at `k`.
fn dp_entry(
    local: &Matrix,
    n: usize,
    mask: u32,
    k: usize,
    cost: &Vec<Vec<i128>>,
    prev: &Vec<Vec<u8>>,
) -> (r: (i128, u8))
    requires
        local.wf(),
        n == local@.len(),
        2 <= n < 32,
        1 <= k < n,
        mask & 1 == 0,
        in_mask(mask, k as int),
        cost.len() == mask,
        prev.len() == mask,
        mask < (1u32 << (n as u32)),
        forall|i: int| 0 <= i < mask ==> (#[trigger] cost@[i]).len() == n,
        forall|i: int| 0 <= i < mask ==> (#[trigger] prev@[i]).len() == n,
        table_good(local@, rows_i128(cost@), rows_u8(prev@), mask as int, n as int),
    ensures
        entry_ok(local@, rows_u8(prev@), mask, k as int, r.0, r.1 as int),
{
    let ghost w = local@;
    let ghost cv = rows_i128(cost@);
    let ghost pv = rows_u8(prev@);
    let bit: u32 = 1u32 << (k as u32);
    let sub: u32 = mask & !bit;
    proof {
        lemma_remove_equiv(mask, k as int);
        lemma_bit_zero_clear(mask, k as u32);
    }
    if sub == 0 {
        let c = local.get(0, k) as i128;
        proof {
            let path = seq![0usize, k as usize];
            assert(entry_path(pv, mask, k as int, 0) == path);
            assert forall|v: int| #[trigger] in_mask(mask, v) implies v == k by {
                lemma_zero_mask(v);
            }
            assert(path.drop_last() =~= seq![0usize]);
            assert(path_cost(w, path.drop_last()) == 0);
            assert(path_cost(w, path) == w[0][k as int]);
            assert(path[1] == k);
            assert forall|v: int| #[trigger] in_mask(mask, v) implies path.contains(v as usize) by {
                assert(path[1] == v as usize);
            }
            assert(tour_of(path, mask, k as int));
            assert forall|q: Seq<usize>| #[trigger] tour_of(q, mask, k as int) implies c <= path_cost(w, q) by {
                lemma_tour_singleton(q, mask, k as int);
            }
        }
        return (c, 0);
    }
    proof {
        lemma_bit_decrease(mask, k as u32);
    }
    let mut best: Option<(i128, usize)> = None;
    let mut m: usize = 1;
    while m < n
        invariant
            local.wf(),
            w == local@,
            n == local@.len(),
            2 <= n < 32,
            1 <= k < n,
            cost.len() == mask,
            sub < mask,
            sub & 1 == 0,
            cv == rows_i128(cost@),
            pv == rows_u8(prev@),
            forall|i: int| 0 <= i < mask ==> (#[trigger] cost@[i]).len() == n,
            table_good(w, cv, pv, mask as int, n as int),
            forall|v: int| #[trigger] in_mask(sub, v) <==> (in_mask(mask, v) && v != k),
            1 <= m <= n,
            best matches Some((c, pm)) ==> 1 <= pm < n && in_mask(sub, pm as int) && c == cv[sub as int][pm as int]
                + w[pm as int][k as int],
            forall|x: int|
                1 <= x < m && #[trigger] in_mask(sub, x) ==> (best matches Some((c, pm)) && c <= cv[sub as int][x]
                    + w[x][k as int]),
        decreases n - m,
    {
        let mbit: u32 = 1u32 << (m as u32);
        if sub & mbit != 0 {
            proof {
                assert(in_mask(sub, m as int));
                assert(entry_good(w, cv, pv, sub, m as int));
                lemma_tour_valid(recon(pv, sub, m as int), sub, m as int);
                lemma_path_cost_bound(w, recon(pv, sub, m as int));
                assert(cv[sub as int][m as int] == cost@[sub as int]@[m as int]);
            }
            let value = cost[sub as usize][m] + local.get(m, k) as i128;
            let better = match best {
                None => true,
                Some((c, _)) => value <= c,
            };
            if better {
                best = Some((value, m));
            }
        }
        m += 1;
    }
    let ghost member = lemma_nonempty_member(sub);
    proof {
        lemma_bit_zero_clear(sub, 0);
        assert(member != 0);
        lemma_bit_below(sub, n as u32, member as u32);
        assert(in_mask(sub, member));
    }
    match best {
        Some((c, pm)) => {
            proof {
                let inner = recon(pv, sub, pm as int);
                assert(entry_good(w, cv, pv, sub, pm as int));
                lemma_tour_extend(inner, sub, mask, pm as int, k as int);
                lemma_path_cost_push(w, inner, k);
                assert(entry_path(pv, mask, k as int, pm as u8 as int) == inner.push(k));
                assert forall|q: Seq<usize>| #[trigger] tour_of(q, mask, k as int) implies c <= path_cost(w, q) by {
                    lemma_tour_long(q, mask, k as int, member);
                    lemma_tour_shrink(q, mask, sub, k as int);
                    let x = q[q.len() - 2] as int;
                    lemma_bit_below(sub, n as u32, x as u32);
                    assert(entry_good(w, cv, pv, sub, x));
                    assert(tour_of(q.drop_last(), sub, x));
                    lemma_path_cost_push(w, q.drop_last(), k);
                }
            }
            (c, pm as u8)
        },
        None => {
            proof {
                assert(false);
            }
            (NO_COST, NOT_FOUND)
        },
    }
}

/// One row of the table, for the set `mask`: an entry for every end vertex.
fn dp_row(
    local: &Matrix,
    n: usize,
    mask: u32,
    cost: &Vec<Vec<i128>>,
    prev: &Vec<Vec<u8>>,
) -> (r: (Vec<i128>, Vec<u8>))
    requires
        local.wf(),
        n == local@.len(),
        2 <= n < 32,
        cost.len() == mask,
        prev.len() == mask,
        mask < (1u32 << (n as u32)),
        forall|i: int| 0 <= i < mask ==> (#[trigger] cost@[i]).len() == n,
        forall|i: int| 0 <= i < mask ==> (#[trigger] prev@[i]).len() == n,
        table_good(local@, rows_i128(cost@), rows_u8(prev@), mask as int, n as int),
    ensures
        r.0.len() == n,
        r.1.len() == n,
        forall|k: int|
            1 <= k < n && mask & 1 == 0 && #[trigger] in_mask(mask, k) ==> entry_ok(
                local@,
                rows_u8(prev@),
                mask,
                k,
                r.0@[k],
                r.1@[k] as int,
            ),
{
    let mut row: Vec<i128> = Vec::new();
    let mut row_prev: Vec<u8> = Vec::new();
    let mut k: usize = 0;
    while k < n
        invariant
            local.wf(),
            n == local@.len(),
            2 <= n < 32,
            cost.len() == mask,
            prev.len() == mask,
            mask < (1u32 << (n as u32)),
            forall|i: int| 0 <= i < mask ==> (#[trigger] cost@[i]).len() == n,
            forall|i: int| 0 <= i < mask ==> (#[trigger] prev@[i]).len() == n,
            table_good(local@, rows_i128(cost@), rows_u8(prev@), mask as int, n as int),
            0 <= k <= n,
            row.len() == k,
            row_prev.len() == k,
            forall|j: int|
                1 <= j < k && mask & 1 == 0 && #[trigger] in_mask(mask, j) ==> entry_ok(
                    local@,
                    rows_u8(prev@),
                    mask,
                    j,
                    row@[j],
                    row_prev@[j] as int,
                ),
        decreases n - k,
    {
        let bit: u32 = 1u32 << (k as u32);
        if mask & 1 != 0 || k == 0 || mask & bit == 0 {
            row.push(NO_COST);
            row_prev.push(UNSET);
        } else {
            let (c, p) = dp_entry(local, n, mask, k, cost, prev);
            row.push(c);
            row_prev.push(p);
        }
        k += 1;
    }
    (row, row_prev)
}

/// Adding a row keeps every entry of the earlier rows good, and makes the
/// new row's right entries good.
proof fn lemma_table_grows(
    w: Seq<Seq<i64>>,
    cost: Seq<Seq<i128>>,
    prev: Seq<Seq<u8>>,
    row: Seq<i128>,
    row_prev: Seq<u8>,
    mask: u32,
    n: int,
)
    requires
        cost.len() == mask,
        prev.len() == mask,
        row.len() == n,
        row_prev.len() == n,
        2 <= n < 32,
        table_good(w, cost, prev, mask as int, n),
        forall|k: int|
            1 <= k < n && mask & 1 == 0 && #[trigger] in_mask(mask, k) ==> entry_ok(w, prev, mask, k, row[k], row_prev[k] as int),
    ensures
        table_good(w, cost.push(row), prev.push(row_prev), mask as int + 1, n),
{
    let c2 = cost.push(row);
    let p2 = prev.push(row_prev);
    assert forall|r: u32, k: int|
        (r as int) < mask + 1 && 1 <= k < n && r & 1 == 0 && #[trigger] in_mask(r, k) implies entry_good(w, c2, p2, r, k) by {
        if (r as int) < mask {
            assert(entry_good(w, cost, prev, r, k));
            lemma_recon_stable(prev, row_prev, r, k);
            assert(c2[r as int] == cost[r as int]);
        } else {
            assert(r == mask);
            assert(entry_ok(w, prev, mask, k, row[k], row_prev[k] as int));
            let sub = mask & !(1u32 << (k as u32));
            assert(p2[mask as int] == row_prev);
            if sub != 0 {
                lemma_bit_decrease(mask, k as u32);
                lemma_recon_stable(prev, row_prev, sub, row_prev[k] as int);
            }
            assert(recon(p2, mask, k) == entry_path(prev, mask, k, row_prev[k] as int));
            assert(c2[mask as int][k] == row[k]);
        }
    }
}

/// Reads the path for the set `r` ending at `k` back through the
/// predecessor table.
fn rebuild(prev: &Vec<Vec<u8>>, r: u32, k: usize) -> (out: Vec<usize>)
    ensures
        out@ == recon(rows_u8(prev@), r, k as int),
    decreases r,
{
    let mut base: Vec<usize> = Vec::new();
    base.push(0);
    base.push(k);
    assert(base@ =~= seq![0usize, k]);
    if k < 32 {
        let sub = r & !(1u32 << (k as u32));
        if sub != 0 && sub < r && (r as usize) < prev.len() && k < prev[r as usize].len() {
            assert(rows_u8(prev@)[r as int] == prev@[r as int]@);
            let mut out = rebuild(prev, sub, prev[r as usize][k] as usize);
            out.push(k);
            return out;
        }
    }
    base
}

/// A tour of every vertex but 0 is a permutation.
proof fn lemma_full_tour_perm(q: Seq<usize>, n: nat, k: int)
    requires
        2 <= n < 32,
        tour_of(q, ((1u32 << (n as u32)) - 2) as u32, k),
    ensures
        is_permutation(q, n),
{
    let full = ((1u32 << (n as u32)) - 2) as u32;
    assert forall|i: int| 0 <= i < q.len() implies (#[trigger] q[i]) < n by {
        if i >= 1 {
            assert(in_mask(full, q[i] as int));
            lemma_bit_full(n as u32, q[i] as u32);
        }
    }
    lemma_distinct_len(q, n);
    if q.len() < n {
        let v = lemma_missing_vertex(q, n);
        if v == 0 {
            assert(q.contains(0usize)) by {
                assert(q[0] == 0);
            }
        } else {
            lemma_bit_full(n as u32, v as u32);
            assert(in_mask(full, v as int));
        }
    }
}

/// A permutation that starts at 0 is a tour of every other vertex.
proof fn lemma_perm_tour(q: Seq<usize>, n: nat)
    requires
        2 <= n < 32,
        is_permutation(q, n),
        q[0] == 0,
    ensures
        tour_of(q, ((1u32 << (n as u32)) - 2) as u32, q[q.len() - 1] as int),
{
    let full = ((1u32 << (n as u32)) - 2) as u32;
    assert forall|i: int| 1 <= i < q.len() implies in_mask(full, #[trigger] q[i] as int) by {
        assert(q[i] != q[0]);
        lemma_bit_full(n as u32, q[i] as u32);
    }
    assert forall|v: int| #[trigger] in_mask(full, v) implies q.contains(v as usize) by {
        lemma_bit_full(n as u32, v as u32);
        lemma_permutation_covers(q, n, v as usize);
    }
}

/// The cheapest open path from vertex 0 under `local`: a permutation that
/// starts at 0 and that no other such permutation beats.
fn held_karp_from_zero(local: &Matrix, n: usize) -> (r: Vec<usize>)
    requires
        local.wf(),
        n == local@.len(),
        2 <= n < 32,
    ensures
        is_permutation(r@, n as nat),
        r@[0] == 0,
        forall|q: Seq<usize>|
            is_permutation(q, n as nat) && q[0] == 0 ==> path_cost(local@, r@) <= #[trigger] path_cost(local@, q),
{
    let ghost w = local@;
    let rows: u32 = 1u32 << (n as u32);
    let nn: u32 = n as u32;
    assert(rows >= 4) by (bit_vector)
        requires
            rows == 1u32 << nn,
            2 <= nn < 32,
    ;
    let mut cost: Vec<Vec<i128>> = Vec::new();
    let mut prev: Vec<Vec<u8>> = Vec::new();
    let mut mask: u32 = 0;
    while mask < rows
        invariant
            local.wf(),
            w == local@,
            n == local@.len(),
            2 <= n < 32,
            rows == 1u32 << (n as u32),
            cost.len() == mask,
            prev.len() == mask,
            mask <= rows,
            forall|i: int| 0 <= i < mask ==> (#[trigger] cost@[i]).len() == n,
            forall|i: int| 0 <= i < mask ==> (#[trigger] prev@[i]).len() == n,
            table_good(w, rows_i128(cost@), rows_u8(prev@), mask as int, n as int),
        decreases rows - mask,
    {
        let (row, row_prev) = dp_row(local, n, mask, &cost, &prev);
        proof {
            lemma_table_grows(w, rows_i128(cost@), rows_u8(prev@), row@, row_prev@, mask, n as int);
        }
        let ghost c0 = cost@;
        let ghost p0 = prev@;
        cost.push(row);
        prev.push(row_prev);
        proof {
            assert(rows_i128(cost@) =~= rows_i128(c0).push(row@));
            assert(rows_u8(prev@) =~= rows_u8(p0).push(row_prev@));
        }
        mask += 1;
    }
    let ghost cv = rows_i128(cost@);
    let ghost pv = rows_u8(prev@);
    let full: u32 = rows - 2;
    proof {
        assert(full & 1 == 0) by (bit_vector)
            requires
                full == ((1u32 << nn) - 2) as u32,
                2 <= nn < 32,
        ;
        assert(full == ((1u32 << (n as u32)) - 2) as u32);
    }
    let mut best_k: usize = 1;
    proof {
        lemma_bit_full(n as u32, 1);
        assert(entry_good(w, cv, pv, full, 1));
        assert(cv[full as int][1] == cost@[full as int]@[1]);
    }
    let mut best_cost: i128 = cost[full as usize][1];
    let mut k: usize = 2;
    while k < n
        invariant
            n == local@.len(),
            2 <= n < 32,
            cost.len() == rows,
            full < rows,
            cv == rows_i128(cost@),
            forall|i: int| 0 <= i < rows ==> (#[trigger] cost@[i]).len() == n,
            2 <= k <= n,
            1 <= best_k < n,
            best_cost == cv[full as int][best_k as int],
            forall|x: int| 1 <= x < k ==> best_cost <= #[trigger] cv[full as int][x],
        decreases n - k,
    {
        assert(cv[full as int][k as int] == cost@[full as int]@[k as int]);
        let c = cost[full as usize][k];
        if c < best_cost {
            best_cost = c;
            best_k = k;
        }
        k += 1;
    }
    let path = rebuild(&prev, full, best_k);
    proof {
        lemma_bit_full(n as u32, best_k as u32);
        assert(entry_good(w, cv, pv, full, best_k as int));
        lemma_full_tour_perm(path@, n as nat, best_k as int);
        assert forall|q: Seq<usize>|
            is_permutation(q, n as nat) && q[0] == 0 implies path_cost(w, path@) <= #[trigger] path_cost(w, q) by {
            lemma_perm_tour(q, n as nat);
            let last = q[q.len() - 1] as int;
            assert(q[q.len() - 1] != q[0]);
            lemma_bit_full(n as u32, last as u32);
            assert(entry_good(w, cv, pv, full, last));
        }
    }
    path
}

/// `p` with each vertex `v` relabelled as `(v + s) mod n`.
pub open spec fn shift_path(p: Seq<usize>, s: int, n: int) -> Seq<usize> {
    p.map_values(|v: usize| ((v + s) % n) as usize)
}

proof fn lemma_shift_cost(m: Seq<Seq<i64>>, s: int, p: Seq<usize>)
    requires
        is_square(m),
        m.len() <= usize::MAX,
        0 <= s < m.len(),
        valid_indices(p, m.len()),
    ensures
        path_cost(m, shift_path(p, s, m.len() as int)) == path_cost(rotated(m, s), p),
    decreases p.len(),
{
    let n = m.len() as int;
    let q = shift_path(p, s, n);
    if p.len() >= 2 {
        assert(shift_path(p.drop_last(), s, n) =~= q.drop_last());
        lemma_shift_cost(m, s, p.drop_last());
        let a = p[p.len() - 2] as int;
        let b = p[p.len() - 1] as int;
        lemma_mod_wrap(a + s, n);
        lemma_mod_wrap(b + s, n);
        assert(q[q.len() - 2] as int == (a + s) % n);
        assert(q[q.len() - 1] as int == (b + s) % n);
        assert(rotated(m, s)[a] == Seq::new(m.len(), |j: int| m[(a + s) % n][(j + s) % n]));
    }
}

proof fn lemma_shift_perm(p: Seq<usize>, s: int, n: nat)
    requires
        is_permutation(p, n),
        0 <= s < n,
        n <= usize::MAX,
    ensures
        is_permutation(shift_path(p, s, n as int), n),
{
    let q = shift_path(p, s, n as int);
    assert forall|i: int| 0 <= i < q.len() implies (#[trigger] q[i]) < n by {
        lemma_mod_wrap(p[i] + s, n as int);
    }
    assert forall|i: int, j: int| 0 <= i < j < q.len() implies q[i] != q[j] by {
        lemma_mod_wrap(p[i] + s, n as int);
        lemma_mod_wrap(p[j] + s, n as int);
        assert(p[i] != p[j]);
    }
}

proof fn lemma_relabel_perm(p: Seq<usize>, s: int, n: nat)
    requires
        is_permutation(p, n),
        0 <= s < n,
        n <= usize::MAX,
        p[0] == s,
    ensures
        is_permutation(relabel_path(p, s, n as int), n),
        relabel_path(p, s, n as int)[0] == 0,
{
    let q = relabel_path(p, s, n as int);
    assert forall|i: int| 0 <= i < q.len() implies (#[trigger] q[i]) < n by {
        lemma_relabel_back(p[i] as int, s, n as int);
    }
    assert forall|i: int, j: int| 0 <= i < j < q.len() implies q[i] != q[j] by {
        lemma_relabel_back(p[i] as int, s, n as int);
        lemma_relabel_back(p[j] as int, s, n as int);
        assert(p[i] != p[j]);
    }
    lemma_relabel_back(s, s, n as int);
    assert(q[0] == relabel(p[0], s, n as int));
    vstd::arithmetic::div_mod::lemma_small_mod(0, n);
    assert((s - s) % (n as int) == 0);
}

/// Held–Karp: for each start vertex `s`, the graph is relabelled so that `s`
/// becomes 0 and the cheapest open path from 0 is found by dynamic
/// programming over subsets; the cheapest of these paths, relabelled back by
/// `i -> (i + s) mod n`, is the result. No order of the vertices costs less.
pub fn held_karp<S: StepSink>(graph: &Graph, sink: &mut S) -> (r: Path)
    requires
        graph.wf(),
        graph.weights().len() < 32,
    ensures
        cheapest_order(graph.weights(), r@),
{
    let n = graph.size();
    let ghost w = graph.weights();
    if n < 2 {
        let r = node_indices(n);
        assert forall|p: Seq<usize>| is_permutation(p, n as nat) implies path_cost(w, r@) <= #[trigger] path_cost(w, p) by {}
        return Path::new(r);
    }
    let mut global_best: Vec<usize> = node_indices(n);
    let mut global_cost: i128 = graph.dist_path(&global_best);
    let mut start_point: usize = 0;
    while start_point < n
        invariant
            graph.wf(),
            w == graph.weights(),
            n == w.len(),
            2 <= n < 32,
            0 <= start_point <= n,
            is_permutation(global_best@, n as nat),
            global_cost == path_cost(w, global_best@),
            forall|p: Seq<usize>|
                is_permutation(p, n as nat) && p[0] < start_point ==> global_cost <= #[trigger] path_cost(w, p),
        decreases n - start_point,
    {
        let local = graph.matrix.rotated_copy(start_point);
        let local_path = held_karp_from_zero(&local, n);
        let mut path: Vec<usize> = Vec::new();
        let mut i: usize = 0;
        while i < local_path.len()
            invariant
                2 <= n < 32,
                start_point < n,
                is_permutation(local_path@, n as nat),
                0 <= i <= local_path.len(),
                path@ == shift_path(local_path@.take(i as int), start_point as int, n as int),
            decreases local_path.len() - i,
        {
            let v = local_path[i] % n + start_point;
            let ghost before = path@;
            proof {
                lemma_mod_wrap(local_path@[i as int] + start_point, n as int);
                assert(local_path@[i as int] < n);
                vstd::arithmetic::div_mod::lemma_small_mod(local_path@[i as int] as nat, n as nat);
            }
            let x = if v >= n { v - n } else { v };
            assert(x as int == (local_path@[i as int] + start_point) % (n as int));
            path.push(x);
            i += 1;
            proof {
                let target = shift_path(local_path@.take(i as int), start_point as int, n as int);
                assert(target.drop_last() =~= shift_path(local_path@.take(i - 1), start_point as int, n as int));
                assert(path@ =~= target);
            }
        }
        proof {
            assert(local_path@.take(i as int) =~= local_path@);
            lemma_shift_perm(local_path@, start_point as int, n as nat);
            lemma_shift_cost(w, start_point as int, local_path@);
            assert forall|p: Seq<usize>|
                is_permutation(p, n as nat) && p[0] == start_point implies path_cost(w, path@) <= #[trigger] path_cost(w, p) by {
                lemma_relabel_perm(p, start_point as int, n as nat);
                lemma_rotate_preserves_cost(w, start_point as int, p);
                let q = relabel_path(p, start_point as int, n as int);
                assert(path_cost(local@, local_path@) <= path_cost(local@, q));
            }
        }
        let cost = graph.dist_path(&path);
        if cost < global_cost {
            global_cost = cost;
            global_best = path;
        }
        send_path(sink, &global_best, Some(Progress::fraction(start_point, n)));
        start_point += 1;
    }
    proof {
        assert forall|p: Seq<usize>| is_permutation(p, n as nat) implies global_cost <= #[trigger] path_cost(w, p) by {
            assert(p[0] < n);
        }
    }
    Path::new(global_best)
}

/// Held–Karp and brute force return orders of equal cost, on every graph
/// whose `n!` fits a `usize` (so that brute force tries every order; Held–Karp
/// itself takes fewer than 32 vertices).
pub proof fn lemma_held_karp_agrees_with_brute_force(w: Seq<Seq<i64>>, held: Seq<usize>, brute: Seq<usize>)
    requires
        w.len() < 32,
        factorial_spec(w.len()) <= usize::MAX,
        cheapest_order(w, held),
        is_permutation(brute, w.len()),
        forall|p: Seq<usize>| is_permutation(p, w.len()) ==> path_cost(w, brute) <= #[trigger] path_cost(w, p),
    ensures
        path_cost(w, held) == path_cost(w, brute),
{
    assert(path_cost(w, held) <= path_cost(w, brute));
    assert(path_cost(w, brute) <= path_cost(w, held));
}

} // verus!
