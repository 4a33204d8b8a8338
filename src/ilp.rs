use vstd::prelude::*;
use vstd::multiset::Multiset;

verus! {

broadcast use vstd::seq_lib::group_to_multiset_ensures, vstd::multiset::group_multiset_axioms;

/// Which mixed-integer solver runs the model.
#[derive(Clone, Copy, Debug, PartialEq, Eq, Structural)]
pub enum MilpSolver {
    CoinOrCbc,
    Scip,
}

/// A linear constraint over the binary edge variables `x[i][j]`: the sum of
/// the variables named by `terms` (each with weight 1) lies between `lower`
/// and `upper`, where given.
#[derive(Clone, Debug)]
pub struct LinearRow {
    pub lower: Option<i64>,
    pub upper: Option<i64>,
    pub terms: Vec<(usize, usize)>,
}

/// Every path holds no vertex or at least two.
pub open spec fn empty_or_edge(paths: Seq<Vec<usize>>) -> bool {
    forall|k: int| 0 <= k < paths.len() ==> (#[trigger] paths[k]).len() == 0 || paths[k].len() >= 2
}

/// Every path holds at least two vertices.
pub open spec fn all_edges(paths: Seq<Vec<usize>>) -> bool {
    forall|k: int| 0 <= k < paths.len() ==> (#[trigger] paths[k]).len() >= 2
}

pub open spec fn has_empty(paths: Seq<Vec<usize>>) -> bool {
    exists|k: int| 0 <= k < paths.len() && (#[trigger] paths[k]).len() == 0
}

/// Some path holds `v`.
pub open spec fn on_paths(paths: Seq<Vec<usize>>, v: usize) -> bool {
    exists|k: int| 0 <= k < paths.len() && #[trigger] paths[k]@.contains(v)
}

/// `v` is an end of one of the edges.
pub open spec fn is_endpoint(edges: Seq<(usize, usize)>, v: usize) -> bool {
    exists|k: int| 0 <= k < edges.len() && ((#[trigger] edges[k]).0 == v || edges[k].1 == v)
}

/// No path ends at the vertex another path starts with.
pub open spec fn joined(paths: Seq<Vec<usize>>) -> bool {
    forall|a: int, b: int|
        0 <= a < paths.len() && 0 <= b < paths.len() && a != b ==> (#[trigger] paths[a])@.last() != (
        #[trigger] paths[b])@[0]
}

proof fn lemma_on_paths_one(old: Seq<Vec<usize>>, p: int, q: Vec<usize>, extra: bool, v: usize)
    requires
        0 <= p < old.len(),
        q@.contains(v) <==> (old[p]@.contains(v) || extra),
    ensures
        on_paths(old.update(p, q), v) <==> (on_paths(old, v) || extra),
{
    let n = old.update(p, q);
    if on_paths(n, v) {
        let k = choose|k: int| 0 <= k < n.len() && #[trigger] n[k]@.contains(v);
        if k != p {
            assert(old[k]@.contains(v));
        }
    }
    if on_paths(old, v) {
        let k = choose|k: int| 0 <= k < old.len() && #[trigger] old[k]@.contains(v);
        if k != p {
            assert(n[k]@.contains(v));
        } else {
            assert(n[p]@.contains(v));
        }
    }
    if extra {
        assert(n[p]@.contains(v));
    }
}

proof fn lemma_on_paths_two(old: Seq<Vec<usize>>, a: int, b: int, na: Vec<usize>, nb: Vec<usize>, v: usize)
    requires
        0 <= a < old.len(),
        0 <= b < old.len(),
        a != b,
        (na@.contains(v) || nb@.contains(v)) <==> (old[a]@.contains(v) || old[b]@.contains(v)),
    ensures
        on_paths(old.update(a, na).update(b, nb), v) <==> on_paths(old, v),
{
    let n = old.update(a, na).update(b, nb);
    if on_paths(n, v) {
        let k = choose|k: int| 0 <= k < n.len() && #[trigger] n[k]@.contains(v);
        if k != a && k != b {
            assert(old[k]@.contains(v));
        } else if old[a]@.contains(v) {
            assert(on_paths(old, v));
        } else {
            assert(old[b]@.contains(v));
        }
    }
    if on_paths(old, v) {
        let k = choose|k: int| 0 <= k < old.len() && #[trigger] old[k]@.contains(v);
        if k != a && k != b {
            assert(n[k]@.contains(v));
        } else if na@.contains(v) {
            assert(n[a]@.contains(v));
        } else {
            assert(n[b]@.contains(v));
        }
    }
}

proof fn lemma_insert_contains(s: Seq<usize>, i: int, x: usize, v: usize)
    requires
        0 <= i <= s.len(),
    ensures
        s.insert(i, x).contains(v) <==> (s.contains(v) || v == x),
{
    let t = s.insert(i, x);
    if t.contains(v) && v != x {
        let z = choose|z: int| 0 <= z < t.len() && t[z] == v;
        if z < i {
            assert(s[z] == v);
        } else {
            assert(s[z - 1] == v);
        }
    }
    if s.contains(v) {
        let z = choose|z: int| 0 <= z < s.len() && s[z] == v;
        if z < i {
            assert(t[z] == v);
        } else {
            assert(t[z + 1] == v);
        }
    }
    if v == x {
        assert(t[i] == v);
    }
}

proof fn lemma_concat_contains(s: Seq<usize>, t: Seq<usize>, v: usize)
    ensures
        (s + t).contains(v) <==> (s.contains(v) || t.contains(v)),
{
    let u = s + t;
    if u.contains(v) {
        let z = choose|z: int| 0 <= z < u.len() && u[z] == v;
        if z < s.len() {
            assert(s[z] == v);
        } else {
            assert(t[z - s.len()] == v);
        }
    }
    if s.contains(v) {
        let z = choose|z: int| 0 <= z < s.len() && s[z] == v;
        assert(u[z] == v);
    }
    if t.contains(v) {
        let z = choose|z: int| 0 <= z < t.len() && t[z] == v;
        assert(u[z + s.len()] == v);
    }
}

proof fn lemma_tail_contains(s: Seq<usize>, v: usize)
    requires
        s.len() >= 1,
    ensures
        s.contains(v) <==> (s[0] == v || s.subrange(1, s.len() as int).contains(v)),
{
    assert(s =~= seq![s[0]] + s.subrange(1, s.len() as int));
    lemma_concat_contains(seq![s[0]], s.subrange(1, s.len() as int), v);
    if seq![s[0]].contains(v) {
        assert(seq![s[0]][0] == v);
    }
    if s[0] == v {
        assert(seq![s[0]][0] == v);
    }
}

/// The consecutive pairs of `p`, in order.
pub open spec fn path_pairs(p: Seq<usize>) -> Seq<(usize, usize)> {
    Seq::new((if p.len() == 0 { 0 } else { p.len() - 1 }) as nat, |k: int| (p[k], p[k + 1]))
}

/// The consecutive pairs of all the paths, each as often as it occurs.
pub open spec fn all_pairs(paths: Seq<Vec<usize>>) -> Multiset<(usize, usize)>
    decreases paths.len(),
{
    if paths.len() == 0 {
        Multiset::empty()
    } else {
        all_pairs(paths.drop_last()).add(path_pairs(paths.last()@).to_multiset())
    }
}

/// No two edges leave one vertex, and no two enter one vertex.
pub open spec fn degree_ok(edges: Seq<(usize, usize)>) -> bool {
    forall|a: int, b: int|
        0 <= a < b < edges.len() ==> (#[trigger] edges[a]).0 != (#[trigger] edges[b]).0 && edges[a].1 != edges[b].1
}

proof fn lemma_all_pairs_update(paths: Seq<Vec<usize>>, k: int, q: Vec<usize>)
    requires
        0 <= k < paths.len(),
    ensures
        all_pairs(paths.update(k, q)).add(path_pairs(paths[k]@).to_multiset()) == all_pairs(paths).add(
            path_pairs(q@).to_multiset(),
        ),
    decreases paths.len(),
{
    let u = paths.update(k, q);
    if k == paths.len() - 1 {
        assert(u.drop_last() =~= paths.drop_last());
        assert(all_pairs(u).add(path_pairs(paths[k]@).to_multiset()) =~= all_pairs(paths).add(path_pairs(q@).to_multiset()));
    } else {
        assert(u.drop_last() =~= paths.drop_last().update(k, q));
        assert(u.last() == paths.last());
        assert(paths.drop_last()[k] == paths[k]);
        lemma_all_pairs_update(paths.drop_last(), k, q);
        assert(all_pairs(u) == all_pairs(u.drop_last()).add(path_pairs(u.last()@).to_multiset()));
        assert(all_pairs(paths) == all_pairs(paths.drop_last()).add(path_pairs(paths.last()@).to_multiset()));
        let x = all_pairs(u.drop_last());
        let l = path_pairs(u.last()@).to_multiset();
        let pk = path_pairs(paths[k]@).to_multiset();
        let qq = path_pairs(q@).to_multiset();
        let d = all_pairs(paths.drop_last());
        assert forall|z: (usize, usize)| #[trigger] all_pairs(u).add(pk).count(z) == all_pairs(paths).add(qq).count(z) by {
            assert(x.add(pk).count(z) == d.add(qq).count(z));
        }
        assert(all_pairs(u).add(pk) =~= all_pairs(paths).add(qq));
    }
}

proof fn lemma_all_pairs_member(paths: Seq<Vec<usize>>, k: int, z: (usize, usize))
    requires
        0 <= k < paths.len(),
        path_pairs(paths[k]@).to_multiset().count(z) > 0,
    ensures
        all_pairs(paths).count(z) > 0,
    decreases paths.len(),
{
    if k < paths.len() - 1 {
        lemma_all_pairs_member(paths.drop_last(), k, z);
    }
}

proof fn lemma_pairs_push(p: Seq<usize>, j: usize)
    requires
        p.len() >= 1,
    ensures
        path_pairs(p.push(j)) == path_pairs(p).push((p[p.len() - 1], j)),
{
    assert(path_pairs(p.push(j)) =~= path_pairs(p).push((p[p.len() - 1], j)));
}

proof fn lemma_pairs_prepend(p: Seq<usize>, i: usize)
    requires
        p.len() >= 1,
    ensures
        path_pairs(p.insert(0, i)) == seq![(i, p[0])] + path_pairs(p),
{
    assert(path_pairs(p.insert(0, i)) =~= seq![(i, p[0])] + path_pairs(p));
}

proof fn lemma_pairs_join(a: Seq<usize>, b: Seq<usize>)
    requires
        a.len() >= 1,
        b.len() >= 1,
        a[a.len() - 1] == b[0],
    ensures
        path_pairs(a + b.subrange(1, b.len() as int)) == path_pairs(a) + path_pairs(b),
{
    assert(path_pairs(a + b.subrange(1, b.len() as int)) =~= path_pairs(a) + path_pairs(b));
}

proof fn lemma_pair_at(p: Seq<usize>, x: int)
    requires
        0 <= x < p.len() - 1,
    ensures
        path_pairs(p).to_multiset().count((p[x], p[x + 1])) > 0,
{
    assert(path_pairs(p)[x] == (p[x], p[x + 1]));
    assert(path_pairs(p).contains((p[x], p[x + 1])));
}

proof fn lemma_extend(paths: Seq<Vec<usize>>, k: int, q: Vec<usize>, e: (usize, usize))
    requires
        0 <= k < paths.len(),
        path_pairs(q@).to_multiset() == path_pairs(paths[k]@).to_multiset().insert(e),
    ensures
        all_pairs(paths.update(k, q)) == all_pairs(paths).insert(e),
{
    lemma_all_pairs_update(paths, k, q);
    let pk = path_pairs(paths[k]@).to_multiset();
    assert forall|z: (usize, usize)| #[trigger] all_pairs(paths.update(k, q)).count(z) == all_pairs(paths).insert(e).count(z) by {
        assert(all_pairs(paths.update(k, q)).add(pk).count(z) == all_pairs(paths).add(path_pairs(q@).to_multiset()).count(z));
    }
    assert(all_pairs(paths.update(k, q)) =~= all_pairs(paths).insert(e));
}

proof fn lemma_merge_pairs(paths: Seq<Vec<usize>>, a: int, b: int, joined: Vec<usize>, empty: Vec<usize>)
    requires
        0 <= a < paths.len(),
        0 <= b < paths.len(),
        a != b,
        empty@.len() == 0,
        path_pairs(joined@) == path_pairs(paths[a]@) + path_pairs(paths[b]@),
    ensures
        all_pairs(paths.update(a, joined).update(b, empty)) == all_pairs(paths),
{
    let u1 = paths.update(a, joined);
    lemma_all_pairs_update(paths, a, joined);
    lemma_all_pairs_update(u1, b, empty);
    assert(u1[b] == paths[b]);
    assert(path_pairs(empty@) =~= Seq::<(usize, usize)>::empty());
    vstd::seq_lib::lemma_multiset_commutative(path_pairs(paths[a]@), path_pairs(paths[b]@));
    let pa = path_pairs(paths[a]@).to_multiset();
    let pb = path_pairs(paths[b]@).to_multiset();
    let u2 = u1.update(b, empty);
    assert forall|z: (usize, usize)| #[trigger] all_pairs(u2).count(z) == all_pairs(paths).count(z) by {
        assert(all_pairs(u2).add(pb).count(z) == all_pairs(u1).add(path_pairs(empty@).to_multiset()).count(z));
        assert(all_pairs(u1).add(pa).count(z) == all_pairs(paths).add(path_pairs(joined@).to_multiset()).count(z));
    }
    assert(all_pairs(u2) =~= all_pairs(paths));
}

proof fn lemma_seq_twice(s: Seq<(usize, usize)>, x: int, y: int)
    requires
        0 <= x < y < s.len(),
        s[x] == s[y],
    ensures
        s.to_multiset().count(s[x]) >= 2,
    decreases s.len(),
{
    let d = s.drop_last();
    assert(s =~= d.push(s.last()));
    if y == s.len() - 1 {
        assert(d[x] == s[x]);
        assert(d.contains(s[x]));
    } else {
        assert(d[x] == s[x] && d[y] == s[y]);
        lemma_seq_twice(d, x, y);
    }
}

/// Two different places of one pair among the paths count it twice.
proof fn lemma_pairs_twice(paths: Seq<Vec<usize>>, a: int, x: int, b: int, y: int)
    requires
        0 <= a < paths.len(),
        0 <= b < paths.len(),
        0 <= x < path_pairs(paths[a]@).len(),
        0 <= y < path_pairs(paths[b]@).len(),
        a != b || x != y,
        path_pairs(paths[a]@)[x] == path_pairs(paths[b]@)[y],
    ensures
        all_pairs(paths).count(path_pairs(paths[a]@)[x]) >= 2,
    decreases paths.len(),
{
    let z = path_pairs(paths[a]@)[x];
    let l = paths.len() - 1;
    let d = paths.drop_last();
    assert(all_pairs(paths) == all_pairs(d).add(path_pairs(paths[l]@).to_multiset()));
    if a < l && b < l {
        assert(d[a] == paths[a] && d[b] == paths[b]);
        lemma_pairs_twice(d, a, x, b, y);
    } else if a == l && b == l {
        if x < y {
            lemma_seq_twice(path_pairs(paths[l]@), x, y);
        } else {
            lemma_seq_twice(path_pairs(paths[l]@), y, x);
        }
    } else if a == l {
        assert(d[b] == paths[b]);
        assert(path_pairs(d[b]@).contains(z));
        lemma_all_pairs_member(d, b, z);
        assert(path_pairs(paths[l]@).contains(z));
    } else {
        assert(d[a] == paths[a]);
        assert(path_pairs(d[a]@).contains(z));
        lemma_all_pairs_member(d, a, z);
        assert(path_pairs(paths[l]@)[y] == z);
        assert(path_pairs(paths[l]@).contains(z));
    }
}

/// Under the degree condition each input edge is counted once.
proof fn lemma_edge_once(edges: Seq<(usize, usize)>, z: (usize, usize))
    requires
        degree_ok(edges),
    ensures
        edges.to_multiset().count(z) <= 1,
{
    assert(edges.no_duplicates()) by {
        assert forall|a: int, b: int| 0 <= a < edges.len() && 0 <= b < edges.len() && a != b implies edges[a] != edges[b] by {
            if a < b {
                assert(edges[a].0 != edges[b].0);
            } else {
                assert(edges[b].0 != edges[a].0);
            }
        }
    }
    edges.lemma_multiset_has_no_duplicates();
}

/// Under the degree condition a vertex has at most one place with a pair
/// into it and at most one with a pair out of it.
proof fn lemma_one_place(paths: Seq<Vec<usize>>, edges: Seq<(usize, usize)>, a: int, x: int, b: int, y: int)
    requires
        degree_ok(edges),
        all_pairs(paths) == edges.to_multiset(),
        0 <= a < paths.len(),
        0 <= b < paths.len(),
        0 <= x < paths[a]@.len(),
        0 <= y < paths[b]@.len(),
        a != b || x != y,
        paths[a]@[x] == paths[b]@[y],
    ensures
        !(x > 0 && y > 0),
        !(x + 1 < paths[a]@.len() && y + 1 < paths[b]@.len()),
{
    let pa = paths[a]@;
    let pb = paths[b]@;
    let v = pa[x];
    if x > 0 && y > 0 {
        let za = (pa[x - 1], v);
        let zb = (pb[y - 1], v);
        assert(path_pairs(pa)[x - 1] == za);
        assert(path_pairs(pb)[y - 1] == zb);
        lemma_pair_at(pa, x - 1);
        lemma_pair_at(pb, y - 1);
        lemma_all_pairs_member(paths, a, za);
        lemma_all_pairs_member(paths, b, zb);
        assert(edges.contains(za));
        assert(edges.contains(zb));
        let ta = choose|t: int| 0 <= t < edges.len() && edges[t] == za;
        let tb = choose|t: int| 0 <= t < edges.len() && edges[t] == zb;
        if ta < tb {
            assert(edges[ta].1 != edges[tb].1);
        } else if tb < ta {
            assert(edges[tb].1 != edges[ta].1);
        }
        lemma_pairs_twice(paths, a, x - 1, b, y - 1);
        lemma_edge_once(edges, za);
    }
    if x + 1 < pa.len() && y + 1 < pb.len() {
        let za = (v, pa[x + 1]);
        let zb = (v, pb[y + 1]);
        assert(path_pairs(pa)[x] == za);
        assert(path_pairs(pb)[y] == zb);
        lemma_pair_at(pa, x);
        lemma_pair_at(pb, y);
        lemma_all_pairs_member(paths, a, za);
        lemma_all_pairs_member(paths, b, zb);
        assert(edges.contains(za));
        assert(edges.contains(zb));
        let ta = choose|t: int| 0 <= t < edges.len() && edges[t] == za;
        let tb = choose|t: int| 0 <= t < edges.len() && edges[t] == zb;
        if ta < tb {
            assert(edges[ta].0 != edges[tb].0);
        } else if tb < ta {
            assert(edges[tb].0 != edges[ta].0);
        }
        lemma_pairs_twice(paths, a, x, b, y);
        lemma_edge_once(edges, za);
    }
}

/// Under the degree condition, joined paths share no vertex, and a path
/// repeats a vertex only as its first and last (a cycle).
proof fn lemma_disjoint(paths: Seq<Vec<usize>>, edges: Seq<(usize, usize)>)
    requires
        degree_ok(edges),
        all_pairs(paths) == edges.to_multiset(),
        all_edges(paths),
        joined(paths),
    ensures
        forall|a: int, b: int, v: usize|
            #![trigger paths[a]@.contains(v), paths[b]@.contains(v)]
            0 <= a < paths.len() && 0 <= b < paths.len() && a != b ==> !(paths[a]@.contains(v) && paths[b]@.contains(v)),
        forall|a: int, x: int, y: int|
            0 <= a < paths.len() && 0 <= x < y < paths[a]@.len() && (#[trigger] paths[a]@[x]) == (#[trigger] paths[a]@[y])
                ==> x == 0 && y == paths[a]@.len() - 1,
{
    assert forall|a: int, b: int, v: usize|
        #![trigger paths[a]@.contains(v), paths[b]@.contains(v)]
        0 <= a < paths.len() && 0 <= b < paths.len() && a != b implies !(paths[a]@.contains(v) && paths[b]@.contains(v)) by {
        if paths[a]@.contains(v) && paths[b]@.contains(v) {
            let x = choose|x: int| 0 <= x < paths[a]@.len() && paths[a]@[x] == v;
            let y = choose|y: int| 0 <= y < paths[b]@.len() && paths[b]@[y] == v;
            assert(paths[a]@.len() >= 2 && paths[b]@.len() >= 2);
            lemma_one_place(paths, edges, a, x, b, y);
            if x == 0 {
                assert(paths[b]@.last() == v);
                assert(paths[b]@.last() != paths[a]@[0]);
            } else {
                assert(paths[a]@.last() == v);
                assert(paths[a]@.last() != paths[b]@[0]);
            }
        }
    }
    assert forall|a: int, x: int, y: int|
        0 <= a < paths.len() && 0 <= x < y < paths[a]@.len() && (#[trigger] paths[a]@[x]) == (#[trigger] paths[a]@[y])
            implies x == 0 && y == paths[a]@.len() - 1 by {
        lemma_one_place(paths, edges, a, x, a, y);
    }
}

/// The edge `(i, j)` meets no pair of `paths` at its start or at its end.
pub open spec fn fresh_edge(paths: Seq<Vec<usize>>, i: usize, j: usize) -> bool {
    forall|z: (usize, usize)| #[trigger] all_pairs(paths).count(z) > 0 ==> z.0 != i && z.1 != j
}

/// Puts the edge `(i, j)` into the first path that holds `i` (right after it)
/// or `j` (right before it), whichever comes first; `false` when no path
/// holds either.
fn try_insert(paths: &mut Vec<Vec<usize>>, i: usize, j: usize) -> (r: bool)
    requires
        all_edges(old(paths)@),
    ensures
        all_edges(final(paths)@),
        final(paths).len() == old(paths).len(),
        !r ==> final(paths)@ == old(paths)@,
        r ==> old(paths).len() > 0,
        r ==> forall|v: usize| on_paths(final(paths)@, v) <==> (on_paths(old(paths)@, v) || v == i || v == j),
        r && fresh_edge(old(paths)@, i, j) ==> all_pairs(final(paths)@) == all_pairs(old(paths)@).insert((i, j)),
{
    let mut p: usize = 0;
    while p < paths.len()
        invariant
            all_edges(paths@),
            paths@ == old(paths)@,
        decreases paths.len() - p,
    {
        let ghost old_paths = paths@;
        let mut path = paths[p].clone();
        assert(path@ == paths@[p as int]@);
        assert(paths@[p as int].len() >= 2);
        let mut index: usize = 0;
        while index < path.len()
            invariant
                path.len() >= 2,
                p < paths.len(),
                all_edges(paths@),
                paths@ == old(paths)@,
                old_paths == old(paths)@,
                path@ == old_paths[p as int]@,
            decreases path.len() - index,
        {
            let node = path[index];
            let ghost before = path@;
            if node == i {
                path.insert(index + 1, j);
                proof {
                    if fresh_edge(old_paths, i, j) {
                        if index + 1 < before.len() {
                            lemma_pair_at(before, index as int);
                            lemma_all_pairs_member(old_paths, p as int, (before[index as int], before[index + 1]));
                            assert(false);
                        }
                        assert(path@ =~= before.push(j));
                        lemma_pairs_push(before, j);
                        lemma_extend(old_paths, p as int, path, (i, j));
                    }
                    assert forall|v: usize| path@.contains(v) <==> (old_paths[p as int]@.contains(v) || (v == i || v == j)) by {
                        lemma_insert_contains(before, index + 1, j, v);
                        assert(before[index as int] == i);
                        assert(before.contains(before[index as int]));
                    }
                }
                let ghost np = path;
                paths.set(p, path);
                proof {
                    assert(paths@ == old_paths.update(p as int, np));
                    assert forall|v: usize| on_paths(paths@, v) <==> (on_paths(old_paths, v) || v == i || v == j) by {
                        lemma_on_paths_one(old_paths, p as int, np, v == i || v == j, v);
                    }
                    assert(old_paths == old(paths)@);
                    assert(forall|v: usize| on_paths(paths@, v) <==> (on_paths(old(paths)@, v) || v == i || v == j));
                }
                return true;
            } else if node == j {
                path.insert(index, i);
                proof {
                    if fresh_edge(old_paths, i, j) {
                        if index > 0 {
                            lemma_pair_at(before, index - 1);
                            lemma_all_pairs_member(old_paths, p as int, (before[index - 1], before[index as int]));
                            assert(false);
                        }
                        assert(path@ =~= before.insert(0, i));
                        lemma_pairs_prepend(before, i);
                        vstd::seq_lib::lemma_multiset_commutative(seq![(i, j)], path_pairs(before));
                        assert(seq![(i, j)].to_multiset() =~= Multiset::empty().insert((i, j)));
                        assert(path_pairs(path@).to_multiset() =~= path_pairs(before).to_multiset().insert((i, j)));
                        lemma_extend(old_paths, p as int, path, (i, j));
                    }
                    assert forall|v: usize| path@.contains(v) <==> (old_paths[p as int]@.contains(v) || (v == i || v == j)) by {
                        lemma_insert_contains(before, index as int, i, v);
                        assert(before[index as int] == j);
                        assert(before.contains(before[index as int]));
                    }
                }
                let ghost np = path;
                paths.set(p, path);
                proof {
                    assert(paths@ == old_paths.update(p as int, np));
                    assert forall|v: usize| on_paths(paths@, v) <==> (on_paths(old_paths, v) || v == i || v == j) by {
                        lemma_on_paths_one(old_paths, p as int, np, v == i || v == j, v);
                    }
                    assert(old_paths == old(paths)@);
                    assert(forall|v: usize| on_paths(paths@, v) <==> (on_paths(old(paths)@, v) || v == i || v == j));
                }
                return true;
            }
            index += 1;
        }
        p += 1;
    }
    false
}

/// The paths that hold at least one vertex.
fn retain_nonempty(paths: Vec<Vec<usize>>) -> (r: Vec<Vec<usize>>)
    requires
        empty_or_edge(paths@),
    ensures
        all_edges(r@),
        r.len() <= paths.len(),
        has_empty(paths@) ==> r.len() < paths.len(),
        (exists|k: int| 0 <= k < paths.len() && (#[trigger] paths@[k]).len() >= 2) ==> r.len() > 0,
        forall|v: usize| on_paths(r@, v) <==> on_paths(paths@, v),
        all_pairs(r@) == all_pairs(paths@),
{
    let mut r: Vec<Vec<usize>> = Vec::new();
    let mut k: usize = 0;
    let mut dropped = false;
    while k < paths.len()
        invariant
            empty_or_edge(paths@),
            0 <= k <= paths.len(),
            all_edges(r@),
            r.len() + (if dropped { 1int } else { 0 }) <= k,
            (exists|x: int| 0 <= x < k && (#[trigger] paths@[x]).len() == 0) ==> dropped,
            (exists|x: int| 0 <= x < k && (#[trigger] paths@[x]).len() >= 2) ==> r.len() > 0,
            forall|v: usize| on_paths(r@, v) <==> on_paths(paths@.take(k as int), v),
            all_pairs(r@) == all_pairs(paths@.take(k as int)),
        decreases paths.len() - k,
    {
        let ghost before = r@;
        proof {
            let t = paths@.take(k as int + 1);
            assert(t.drop_last() =~= paths@.take(k as int));
            assert(t.last() == paths@[k as int]);
        }
        if paths[k].len() >= 1 {
            let c = paths[k].clone();
            assert(c@ == paths@[k as int]@);
            r.push(c);
        } else {
            dropped = true;
        }
        proof {
            let t = paths@.take(k as int + 1);
            if paths@[k as int].len() == 0 {
                assert(path_pairs(paths@[k as int]@) =~= Seq::<(usize, usize)>::empty());
                assert(all_pairs(t) =~= all_pairs(paths@.take(k as int)));
            } else {
                assert(r@.drop_last() =~= before);
                assert(all_pairs(r@) == all_pairs(t));
            }
            assert forall|v: usize| on_paths(r@, v) <==> on_paths(t, v) by {
                if on_paths(r@, v) {
                    let z = choose|z: int| 0 <= z < r@.len() && #[trigger] r@[z]@.contains(v);
                    if z < before.len() {
                        assert(before[z]@.contains(v));
                        assert(on_paths(before, v));
                        assert(on_paths(paths@.take(k as int), v));
                        let y = choose|y: int| 0 <= y < k && #[trigger] paths@.take(k as int)[y]@.contains(v);
                        assert(paths@.take(k as int)[y] == paths@[y]);
                        assert(t[y] == paths@[y]);
                        assert(t[y]@.contains(v));
                    } else {
                        assert(t[k as int]@.contains(v));
                    }
                }
                if on_paths(t, v) {
                    let y = choose|y: int| 0 <= y < t.len() && #[trigger] t[y]@.contains(v);
                    if y < k {
                        assert(t[y] == paths@[y]);
                        assert(paths@.take(k as int)[y] == paths@[y]);
                        assert(paths@.take(k as int)[y]@.contains(v));
                        assert(on_paths(paths@.take(k as int), v));
                        assert(on_paths(before, v));
                        let z = choose|z: int| 0 <= z < before.len() && #[trigger] before[z]@.contains(v);
                        assert(r@[z] == before[z]);
                        assert(r@[z]@.contains(v));
                    } else {
                        assert(paths@[k as int]@.len() >= 1) by {
                            assert(paths@[k as int]@.contains(v));
                        }
                        assert(r@[before.len() as int]@.contains(v));
                    }
                }
            }
        }
        k += 1;
    }
    assert(paths@.take(k as int) =~= paths@);
    r
}

/// Joins the first pair of paths, in the order of their indices, where one
/// ends at the vertex the other starts with; the joined-in path is emptied.
fn merge_once(paths: &mut Vec<Vec<usize>>) -> (r: bool)
    requires
        all_edges(old(paths)@),
    ensures
        final(paths).len() == old(paths).len(),
        r ==> has_empty(final(paths)@) && empty_or_edge(final(paths)@),
        r ==> exists|k: int| 0 <= k < final(paths).len() && (#[trigger] final(paths)@[k]).len() >= 2,
        !r ==> final(paths)@ == old(paths)@,
        !r ==> joined(old(paths)@),
        r ==> forall|v: usize| on_paths(final(paths)@, v) <==> on_paths(old(paths)@, v),
        r ==> all_pairs(final(paths)@) == all_pairs(old(paths)@),
{
    let n = paths.len();
    let mut a: usize = 0;
    while a < n
        invariant
            n == paths.len(),
            all_edges(paths@),
            paths@ == old(paths)@,
            forall|x: int, y: int|
                0 <= x < a && 0 <= y < n && x != y ==> (#[trigger] paths@[x])@.last() != (#[trigger] paths@[y])@[0]
                    && paths@[y]@.last() != paths@[x]@[0],
        decreases n - a,
    {
        let mut b: usize = a + 1;
        while b < n
            invariant
                n == paths.len(),
                a < n,
                a < b,
                all_edges(paths@),
                paths@ == old(paths)@,
                forall|x: int, y: int|
                    0 <= x < a && 0 <= y < n && x != y ==> (#[trigger] paths@[x])@.last() != (#[trigger] paths@[y])@[0]
                        && paths@[y]@.last() != paths@[x]@[0],
                forall|y: int|
                    a < y < b ==> (#[trigger] paths@[y])@[0] != paths@[a as int]@.last() && paths@[y]@.last()
                        != paths@[a as int]@[0],
            decreases n - b,
        {
            let ghost old_paths = paths@;
            let path = paths[a].clone();
            let other = paths[b].clone();
            assert(path.len() >= 2 && other.len() >= 2) by {
                assert(paths@[a as int].len() >= 2);
                assert(paths@[b as int].len() >= 2);
            }
            if path[path.len() - 1] == other[0] {
                let mut joined = path.clone();
                let mut k: usize = 1;
                while k < other.len()
                    invariant
                        joined.len() >= 2,
                        n == paths.len(),
                        a < b < n,
                        all_edges(paths@),
                        1 <= k <= other.len(),
                        joined@ == path@ + other@.subrange(1, k as int),
                    decreases other.len() - k,
                {
                    joined.push(other[k]);
                    k += 1;
                    assert(joined@ =~= path@ + other@.subrange(1, k as int));
                }
                let empty: Vec<usize> = Vec::new();
                let ghost ev = empty;
                proof {
                    assert forall|v: usize| (joined@.contains(v) || ev@.contains(v)) <==> (old_paths[a as int]@.contains(v)
                        || old_paths[b as int]@.contains(v)) by {
                        lemma_concat_contains(path@, other@.subrange(1, other.len() as int), v);
                        lemma_tail_contains(other@, v);
                        assert(path@.contains(path@[path.len() - 1]));
                    }
                }
                let ghost ja = joined;
                paths.set(a, joined);
                paths.set(b, empty);
                proof {
                    lemma_pairs_join(path@, other@);
                    lemma_merge_pairs(old_paths, a as int, b as int, ja, ev);
                    assert forall|v: usize| on_paths(paths@, v) <==> on_paths(old_paths, v) by {
                        lemma_on_paths_two(old_paths, a as int, b as int, ja, ev, v);
                        assert(paths@ == old_paths.update(a as int, ja).update(b as int, ev));
                    }
                }
                assert(paths@[b as int].len() == 0);
                assert(paths@[a as int].len() >= 2);
                return true;
            } else if other[other.len() - 1] == path[0] {
                let mut joined = other.clone();
                let mut k: usize = 1;
                while k < path.len()
                    invariant
                        joined.len() >= 2,
                        n == paths.len(),
                        a < b < n,
                        all_edges(paths@),
                        1 <= k <= path.len(),
                        joined@ == other@ + path@.subrange(1, k as int),
                    decreases path.len() - k,
                {
                    joined.push(path[k]);
                    k += 1;
                    assert(joined@ =~= other@ + path@.subrange(1, k as int));
                }
                let empty: Vec<usize> = Vec::new();
                let ghost ev = empty;
                proof {
                    assert forall|v: usize| (joined@.contains(v) || ev@.contains(v)) <==> (old_paths[b as int]@.contains(v)
                        || old_paths[a as int]@.contains(v)) by {
                        lemma_concat_contains(other@, path@.subrange(1, path.len() as int), v);
                        lemma_tail_contains(path@, v);
                        assert(other@.contains(other@[other.len() - 1]));
                    }
                }
                let ghost jb = joined;
                paths.set(b, joined);
                paths.set(a, empty);
                proof {
                    lemma_pairs_join(other@, path@);
                    lemma_merge_pairs(old_paths, b as int, a as int, jb, ev);
                    assert forall|v: usize| on_paths(paths@, v) <==> on_paths(old_paths, v) by {
                        lemma_on_paths_two(old_paths, b as int, a as int, jb, ev, v);
                        assert(paths@ == old_paths.update(b as int, jb).update(a as int, ev));
                    }
                }
                assert(paths@[a as int].len() == 0);
                assert(paths@[b as int].len() >= 2);
                return true;
            }
            b += 1;
        }
        proof {
            assert forall|x: int, y: int|
                0 <= x < a + 1 && 0 <= y < n && x != y implies (#[trigger] paths@[x])@.last() != (#[trigger] paths@[y])@[0]
                    && paths@[y]@.last() != paths@[x]@[0] by {
                if x == a && y < a {
                    assert(paths@[y]@.last() != paths@[x]@[0] && paths@[x]@.last() != paths@[y]@[0]);
                }
            }
        }
        a += 1;
    }
    false
}

/// Stitches directed edges into paths: each edge goes into the first path
/// that holds one of its ends, or starts a path of its own; then paths where
/// one ends at the start of another are joined until none are. A path whose
/// first and last vertex agree is a cycle.
pub fn edges_to_paths(edges: &Vec<(usize, usize)>) -> (r: Vec<Vec<usize>>)
    ensures
        all_edges(r@),
        edges.len() > 0 ==> r.len() > 0,
        edges.len() == 0 ==> r.len() == 0,
        joined(r@),
        forall|v: usize| on_paths(r@, v) <==> is_endpoint(edges@, v),
        degree_ok(edges@) ==> all_pairs(r@) == edges@.to_multiset(),
        degree_ok(edges@) ==> forall|a: int, b: int, v: usize|
            #![trigger r@[a]@.contains(v), r@[b]@.contains(v)]
            0 <= a < r.len() && 0 <= b < r.len() && a != b ==> !(r@[a]@.contains(v) && r@[b]@.contains(v)),
        degree_ok(edges@) ==> forall|a: int, x: int, y: int|
            0 <= a < r.len() && 0 <= x < y < r@[a]@.len() && (#[trigger] r@[a]@[x]) == (#[trigger] r@[a]@[y]) ==> x == 0 && y
                == r@[a]@.len() - 1,
{
    let mut paths: Vec<Vec<usize>> = Vec::new();
    let mut e: usize = 0;
    while e < edges.len()
        invariant
            all_edges(paths@),
            0 <= e <= edges.len(),
            e > 0 ==> paths.len() > 0,
            e == 0 ==> paths.len() == 0,
            forall|v: usize| on_paths(paths@, v) <==> is_endpoint(edges@.take(e as int), v),
            degree_ok(edges@) ==> all_pairs(paths@) == edges@.take(e as int).to_multiset(),
        decreases edges.len() - e,
    {
        let (i, j) = edges[e];
        let ghost before = paths@;
        proof {
            if degree_ok(edges@) {
                assert forall|z: (usize, usize)| #[trigger] all_pairs(before).count(z) > 0 implies z.0 != i && z.1 != j by {
                    assert(edges@.take(e as int).to_multiset().count(z) > 0);
                    assert(edges@.take(e as int).contains(z));
                    let t = choose|t: int| 0 <= t < e && edges@.take(e as int)[t] == z;
                    assert(edges@[t] == z);
                    assert(edges@[e as int] == (i, j));
                }
                assert(fresh_edge(before, i, j));
            }
        }
        if !try_insert(&mut paths, i, j) {
            let mut fresh: Vec<usize> = Vec::new();
            fresh.push(i);
            fresh.push(j);
            let ghost f = fresh;
            assert(f@.len() == 2 && f@[0] == i && f@[1] == j);
            paths.push(fresh);
            proof {
                assert(paths@.drop_last() =~= before);
                assert(path_pairs(f@) =~= seq![(i, j)]);
                assert(seq![(i, j)].to_multiset() =~= Multiset::empty().insert((i, j)));
                assert(all_pairs(paths@) =~= all_pairs(before).insert((i, j)));
                assert(paths@[before.len() as int] == f);
                assert forall|v: usize| on_paths(paths@, v) <==> (on_paths(before, v) || v == i || v == j) by {
                    if on_paths(paths@, v) {
                        let k = choose|k: int| 0 <= k < paths@.len() && #[trigger] paths@[k]@.contains(v);
                        if k < before.len() {
                            assert(paths@[k] == before[k]);
                            assert(before[k]@.contains(v));
                        } else {
                            assert(paths@[k] == f);
                            let z = choose|z: int| 0 <= z < f@.len() && f@[z] == v;
                            assert(z == 0 || z == 1);
                        }
                    }
                    if on_paths(before, v) {
                        let k = choose|k: int| 0 <= k < before.len() && #[trigger] before[k]@.contains(v);
                        assert(paths@[k] == before[k]);
                        assert(paths@[k]@.contains(v));
                    }
                    if v == i {
                        assert(f@[0] == v);
                        assert(paths@[before.len() as int]@.contains(v));
                    }
                    if v == j {
                        assert(f@[1] == v);
                        assert(paths@[before.len() as int]@.contains(v));
                    }
                }
            }
        }
        proof {
            let t = edges@.take(e as int + 1);
            assert forall|v: usize| is_endpoint(t, v) <==> (is_endpoint(edges@.take(e as int), v) || v == i || v == j) by {
                if is_endpoint(t, v) {
                    let k = choose|k: int| 0 <= k < t.len() && ((#[trigger] t[k]).0 == v || t[k].1 == v);
                    if k < e {
                        assert(edges@.take(e as int)[k] == t[k]);
                    }
                }
                if is_endpoint(edges@.take(e as int), v) {
                    let k = choose|k: int| 0 <= k < e && ((#[trigger] edges@.take(e as int)[k]).0 == v || edges@.take(e as int)[k].1 == v);
                    assert(edges@.take(e as int)[k] == t[k]);
                }
                if v == i || v == j {
                    assert(t[e as int] == (i, j));
                }
            }
            assert forall|v: usize| on_paths(paths@, v) <==> is_endpoint(t, v) by {
                assert(on_paths(before, v) <==> is_endpoint(edges@.take(e as int), v));
                assert(on_paths(paths@, v) <==> (on_paths(before, v) || v == i || v == j));
            }
            assert(t =~= edges@.take(e as int).push((i, j)));
            if degree_ok(edges@) {
                assert(all_pairs(paths@) == all_pairs(before).insert((i, j)));
                assert(all_pairs(paths@) == t.to_multiset());
            }
        }
        e += 1;
    }
    assert(edges@.take(e as int) =~= edges@);
    let ghost had_paths = paths.len() > 0;
    assert(had_paths ==> paths@[0].len() >= 2);
    loop
        invariant
            empty_or_edge(paths@),
            had_paths ==> exists|k: int| 0 <= k < paths.len() && (#[trigger] paths@[k]).len() >= 2,
            !had_paths ==> paths.len() == 0,
            had_paths <==> edges.len() > 0,
            forall|v: usize| on_paths(paths@, v) <==> is_endpoint(edges@, v),
            degree_ok(edges@) ==> all_pairs(paths@) == edges@.to_multiset(),
        ensures
            degree_ok(edges@) ==> all_pairs(paths@) == edges@.to_multiset(),
            all_edges(paths@),
            had_paths ==> paths.len() > 0,
            !had_paths ==> paths.len() == 0,
            joined(paths@),
            forall|v: usize| on_paths(paths@, v) <==> is_endpoint(edges@, v),
        decreases paths.len() + if has_empty(paths@) { 0int } else { 1 },
    {
        paths = retain_nonempty(paths);
        proof {
            if had_paths {
                assert(paths@[0].len() >= 2);
            }
        }
        if !merge_once(&mut paths) {
            break;
        }
    }
    proof {
        if degree_ok(edges@) {
            lemma_disjoint(paths@, edges@);
        }
    }
    paths
}

/// A path is a cycle when it ends where it starts.
pub open spec fn is_cycle(p: Seq<usize>) -> bool {
    p.len() > 0 && p[0] == p[p.len() - 1]
}

/// Whether the solution stitched into `paths` still needs cycles cut: it
/// does while there is more than one path or some path is a cycle.
pub fn needs_more_cuts(paths: &Vec<Vec<usize>>) -> (r: bool)
    ensures
        r == (paths.len() > 1 || exists|k: int| 0 <= k < paths.len() && #[trigger] is_cycle(paths@[k]@)),
{
    if paths.len() > 1 {
        return true;
    }
    let mut k: usize = 0;
    while k < paths.len()
        invariant
            forall|x: int| 0 <= x < k ==> !#[trigger] is_cycle(paths@[x]@),
        decreases paths.len() - k,
    {
        let p = &paths[k];
        if p.len() > 0 && p[0] == p[p.len() - 1] {
            assert(is_cycle(paths@[k as int]@));
            return true;
        }
        k += 1;
    }
    false
}

/// The edges around a cycle given by its vertices: each consecutive pair and
/// the pair from the last back to the first.
pub fn cycle_to_edges(cycle: &Vec<usize>) -> (r: Vec<(usize, usize)>)
    requires
        cycle.len() > 0,
    ensures
        r.len() == cycle.len(),
        forall|k: int| 0 <= k < cycle.len() - 1 ==> #[trigger] r@[k] == (cycle@[k], cycle@[k + 1]),
        r@[cycle.len() - 1] == (cycle@[cycle.len() - 1], cycle@[0]),
{
    let n = cycle.len();
    let mut r: Vec<(usize, usize)> = Vec::new();
    let mut k: usize = 0;
    while k + 1 < n
        invariant
            n == cycle.len(),
            n > 0,
            k + 1 <= n,
            r.len() == k,
            forall|x: int| 0 <= x < k ==> #[trigger] r@[x] == (cycle@[x], cycle@[x + 1]),
        decreases n - k,
    {
        r.push((cycle[k], cycle[k + 1]));
        k += 1;
    }
    r.push((cycle[n - 1], cycle[0]));
    r
}

/// The edges around a cycle in both directions.
pub fn cycle_to_edges_symmetric(cycle: &Vec<usize>) -> (r: Vec<(usize, usize)>)
    requires
        cycle.len() > 0,
    ensures
        r.len() == 2 * cycle.len(),
        forall|k: int| 0 <= k < cycle.len() ==> #[trigger] r@[k + cycle.len()] == (r@[k].1, r@[k].0),
        forall|k: int| 0 <= k < cycle.len() ==> #[trigger] r@[k] == (cycle@[k], cycle@[next_around(k, cycle.len() as int)]),
{
    let forward = cycle_to_edges(cycle);
    assert forall|x: int| 0 <= x < cycle.len() implies #[trigger] forward@[x] == (cycle@[x], cycle@[next_around(x, cycle.len() as int)]) by {
        if x < cycle.len() - 1 {
            assert(forward@[x] == (cycle@[x], cycle@[x + 1]));
        }
    }
    let mut r: Vec<(usize, usize)> = Vec::new();
    let mut k: usize = 0;
    while k < forward.len()
        invariant
            r.len() == k,
            k <= forward.len(),
            forall|x: int| 0 <= x < k ==> #[trigger] r@[x] == forward@[x],
        decreases forward.len() - k,
    {
        r.push(forward[k]);
        k += 1;
    }
    let mut k: usize = 0;
    while k < forward.len()
        invariant
            forward.len() == cycle.len(),
            r.len() == forward.len() + k,
            k <= forward.len(),
            forall|x: int| 0 <= x < forward.len() ==> #[trigger] r@[x] == forward@[x],
            forall|x: int| 0 <= x < k ==> #[trigger] r@[x + forward.len()] == (forward@[x].1, forward@[x].0),
        decreases forward.len() - k,
    {
        let (a, b) = forward[k];
        r.push((b, a));
        k += 1;
    }
    r
}

fn contains_vertex(path: &Vec<usize>, v: usize) -> (r: bool)
    ensures
        r == path@.contains(v),
{
    let mut k: usize = 0;
    while k < path.len()
        invariant
            forall|x: int| 0 <= x < k ==> path@[x] != v,
        decreases path.len() - k,
    {
        if path[k] == v {
            return true;
        }
        k += 1;
    }
    false
}

/// What a row says: its bounds and the set of variables it sums.
pub open spec fn row_view(r: LinearRow) -> (Option<i64>, Option<i64>, Set<(usize, usize)>) {
    (r.lower, r.upper, r.terms@.to_set())
}

/// The position after `k` around a cycle of `len` vertices.
pub open spec fn next_around(k: int, len: int) -> int {
    if k + 1 < len { k + 1 } else { 0 }
}

/// `(a, b)` joins two neighbours of the cycle `t` (whose last vertex leads
/// back to its first), in either direction.
pub open spec fn cycle_pair(t: Seq<usize>, a: usize, b: usize) -> bool {
    exists|k: int|
        0 <= k < t.len() && ((a == t[k] && b == #[trigger] t[next_around(k, t.len() as int)]) || (b == t[k] && a
            == t[next_around(k, t.len() as int)]))
}

/// The edges of the cycle path `p` in both directions.
pub open spec fn cycle_terms(p: Seq<usize>) -> Set<(usize, usize)> {
    Set::new(|x: (usize, usize)| cycle_pair(p.drop_first(), x.0, x.1))
}

/// The edges in either direction between the cycle path `p` and the
/// vertices of `0..n` off it.
pub open spec fn crossing_terms(p: Seq<usize>, n: int) -> Set<(usize, usize)> {
    Set::new(
        |x: (usize, usize)|
            (p.drop_first().contains(x.0) && x.1 < n && !p.contains(x.1)) || (p.drop_first().contains(x.1) && x.0
                < n && !p.contains(x.0)),
    )
}

/// `len - 2` as an `i64`, saturated.
pub open spec fn cycle_bound(len: int) -> i64 {
    if len - 2 <= i64::MAX { (len - 2) as i64 } else { i64::MAX }
}

/// The rows for one path: none unless it is a cycle; else a row with upper
/// bound `len - 2` over its edges, and, when `len > 4`, a row with lower
/// bound 1 over its crossing edges.
pub open spec fn rows_for(p: Seq<usize>, n: int) -> Seq<(Option<i64>, Option<i64>, Set<(usize, usize)>)> {
    if is_cycle(p) {
        seq![(None::<i64>, Some(cycle_bound(p.len() as int)), cycle_terms(p))] + if p.len() > 4 {
            seq![(Some(1i64), None::<i64>, crossing_terms(p, n))]
        } else {
            Seq::empty()
        }
    } else {
        Seq::empty()
    }
}

/// The rows for all the paths, in order.
pub open spec fn cycle_rows_spec(paths: Seq<Seq<usize>>, n: int) -> Seq<(Option<i64>, Option<i64>, Set<(usize, usize)>)>
    decreases paths.len(),
{
    if paths.len() == 0 {
        Seq::empty()
    } else {
        cycle_rows_spec(paths.drop_last(), n) + rows_for(paths.last(), n)
    }
}

pub open spec fn path_views(paths: Seq<Vec<usize>>) -> Seq<Seq<usize>> {
    paths.map_values(|v: Vec<usize>| v@)
}

/// The row that allows at most `len - 2` of the cycle's edges.
fn cycle_row(path: &Vec<usize>) -> (r: LinearRow)
    requires
        path.len() >= 2,
    ensures
        row_view(r) == (None::<i64>, Some(cycle_bound(path.len() as int)), cycle_terms(path@)),
{
    let len = path.len();
    let mut tail: Vec<usize> = Vec::new();
    let mut k: usize = 1;
    while k < len
        invariant
            len == path.len(),
            1 <= k <= len,
            tail@ == path@.subrange(1, k as int),
        decreases len - k,
    {
        tail.push(path[k]);
        k += 1;
        assert(tail@ =~= path@.subrange(1, k as int));
    }
    assert(tail@ =~= path@.drop_first());
    let edges = cycle_to_edges_symmetric(&tail);
    let ghost t = tail@;
    let ghost tl = t.len() as int;
    proof {
        let fw = edges@.subrange(0, tl);
        assert forall|x: int| 0 <= x < tl implies #[trigger] edges@[x] == (t[x], t[next_around(x, tl)]) by {}
    }
    let mut terms: Vec<(usize, usize)> = Vec::new();
    let mut e: usize = 0;
    while e < edges.len()
        invariant
            edges.len() == 2 * tl,
            t == tail@,
            tl == t.len(),
            tl >= 1,
            forall|x: int| 0 <= x < tl ==> #[trigger] edges@[x] == (t[x], t[next_around(x, tl)]),
            forall|x: int| 0 <= x < tl ==> #[trigger] edges@[x + tl] == (edges@[x].1, edges@[x].0),
            0 <= e <= edges.len(),
            forall|y: (usize, usize)|
                terms@.contains(y) <==> exists|x: int|
                    0 <= x < e && (y == #[trigger] edges@[x] || y == (edges@[x].1, edges@[x].0)),
        decreases edges.len() - e,
    {
        let (i, j) = edges[e];
        let ghost before = terms@;
        terms.push((i, j));
        terms.push((j, i));
        proof {
            assert forall|y: (usize, usize)|
                terms@.contains(y) <==> exists|x: int|
                    0 <= x < e + 1 && (y == #[trigger] edges@[x] || y == (edges@[x].1, edges@[x].0)) by {
                if terms@.contains(y) {
                    let z = choose|z: int| 0 <= z < terms@.len() && terms@[z] == y;
                    if z < before.len() {
                        assert(before.contains(y));
                    } else {
                        assert(y == edges@[e as int] || y == (edges@[e as int].1, edges@[e as int].0));
                    }
                }
                if exists|x: int| 0 <= x < e + 1 && (y == #[trigger] edges@[x] || y == (edges@[x].1, edges@[x].0)) {
                    let x = choose|x: int| 0 <= x < e + 1 && (y == #[trigger] edges@[x] || y == (edges@[x].1, edges@[x].0));
                    if x < e {
                        assert(before.contains(y));
                        let z = choose|z: int| 0 <= z < before.len() && before[z] == y;
                        assert(terms@[z] == y);
                    } else if y == edges@[x] {
                        assert(terms@[before.len() as int] == y);
                    } else {
                        assert(terms@[before.len() as int + 1] == y);
                    }
                }
            }
        }
        e += 1;
    }
    let bound: i64 = if (len - 2) as u128 <= i64::MAX as u128 { (len - 2) as i64 } else { i64::MAX };
    let r = LinearRow { lower: None, upper: Some(bound), terms };
    proof {
        assert forall|y: (usize, usize)| r.terms@.to_set().contains(y) <==> cycle_terms(path@).contains(y) by {
            if r.terms@.contains(y) {
                let x = choose|x: int| 0 <= x < 2 * tl && (y == #[trigger] edges@[x] || y == (edges@[x].1, edges@[x].0));
                let k = if x < tl { x } else { x - tl };
                assert(edges@[k] == (t[k], t[next_around(k, tl)]));
                if x >= tl {
                    assert(edges@[k + tl] == (edges@[k].1, edges@[k].0));
                }
                assert(cycle_pair(t, y.0, y.1));
            }
            if cycle_pair(t, y.0, y.1) {
                let k = choose|k: int|
                    0 <= k < t.len() && ((y.0 == t[k] && y.1 == #[trigger] t[next_around(k, t.len() as int)]) || (y.1 == t[k] && y.0
                        == t[next_around(k, t.len() as int)]));
                assert(edges@[k] == (t[k], t[next_around(k, tl)]));
                assert(y == edges@[k] || y == (edges@[k].1, edges@[k].0));
                assert(r.terms@.contains(y));
            }
        }
        assert(r.terms@.to_set() =~= cycle_terms(path@));
    }
    r
}

/// The row that asks for at least one edge between the cycle and the other
/// vertices of `0..n`.
fn crossing_row(path: &Vec<usize>, n: usize) -> (r: LinearRow)
    requires
        path.len() >= 2,
    ensures
        row_view(r) == (Some(1i64), None::<i64>, crossing_terms(path@, n as int)),
{
    let ghost t = path@.drop_first();
    let mut terms: Vec<(usize, usize)> = Vec::new();
    let mut a: usize = 1;
    while a < path.len()
        invariant
            t == path@.drop_first(),
            1 <= a <= path.len(),
            forall|y: (usize, usize)|
                #[trigger] terms@.contains(y) <==> ((path@.subrange(1, a as int).contains(y.0) && y.1 < n && !path@.contains(y.1))
                    || (path@.subrange(1, a as int).contains(y.1) && y.0 < n && !path@.contains(y.0))),
        decreases path.len() - a,
    {
        let index = path[a];
        let mut other: usize = 0;
        let ghost before = terms@;
        while other < n
            invariant
                1 <= a < path.len(),
                index == path@[a as int],
                0 <= other <= n,
                forall|y: (usize, usize)|
                    #[trigger] terms@.contains(y) <==> (before.contains(y) || ((y.0 == index && y.1 < other && !path@.contains(y.1))
                        || (y.1 == index && y.0 < other && !path@.contains(y.0)))),
            decreases n - other,
        {
            let ghost mid = terms@;
            let ghost o = other;
            let off = !contains_vertex(path, other);
            if off {
                terms.push((index, other));
                terms.push((other, index));
                proof {
                    assert forall|y: (usize, usize)| terms@.contains(y) <==> (mid.contains(y) || y == (index, other) || y == (other, index)) by {
                        if terms@.contains(y) {
                            let z = choose|z: int| 0 <= z < terms@.len() && terms@[z] == y;
                            if z < mid.len() {
                                assert(mid[z] == y);
                            }
                        }
                        if mid.contains(y) {
                            let z = choose|z: int| 0 <= z < mid.len() && mid[z] == y;
                            assert(terms@[z] == y);
                        }
                        if y == (index, other) {
                            assert(terms@[mid.len() as int] == y);
                        }
                        if y == (other, index) {
                            assert(terms@[mid.len() as int + 1] == y);
                        }
                    }
                }
            }
            other += 1;
            proof {
                assert(path@.contains(index)) by {
                    assert(path@[a as int] == index);
                }
                assert forall|y: (usize, usize)|
                    terms@.contains(y) <==> (before.contains(y) || ((y.0 == index && y.1 < other && !path@.contains(y.1))
                        || (y.1 == index && y.0 < other && !path@.contains(y.0)))) by {
                    assert(mid.contains(y) <==> (before.contains(y) || ((y.0 == index && y.1 < o && !path@.contains(y.1))
                        || (y.1 == index && y.0 < o && !path@.contains(y.0)))));
                    if !off {
                        assert(terms@ == mid);
                        assert(path@.contains((other - 1) as usize));
                    } else {
                        assert(!path@.contains((other - 1) as usize));
                        assert(terms@.contains(y) <==> (mid.contains(y) || y == (index, (other - 1) as usize) || y == ((other - 1) as usize, index)));
                    }
                }
            }
        }
        proof {
            let s1 = path@.subrange(1, a as int);
            let s2 = path@.subrange(1, a + 1);
            assert(s2 =~= s1.push(index));
            assert forall|v: usize| s2.contains(v) <==> (s1.contains(v) || v == index) by {
                if s2.contains(v) {
                    let z = choose|z: int| 0 <= z < s2.len() && s2[z] == v;
                    if z < s1.len() {
                        assert(s1[z] == v);
                    }
                }
                if s1.contains(v) {
                    let z = choose|z: int| 0 <= z < s1.len() && s1[z] == v;
                    assert(s2[z] == v);
                }
                if v == index {
                    assert(s2[s1.len() as int] == v);
                }
            }
            assert forall|y: (usize, usize)|
                terms@.contains(y) <==> ((s2.contains(y.0) && y.1 < n && !path@.contains(y.1)) || (s2.contains(y.1)
                    && y.0 < n && !path@.contains(y.0))) by {
                assert(s2.contains(y.0) <==> (s1.contains(y.0) || y.0 == index));
                assert(s2.contains(y.1) <==> (s1.contains(y.1) || y.1 == index));
            }
        }
        a += 1;
    }
    let r = LinearRow { lower: Some(1), upper: None, terms };
    proof {
        assert(path@.subrange(1, path.len() as int) =~= t);
        assert(r.terms@.to_set() =~= crossing_terms(path@, n as int));
    }
    r
}

/// The rows that forbid the cycles among `paths`: for a cycle of `len`
/// entries, at most `len - 2` of its edges in either direction; and, when
/// `len > 4`, at least one edge between it and the other vertices of `0..n`.
pub fn cycle_rows(paths: &Vec<Vec<usize>>, n: usize) -> (r: Vec<LinearRow>)
    requires
        all_edges(paths@),
    ensures
        r@.map_values(|x: LinearRow| row_view(x)) == cycle_rows_spec(path_views(paths@), n as int),
{
    let mut rows: Vec<LinearRow> = Vec::new();
    let mut p: usize = 0;
    while p < paths.len()
        invariant
            all_edges(paths@),
            0 <= p <= paths.len(),
            rows@.map_values(|x: LinearRow| row_view(x)) == cycle_rows_spec(path_views(paths@).take(p as int), n as int),
        decreases paths.len() - p,
    {
        let path = &paths[p];
        assert(path.len() >= 2);
        let ghost before = rows@.map_values(|x: LinearRow| row_view(x));
        let len = path.len();
        if path[0] == path[len - 1] {
            rows.push(cycle_row(path));
            if len > 4 {
                rows.push(crossing_row(path, n));
            }
        }
        proof {
            let pv = path_views(paths@);
            assert(pv.take(p + 1).drop_last() =~= pv.take(p as int));
            assert(pv.take(p + 1).last() == path@);
            assert(rows@.map_values(|x: LinearRow| row_view(x)) =~= before + rows_for(path@, n as int));
        }
        p += 1;
    }
    assert(path_views(paths@).take(p as int) =~= path_views(paths@));
    rows
}

/// The row `k` among the first `3n` rows of the base model: rows `0..n`
/// sum the edges out of vertex `k` (at most 1), rows `n..2n` the edges into
/// vertex `k - n` (at most 1), rows `2n..3n` the edges at vertex `k - 2n` in
/// either direction (at least 1).
pub open spec fn base_row_shape(r: LinearRow, k: int, n: int) -> bool {
    if k < n {
        r.upper == Some(1i64) && r.lower is None && r.terms@ == Seq::new(n as nat, |j: int| (k as usize, j as usize))
    } else if k < 2 * n {
        r.upper == Some(1i64) && r.lower is None && r.terms@ == Seq::new(n as nat, |i: int| (i as usize, (k - n) as usize))
    } else if k < 3 * n {
        r.lower == Some(1i64) && r.upper is None && forall|y: (usize, usize)|
            #[trigger] r.terms@.contains(y) <==> ((y.0 == k - 2 * n && y.1 < n) || (y.1 == k - 2 * n && y.0 < n))
    } else {
        true
    }
}

/// A row of the base model for the vertices `i <= j`: no loop at `i` (its
/// variable is 0) when `i == j`, else at most one of `(i, j)` and `(j, i)`.
pub open spec fn pair_row(r: LinearRow, i: usize, j: usize) -> bool {
    (i == j && r.lower == Some(0i64) && r.upper == Some(0i64) && r.terms@ == seq![(i, i)]) || (i < j && r.lower is None
        && r.upper == Some(1i64) && r.terms@ == seq![(i, j), (j, i)])
}

/// `r` is the pair row of some `i <= j` below `n`.
pub open spec fn is_pair_row(r: LinearRow, n: int) -> bool {
    exists|i: usize, j: usize| i <= j < n && #[trigger] pair_row(r, i, j)
}

/// Some row of `rows[lo..hi]` is the pair row for `i <= j`.
pub open spec fn has_pair_row(rows: Seq<LinearRow>, lo: int, hi: int, i: usize, j: usize) -> bool {
    exists|k: int| lo <= k < hi && #[trigger] pair_row(rows[k], i, j)
}

/// The rows of the model before any cycle is forbidden, for `n` vertices: at
/// most one edge out of and into each vertex, at least one edge at each,
/// no loop and no edge in both directions, and `n - 1` edges in all.
pub fn base_rows(n: usize) -> (r: Vec<LinearRow>)
    requires
        1 <= n <= 0xFFFF,
    ensures
        r.len() == 3 * n + n * (n + 1) / 2 + 1,
        r@[r.len() - 1].lower == Some((n - 1) as i64),
        r@[r.len() - 1].upper == Some((n - 1) as i64),
        r@[r.len() - 1].terms.len() == n * n,
        forall|i: int| 0 <= i < 2 * n ==> (#[trigger] r@[i]).upper == Some(1i64) && r@[i].lower is None,
        forall|i: int| 2 * n <= i < 3 * n ==> (#[trigger] r@[i]).lower == Some(1i64) && r@[i].upper is None,
        forall|i: int| 0 <= i < 3 * n ==> base_row_shape(#[trigger] r@[i], i, n as int),
        forall|k: int| 3 * n <= k < r.len() - 1 ==> is_pair_row(#[trigger] r@[k], n as int),
        forall|i: usize, j: usize| i <= j < n ==> #[trigger] has_pair_row(r@, 3 * n, r.len() - 1, i, j),
        forall|y: (usize, usize)| #[trigger] r@[r.len() - 1].terms@.contains(y) <==> (y.0 < n && y.1 < n),
{
    let mut rows: Vec<LinearRow> = Vec::new();
    let mut i: usize = 0;
    while i < n
        invariant
            0 <= i <= n,
            rows.len() == i,
            forall|k: int| 0 <= k < rows.len() ==> (#[trigger] rows@[k]).upper == Some(1i64) && rows@[k].lower is None,
            forall|k: int| 0 <= k < rows.len() ==> base_row_shape(#[trigger] rows@[k], k, n as int),
        decreases n - i,
    {
        let mut terms: Vec<(usize, usize)> = Vec::new();
        let mut j: usize = 0;
        while j < n
            invariant
                j <= n,
                terms@ == Seq::new(j as nat, |x: int| (i, x as usize)),
            decreases n - j,
        {
            terms.push((i, j));
            j += 1;
            assert(terms@ =~= Seq::new(j as nat, |x: int| (i, x as usize)));
        }
        rows.push(LinearRow { lower: None, upper: Some(1), terms });
        i += 1;
    }
    let mut j: usize = 0;
    while j < n
        invariant
            0 <= j <= n,
            rows.len() == n + j,
            forall|k: int| 0 <= k < rows.len() ==> (#[trigger] rows@[k]).upper == Some(1i64) && rows@[k].lower is None,
            forall|k: int| 0 <= k < rows.len() ==> base_row_shape(#[trigger] rows@[k], k, n as int),
        decreases n - j,
    {
        let mut terms: Vec<(usize, usize)> = Vec::new();
        let mut i: usize = 0;
        while i < n
            invariant
                i <= n,
                terms@ == Seq::new(i as nat, |x: int| (x as usize, j)),
            decreases n - i,
        {
            terms.push((i, j));
            i += 1;
            assert(terms@ =~= Seq::new(i as nat, |x: int| (x as usize, j)));
        }
        rows.push(LinearRow { lower: None, upper: Some(1), terms });
        j += 1;
    }
    let mut i: usize = 0;
    while i < n
        invariant
            0 <= i <= n,
            rows.len() == 2 * n + i,
            forall|k: int| 0 <= k < 2 * n ==> (#[trigger] rows@[k]).upper == Some(1i64) && rows@[k].lower is None,
            forall|k: int| 2 * n <= k < rows.len() ==> (#[trigger] rows@[k]).lower == Some(1i64) && rows@[k].upper is None,
            forall|k: int| 0 <= k < rows.len() ==> base_row_shape(#[trigger] rows@[k], k, n as int),
        decreases n - i,
    {
        let mut terms: Vec<(usize, usize)> = Vec::new();
        let mut j: usize = 0;
        while j < n
            invariant
                i < n,
                j <= n,
                forall|y: (usize, usize)|
                    #[trigger] terms@.contains(y) <==> ((y.0 == i && y.1 < j) || (y.1 == i && y.0 < j)),
            decreases n - j,
        {
            let ghost mid = terms@;
            terms.push((i, j));
            if i != j {
                terms.push((j, i));
            }
            proof {
                assert forall|y: (usize, usize)|
                    #[trigger] terms@.contains(y) <==> ((y.0 == i && y.1 < j + 1) || (y.1 == i && y.0 < j + 1)) by {
                    assert(mid.contains(y) <==> ((y.0 == i && y.1 < j) || (y.1 == i && y.0 < j)));
                    if terms@.contains(y) {
                        let z = choose|z: int| 0 <= z < terms@.len() && terms@[z] == y;
                        if z < mid.len() {
                            assert(mid[z] == y);
                        }
                    }
                    if mid.contains(y) {
                        let z = choose|z: int| 0 <= z < mid.len() && mid[z] == y;
                        assert(terms@[z] == y);
                    }
                    if y == (i, j) {
                        assert(terms@[mid.len() as int] == y);
                    }
                    if y == (j, i) && i != j {
                        assert(terms@[mid.len() as int + 1] == y);
                    }
                }
            }
            j += 1;
        }
        rows.push(LinearRow { lower: Some(1), upper: None, terms });
        i += 1;
    }
    let mut i: usize = 0;
    while i < n
        invariant
            1 <= n <= 0xFFFF,
            0 <= i <= n,
            rows.len() == 3 * n + (i * (2 * n - i + 1)) / 2,
            forall|k: int| 0 <= k < 3 * n ==> base_row_shape(#[trigger] rows@[k], k, n as int),
            forall|k: int| 3 * n <= k < rows.len() ==> is_pair_row(#[trigger] rows@[k], n as int),
            forall|a: usize, b: usize| a < i && a <= b < n ==> #[trigger] has_pair_row(rows@, 3 * n, rows.len() as int, a, b),
            forall|k: int| 0 <= k < 2 * n ==> (#[trigger] rows@[k]).upper == Some(1i64) && rows@[k].lower is None,
            forall|k: int| 2 * n <= k < 3 * n ==> (#[trigger] rows@[k]).lower == Some(1i64) && rows@[k].upper is None,
        decreases n - i,
    {
        let mut j: usize = i;
        while j < n
            invariant
                1 <= n <= 0xFFFF,
                i < n,
                i <= j <= n,
                rows.len() == 3 * n + (i * (2 * n - i + 1)) / 2 + (j - i),
                forall|k: int| 0 <= k < 3 * n ==> base_row_shape(#[trigger] rows@[k], k, n as int),
                forall|k: int| 3 * n <= k < rows.len() ==> is_pair_row(#[trigger] rows@[k], n as int),
                forall|a: usize, b: usize| (a < i && a <= b < n) || (a == i && i <= b < j) ==> #[trigger] has_pair_row(rows@, 3 * n, rows.len() as int, a, b),
                forall|k: int| 0 <= k < 2 * n ==> (#[trigger] rows@[k]).upper == Some(1i64) && rows@[k].lower is None,
                forall|k: int| 2 * n <= k < 3 * n ==> (#[trigger] rows@[k]).lower == Some(1i64) && rows@[k].upper is None,
            decreases n - j,
        {
            let mut terms: Vec<(usize, usize)> = Vec::new();
            let ghost old_rows = rows@;
            if i == j {
                terms.push((i, i));
                assert(terms@ =~= seq![(i, i)]);
                rows.push(LinearRow { lower: Some(0), upper: Some(0), terms });
            } else {
                terms.push((i, j));
                terms.push((j, i));
                assert(terms@ =~= seq![(i, j), (j, i)]);
                rows.push(LinearRow { lower: None, upper: Some(1), terms });
            }
            proof {
                let nk = old_rows.len() as int;
                assert(pair_row(rows@[nk], i, j));
                assert forall|k: int| 3 * n <= k < rows.len() implies is_pair_row(#[trigger] rows@[k], n as int) by {
                    if k < nk {
                        assert(rows@[k] == old_rows[k]);
                    } else {
                        assert(pair_row(rows@[k], i, j));
                    }
                }
                assert forall|a: usize, b: usize| (a < i && a <= b < n) || (a == i && i <= b < j + 1) implies #[trigger] has_pair_row(rows@, 3 * n, rows.len() as int, a, b) by {
                    if a == i && b == j {
                        assert(pair_row(rows@[nk], a, b));
                    } else {
                        assert(has_pair_row(old_rows, 3 * n, old_rows.len() as int, a, b));
                        let k = choose|k: int| 3 * n <= k < old_rows.len() && #[trigger] pair_row(old_rows[k], a, b);
                        assert(rows@[k] == old_rows[k]);
                        assert(pair_row(rows@[k], a, b));
                    }
                }
                assert forall|k: int| 0 <= k < 3 * n implies base_row_shape(#[trigger] rows@[k], k, n as int) by {
                    assert(rows@[k] == old_rows[k]);
                }
            }
            j += 1;
        }
        assert((i * (2 * n - i + 1)) / 2 + (n - i) == ((i + 1) * (2 * n - (i + 1) + 1)) / 2) by (nonlinear_arith)
            requires
                i < n,
        ;
        i += 1;
    }
    assert((n * (2 * n - n + 1)) / 2 == n * (n + 1) / 2);
    let mut terms: Vec<(usize, usize)> = Vec::new();
    let mut i: usize = 0;
    while i < n
        invariant
            1 <= n <= 0xFFFF,
            0 <= i <= n,
            terms.len() == i * n,
            forall|y: (usize, usize)| #[trigger] terms@.contains(y) <==> (y.0 < i && y.1 < n),
        decreases n - i,
    {
        let mut j: usize = 0;
        while j < n
            invariant
                1 <= n <= 0xFFFF,
                i < n,
                0 <= j <= n,
                terms.len() == i * n + j,
                forall|y: (usize, usize)| #[trigger] terms@.contains(y) <==> (y.0 < i || (y.0 == i && y.1 < j)) && y.1 < n,
            decreases n - j,
        {
            let ghost mid = terms@;
            assert(i * n + j < n * n) by (nonlinear_arith)
                requires
                    i < n,
                    j < n,
            ;
            terms.push((i, j));
            proof {
                assert forall|y: (usize, usize)| #[trigger] terms@.contains(y) <==> (y.0 < i || (y.0 == i && y.1 < j + 1)) && y.1 < n by {
                    assert(mid.contains(y) <==> (y.0 < i || (y.0 == i && y.1 < j)) && y.1 < n);
                    if terms@.contains(y) {
                        let z = choose|z: int| 0 <= z < terms@.len() && terms@[z] == y;
                        if z < mid.len() {
                            assert(mid[z] == y);
                        }
                    }
                    if mid.contains(y) {
                        let z = choose|z: int| 0 <= z < mid.len() && mid[z] == y;
                        assert(terms@[z] == y);
                    }
                    if y == (i, j) {
                        assert(terms@[mid.len() as int] == y);
                    }
                }
            }
            j += 1;
        }
        assert(i * n + n == (i + 1) * n) by (nonlinear_arith);
        i += 1;
    }
    let ghost before_last = rows@;
    rows.push(LinearRow { lower: Some((n - 1) as i64), upper: Some((n - 1) as i64), terms });
    proof {
        assert forall|k: int| 0 <= k < rows.len() - 1 implies rows@[k] == before_last[k] by {}
        assert forall|a: usize, b: usize| a <= b < n implies #[trigger] has_pair_row(rows@, 3 * n, rows.len() - 1, a, b) by {
            assert(has_pair_row(before_last, 3 * n, before_last.len() as int, a, b));
            let k = choose|k: int| 3 * n <= k < before_last.len() && #[trigger] pair_row(before_last[k], a, b);
            assert(rows@[k] == before_last[k]);
        }
    }
    rows
}

} // verus!
