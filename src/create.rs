use vstd::prelude::*;
use crate::graph::{
    all_distinct, is_permutation, lemma_missing_vertex, lemma_reordered_permutation, path_cost,
    valid_indices, Edge,
};
use crate::matrix::Graph;
use crate::path::Path;
use crate::step::{edges_of, PathCreation, Progress, Step, StepSink};
use crate::util::{factorial_spec, saturating_factorial};
use bimap::BiMap;
use itertools::Itertools;

verus! {

broadcast use vstd::seq_lib::group_to_multiset_ensures, vstd::multiset::group_multiset_axioms;

/// The path `0, 1, ..., n - 1`.
pub open spec fn identity_path(n: nat) -> Seq<usize> {
    Seq::new(n, |i: int| i as usize)
}

/// Emits the path built so far.
pub fn send_path<S: StepSink>(sink: &mut S, path: &Vec<usize>, progress: Option<Progress>)
    ensures
        exists|c: PathCreation|
            final(sink).sent() == old(sink).sent().push(Step::PathCreation(c)) && c.current_edges@ == edges_of(path@)
                && c.done_path is None && c.progress == progress,
{
    let step = PathCreation::from_path(Path::new(path.clone()));
    let step = match progress {
        Some(p) => step.progress(p),
        None => step,
    };
    let ghost c = step;
    sink.send(Step::PathCreation(step));
}

/// Emits the edges chosen so far.
pub fn send_edges<S: StepSink>(sink: &mut S, edges: Vec<Edge>, progress: Option<Progress>)
    ensures
        exists|c: PathCreation|
            final(sink).sent() == old(sink).sent().push(Step::PathCreation(c)) && c.current_edges@ == edges@
                && c.done_path is None && c.progress == progress,
{
    let ghost e = edges@;
    let step = PathCreation::from_edges(edges);
    let step = match progress {
        Some(p) => step.progress(p),
        None => step,
    };
    let ghost c = step;
    sink.send(Step::PathCreation(step));
}

/// The vertices `0..n` in order.
pub fn node_indices(n: usize) -> (r: Vec<usize>)
    ensures
        r@ == identity_path(n as nat),
        is_permutation(r@, n as nat),
{
    let mut v: Vec<usize> = Vec::new();
    let mut i: usize = 0;
    while i < n
        invariant
            0 <= i <= n,
            v@ == identity_path(i as nat),
        decreases n - i,
    {
        v.push(i);
        i += 1;
        assert(v@ =~= identity_path(i as nat));
    }
    v
}

/// The path that visits the vertices in the order they are given.
pub fn transmute(graph: &Graph) -> (r: Path)
    ensures
        r@ == identity_path(graph.weights().len()),
        is_permutation(r@, graph.weights().len()),
{
    Path::new(node_indices(graph.size()))
}

/// Relies on fastrand::shuffle: it reorders the slice's elements in place.
#[verifier::external_body]
fn shuffle(v: &mut Vec<usize>)
    ensures
        final(v)@.to_multiset() == old(v)@.to_multiset(),
{
    fastrand::shuffle(v)
}

/// A random order of the vertices.
pub fn random(graph: &Graph) -> (r: Path)
    ensures
        is_permutation(r@, graph.weights().len()),
{
    let mut path = node_indices(graph.size());
    let ghost before = path@;
    shuffle(&mut path);
    proof {
        lemma_reordered_permutation(before, path@, graph.weights().len());
    }
    Path::new(path)
}

/// Each vertex of `p` after the first is, among those not yet on `p`
/// before it, the first (by index) of those nearest to its predecessor.
pub open spec fn nearest_walk(w: Seq<Seq<i64>>, p: Seq<usize>) -> bool {
    forall|k: int, v: usize|
        1 <= k < p.len() && v < w.len() && !#[trigger] p.take(k).contains(v) ==> w[p[k - 1] as int][p[k] as int]
            <= w[p[k - 1] as int][v as int] && (v < p[k] ==> w[p[k - 1] as int][p[k] as int]
            < w[p[k - 1] as int][v as int])
}

/// `p` is the nearest-neighbour walk from `s`.
pub open spec fn nearest_walk_from(w: Seq<Seq<i64>>, s: int, p: Seq<usize>) -> bool {
    is_permutation(p, w.len()) && p[0] == s && nearest_walk(w, p)
}

proof fn lemma_walk_prefix(w: Seq<Seq<i64>>, s: int, p: Seq<usize>, q: Seq<usize>, k: int)
    requires
        nearest_walk_from(w, s, p),
        nearest_walk_from(w, s, q),
        1 <= k <= p.len(),
    ensures
        p.take(k) == q.take(k),
    decreases k,
{
    if k == 1 {
        assert(p.take(1) =~= q.take(1));
    } else {
        lemma_walk_prefix(w, s, p, q, k - 1);
        let j = k - 1;
        let a = p[j];
        let b = q[j];
        let l = p[j - 1];
        assert(q[j - 1] == q.take(k - 1)[j - 1]);
        assert(p[j - 1] == p.take(k - 1)[j - 1]);
        if !p.take(j).contains(b) == false {
            let i = choose|i: int| 0 <= i < j && p.take(j)[i] == b;
            assert(q.take(j)[i] == b);
            assert(q[i] == q[j]);
        }
        if q.take(j).contains(a) {
            let i = choose|i: int| 0 <= i < j && q.take(j)[i] == a;
            assert(p.take(j)[i] == a);
            assert(p[i] == p[j]);
        }
        assert(!p.take(j).contains(b));
        assert(!q.take(j).contains(a));
        assert(b < w.len() && a < w.len());
        assert(w[l as int][a as int] <= w[l as int][b as int]);
        assert(w[l as int][b as int] <= w[l as int][a as int]);
        assert(b < a ==> w[p[j - 1] as int][p[j] as int] < w[p[j - 1] as int][b as int]);
        assert(q[j - 1] == l);
        assert(a < b ==> w[q[j - 1] as int][q[j] as int] < w[q[j - 1] as int][a as int]);
        assert(a == b);
        assert(p.take(k) =~= q.take(k)) by {
            assert forall|i: int| 0 <= i < k implies p.take(k)[i] == q.take(k)[i] by {
                if i < j {
                    assert(p.take(j)[i] == q.take(j)[i]);
                }
            }
        }
    }
}

/// There is one nearest-neighbour walk from each start.
proof fn lemma_walk_unique(w: Seq<Seq<i64>>, s: int, p: Seq<usize>, q: Seq<usize>)
    requires
        nearest_walk_from(w, s, p),
        nearest_walk_from(w, s, q),
    ensures
        p == q,
{
    if p.len() > 0 {
        lemma_walk_prefix(w, s, p, q, p.len() as int);
        assert(p.take(p.len() as int) =~= p);
        assert(q.take(q.len() as int) =~= q);
    } else {
        assert(p =~= q);
    }
}

/// The unvisited vertex nearest to `last`; the first such on ties.
fn nearest_unvisited(graph: &Graph, visited: &Vec<bool>, last: usize, path: Ghost<Seq<usize>>) -> (r: usize)
    requires
        graph.wf(),
        visited.len() == graph.weights().len(),
        last < graph.weights().len(),
        all_distinct(path@),
        valid_indices(path@, graph.weights().len()),
        path@.len() < graph.weights().len(),
        forall|v: int| 0 <= v < visited.len() ==> (visited@[v] <==> path@.contains(v as usize)),
    ensures
        r < graph.weights().len(),
        !visited@[r as int],
        forall|v: int|
            0 <= v < graph.weights().len() && !visited@[v] ==> graph.weights()[last as int][r as int]
                <= graph.weights()[last as int][v],
        forall|v: int|
            0 <= v < r && !visited@[v] ==> graph.weights()[last as int][r as int] < graph.weights()[last as int][v],
{
    let n = graph.size();
    proof {
        let w = lemma_missing_vertex(path@, n as nat);
        assert(!visited@[w as int]);
    }
    let mut best: Option<usize> = None;
    let mut ni: usize = 0;
    while ni < n
        invariant
            graph.wf(),
            n == graph.weights().len(),
            visited.len() == n,
            last < n,
            0 <= ni <= n,
            best matches Some(b) ==> b < ni && !visited@[b as int] && forall|v: int|
                0 <= v < ni && !visited@[v] ==> graph.weights()[last as int][b as int]
                    <= graph.weights()[last as int][v],
            best is None ==> forall|v: int| 0 <= v < ni ==> visited@[v],
            best matches Some(b) ==> forall|v: int|
                0 <= v < b && !visited@[v] ==> graph.weights()[last as int][b as int] < graph.weights()[last as int][v],
            exists|w: int| 0 <= w < n && !visited@[w],
        decreases n - ni,
    {
        if !visited[ni] {
            match best {
                None => {
                    best = Some(ni);
                },
                Some(b) => {
                    if graph.dist(last, ni) < graph.dist(last, b) {
                        best = Some(ni);
                    }
                },
            }
        }
        ni += 1;
    }
    match best {
        Some(b) => b,
        None => {
            proof {
                let w = choose|w: int| 0 <= w < n && !visited@[w];
                assert(visited@[w]);
            }
            0
        },
    }
}

/// A path that starts at `start` and goes on to the nearest unvisited vertex
/// until all are visited. `on_step` says how each extension is reported:
/// 0 for the fraction `len / n`, 1 for `len / 2n`, 2 not at all.
fn walk_nearest<S: StepSink>(graph: &Graph, start: usize, sink: &mut S, on_step: u8) -> (r: Vec<usize>)
    requires
        graph.wf(),
        start < graph.weights().len(),
    ensures
        is_permutation(r@, graph.weights().len()),
        r@[0] == start,
        nearest_walk(graph.weights(), r@),
{
    let n = graph.size();
    let mut visited: Vec<bool> = Vec::new();
    let mut k: usize = 0;
    while k < n
        invariant
            0 <= k <= n,
            visited.len() == k,
            forall|v: int| 0 <= v < k ==> !visited@[v],
        decreases n - k,
    {
        visited.push(false);
        k += 1;
    }
    let mut path: Vec<usize> = Vec::new();
    path.push(start);
    visited.set(start, true);
    assert forall|v: int| 0 <= v < n implies (visited@[v] <==> path@.contains(v as usize)) by {
        if v == start as int {
            assert(path@[0] == start);
        }
    }
    while path.len() < n
        invariant
            graph.wf(),
            n == graph.weights().len(),
            visited.len() == n,
            1 <= path.len() <= n,
            path@[0] == start,
            all_distinct(path@),
            valid_indices(path@, n as nat),
            nearest_walk(graph.weights(), path@),
            forall|v: int| 0 <= v < n ==> (visited@[v] <==> path@.contains(v as usize)),
        decreases n - path.len(),
    {
        let last = path[path.len() - 1];
        let min = nearest_unvisited(graph, &visited, last, Ghost(path@));
        let ghost old_path = path@;
        let ghost old_visited = visited@;
        path.push(min);
        visited.set(min, true);
        proof {
            assert(!old_path.contains(min));
            let w = graph.weights();
            assert forall|k: int, v: usize|
                1 <= k < path@.len() && v < w.len() && !#[trigger] path@.take(k).contains(v) implies w[path@[k - 1] as int][path@[k] as int]
                    <= w[path@[k - 1] as int][v as int] && (v < path@[k] ==> w[path@[k - 1] as int][path@[k] as int]
                    < w[path@[k - 1] as int][v as int]) by {
                if k == old_path.len() {
                    assert(path@.take(k) =~= old_path);
                    assert(!old_visited[v as int]);
                    assert(path@[k - 1] == last && path@[k] == min);
                } else {
                    assert(path@.take(k) =~= old_path.take(k));
                }
            }
            assert forall|i: int, j: int| 0 <= i < j < path@.len() implies path@[i] != path@[j] by {
                if j == old_path.len() {
                    assert(old_path.contains(old_path[i]));
                }
            }
            assert forall|v: int| 0 <= v < n implies (visited@[v] <==> path@.contains(v as usize)) by {
                if v == min as int {
                    assert(path@[old_path.len() as int] == min);
                } else {
                    if path@.contains(v as usize) {
                        let i = choose|i: int| 0 <= i < path@.len() && path@[i] == v as usize;
                        assert(i < old_path.len());
                        assert(old_path[i] == v as usize);
                    }
                    if old_path.contains(v as usize) {
                        let i = choose|i: int| 0 <= i < old_path.len() && old_path[i] == v as usize;
                        assert(path@[i] == v as usize);
                    }
                }
            }
        }
        if on_step == 0 {
            send_path(sink, &path, Some(Progress::fraction(path.len(), n)));
        } else if on_step == 1 {
            send_path(sink, &path, Some(Progress::new(path.len() as u128, 2 * (n as u128))));
        }
    }
    path
}

/// Nearest neighbour from vertex 0: the path goes on to the nearest unvisited
/// vertex each time.
pub fn nearest_neighbor<S: StepSink>(graph: &Graph, sink: &mut S) -> (r: Path)
    requires
        graph.wf(),
    ensures
        is_permutation(r@, graph.weights().len()),
        graph.weights().len() > 0 ==> r@[0] == 0,
        nearest_walk(graph.weights(), r@),
{
    if graph.size() == 0 {
        return Path::new(Vec::new());
    }
    Path::new(walk_nearest(graph, 0, sink, 0))
}

/// Nearest neighbour from every start vertex; the cheapest of these paths
/// (the first on ties).
pub fn optimal_nearest_neighbor<S: StepSink>(graph: &Graph, sink: &mut S) -> (r: Path)
    requires
        graph.wf(),
    ensures
        is_permutation(r@, graph.weights().len()),
        nearest_walk(graph.weights(), r@),
        graph.weights().len() > 0 ==> exists|s: int|
            0 <= s < graph.weights().len() && #[trigger] nearest_walk_from(graph.weights(), s, r@) && forall|t: int, q: Seq<usize>|
                0 <= t < graph.weights().len() && #[trigger] nearest_walk_from(graph.weights(), t, q) ==> path_cost(graph.weights(), r@)
                    <= path_cost(graph.weights(), q) && (t < s ==> path_cost(graph.weights(), r@) < path_cost(
                    graph.weights(),
                    q,
                )),
{
    let n = graph.size();
    let ghost w = graph.weights();
    if n == 0 {
        return Path::new(Vec::new());
    }
    let mut best: Vec<usize> = Vec::new();
    let mut best_cost: i128 = 0;
    let mut best_start: usize = 0;
    let mut start_point: usize = 0;
    while start_point < n
        invariant
            graph.wf(),
            w == graph.weights(),
            n == graph.weights().len(),
            n > 0,
            0 <= start_point <= n,
            start_point > 0 ==> is_permutation(best@, n as nat) && best_cost == path_cost(graph.weights(), best@)
                && nearest_walk(graph.weights(), best@) && best_start < start_point && nearest_walk_from(
                w,
                best_start as int,
                best@,
            ),
            forall|t: int, q: Seq<usize>|
                0 <= t < start_point && #[trigger] nearest_walk_from(w, t, q) ==> best_cost <= path_cost(w, q) && (t
                    < best_start ==> best_cost < path_cost(w, q)),
        decreases n - start_point,
    {
        let path = walk_nearest(graph, start_point, sink, if start_point == 0 { 1 } else { 2 });
        send_path(sink, &path, Some(Progress::new(start_point as u128 + n as u128, 2 * (n as u128))));
        let cost = graph.dist_path(&path);
        let ghost old_cost = best_cost;
        let ghost old_start = best_start;
        if start_point == 0 || cost < best_cost {
            best = path;
            best_cost = cost;
            best_start = start_point;
        }
        proof {
            assert forall|t: int, q: Seq<usize>|
                0 <= t < start_point + 1 && #[trigger] nearest_walk_from(w, t, q) implies best_cost <= path_cost(w, q) && (t
                    < best_start ==> best_cost < path_cost(w, q)) by {
                if t == start_point {
                    lemma_walk_unique(w, t, path@, q);
                } else {
                    assert(old_cost <= path_cost(w, q) && (t < old_start ==> old_cost < path_cost(w, q)));
                }
            }
        }
        start_point += 1;
    }
    assert(nearest_walk_from(w, best_start as int, best@));
    Path::new(best)
}

/// Whether `path` visits each vertex of `0..n` exactly once.
pub fn check_permutation(path: &Vec<usize>, n: usize) -> (r: bool)
    ensures
        r == is_permutation(path@, n as nat),
{
    if path.len() != n {
        return false;
    }
    let mut seen: Vec<bool> = Vec::new();
    let mut k: usize = 0;
    while k < n
        invariant
            0 <= k <= n,
            seen.len() == k,
            forall|v: int| 0 <= v < k ==> !seen@[v],
        decreases n - k,
    {
        seen.push(false);
        k += 1;
    }
    let mut i: usize = 0;
    while i < n
        invariant
            path.len() == n,
            seen.len() == n,
            0 <= i <= n,
            valid_indices(path@.take(i as int), n as nat),
            all_distinct(path@.take(i as int)),
            forall|v: int| 0 <= v < n ==> (seen@[v] <==> path@.take(i as int).contains(v as usize)),
        decreases n - i,
    {
        let v = path[i];
        let ghost before = path@.take(i as int);
        assert(path@.take(i as int + 1) =~= before.push(v));
        if v >= n {
            assert(!valid_indices(path@, n as nat)) by {
                assert(path@[i as int] == v);
            }
            return false;
        }
        if seen[v] {
            assert(!all_distinct(path@)) by {
                let j = choose|j: int| 0 <= j < before.len() && before[j] == v;
                assert(path@[j] == path@[i as int]);
            }
            return false;
        }
        seen.set(v, true);
        i += 1;
        proof {
            let after = path@.take(i as int);
            assert forall|a: int, b: int| 0 <= a < b < after.len() implies after[a] != after[b] by {
                if b == i - 1 {
                    assert(before.contains(after[a]));
                }
            }
            assert forall|w: int| 0 <= w < n implies (seen@[w] <==> after.contains(w as usize)) by {
                if w == v as int {
                    assert(after[i - 1] == v);
                } else {
                    if after.contains(w as usize) {
                        let j = choose|j: int| 0 <= j < after.len() && after[j] == w as usize;
                        assert(before[j] == w as usize);
                    }
                    if before.contains(w as usize) {
                        let j = choose|j: int| 0 <= j < before.len() && before[j] == w as usize;
                        assert(after[j] == w as usize);
                    }
                }
            }
        }
    }
    assert(path@.take(n as int) =~= path@);
    true
}

#[verifier::external_type_specification]
#[verifier::external_body]
#[verifier::reject_recursive_types(I)]
pub struct ExPermutations<I: Iterator>(itertools::Permutations<I>);

/// The orderings that a permutations iterator has still to give, in the
/// order it gives them.
pub uninterp spec fn permutations_left(it: itertools::Permutations<std::ops::Range<usize>>) -> Seq<Seq<usize>>;

/// Relies on itertools::Itertools::permutations: the iterator over the
/// orderings of length `n` of `0..n` gives each ordering once, `n!` in all.
#[verifier::external_body]
fn index_permutations(n: usize) -> (r: itertools::Permutations<std::ops::Range<usize>>)
    ensures
        permutations_left(r).len() == factorial_spec(n as nat),
        forall|i: int|
            0 <= i < permutations_left(r).len() ==> is_permutation(#[trigger] permutations_left(r)[i], n as nat),
        forall|p: Seq<usize>| is_permutation(p, n as nat) ==> #[trigger] permutations_left(r).contains(p),
{
    (0..n).permutations(n)
}

/// Relies on Iterator::next of itertools::Permutations: the next ordering,
/// or `None` once all have been given.
#[verifier::external_body]
fn next_permutation(it: &mut itertools::Permutations<std::ops::Range<usize>>) -> (r: Option<Vec<usize>>)
    ensures
        permutations_left(*old(it)).len() == 0 ==> r is None && permutations_left(*final(it)) == permutations_left(
            *old(it),
        ),
        permutations_left(*old(it)).len() > 0 ==> (r matches Some(v) && v@ == permutations_left(*old(it))[0]
            && permutations_left(*final(it)) == permutations_left(*old(it)).drop_first()),
{
    it.next()
}

/// The least power of two not below `x`, or the largest power of two that a
/// `usize` holds where that is below `x`.
fn next_power_of_two(x: usize) -> (r: usize)
    ensures
        r >= 1,
{
    let mut p: usize = 1;
    while p < x && p <= usize::MAX / 2
        invariant
            p >= 1,
        decreases usize::MAX - p,
    {
        p = p * 2;
    }
    p
}

/// Tries every ordering of the vertices and keeps the cheapest (the first on
/// ties). Emits the best so far every `2^k / 32` orderings, where `2^k` is
/// the least power of two not below `n!`. Where `n!` does not fit a `usize`,
/// only the first `usize::MAX` orderings are tried.
pub fn brute_force<S: StepSink>(graph: &Graph, sink: &mut S) -> (r: Path)
    requires
        graph.wf(),
    ensures
        is_permutation(r@, graph.weights().len()),
        factorial_spec(graph.weights().len()) <= usize::MAX ==> forall|p: Seq<usize>|
            is_permutation(p, graph.weights().len()) ==> path_cost(graph.weights(), r@) <= #[trigger] path_cost(
                graph.weights(),
                p,
            ),
{
    let n = graph.size();
    let permutation_count = saturating_factorial(n);
    let send_every = next_power_of_two(permutation_count) / 32;
    let mask = if send_every == 0 { usize::MAX } else { send_every - 1 };
    let mut min_permutation = node_indices(n);
    let mut min: Option<i128> = None;
    let mut permutations = index_permutations(n);
    let ghost all = permutations_left(permutations);
    let ghost w = graph.weights();
    let mut i: usize = 0;
    let mut exhausted = false;
    while i < permutation_count && !exhausted
        invariant
            graph.wf(),
            w == graph.weights(),
            exhausted ==> i == all.len(),
            n == graph.weights().len(),
            is_permutation(min_permutation@, n as nat),
            min matches Some(c) ==> c == path_cost(graph.weights(), min_permutation@),
            0 <= i <= permutation_count,
            all.len() == factorial_spec(n as nat),
            factorial_spec(n as nat) <= usize::MAX ==> permutation_count == factorial_spec(n as nat),
            forall|j: int| 0 <= j < all.len() ==> is_permutation(#[trigger] all[j], n as nat),
            permutation_count <= all.len(),
            i <= all.len(),
            permutations_left(permutations) == all.subrange(i as int, all.len() as int),
            forall|j: int|
                0 <= j < i && j < all.len() ==> (min matches Some(c) && c <= path_cost(w, #[trigger] all[j])),
        decreases permutation_count - i,
    {
        let ghost left = permutations_left(permutations);
        match next_permutation(&mut permutations) {
            None => {
                exhausted = true;
            },
            Some(permutation) => {
                proof {
                    assert(left == all.subrange(i as int, all.len() as int));
                    assert(permutation@ == all[i as int]);
                    assert(permutations_left(permutations) =~= all.subrange(i + 1, all.len() as int));
                }
                if check_permutation(&permutation, n) {
                    let cost = graph.dist_path(&permutation);
                    let better = match min {
                        None => true,
                        Some(m) => cost < m,
                    };
                    if better {
                        min = Some(cost);
                        min_permutation = permutation;
                    }
                    if i & mask == 0 {
                        send_path(sink, &min_permutation, Some(Progress::fraction(i, permutation_count)));
                    }
                }
                i += 1;
            },
        }
    }
    proof {
        if factorial_spec(n as nat) <= usize::MAX {
            assert forall|p: Seq<usize>| is_permutation(p, n as nat) implies path_cost(w, min_permutation@) <= #[trigger] path_cost(w, p) by {
                assert(all.contains(p));
                let j = choose|j: int| 0 <= j < all.len() && all[j] == p;
                assert(j < i);
            }
        }
    }
    Path::new(min_permutation)
}

#[verifier::external_type_specification]
#[verifier::external_body]
#[verifier::reject_recursive_types(L)]
#[verifier::reject_recursive_types(R)]
#[verifier::reject_recursive_types(LS)]
#[verifier::reject_recursive_types(RS)]
pub struct ExBiHashMap<L, R, LS, RS>(bimap::BiHashMap<L, R, LS, RS>);

/// The left-to-right pairs that a bimap holds.
pub uninterp spec fn successor_pairs(m: BiMap<usize, usize>) -> Map<usize, usize>;

/// Relies on bimap::BiHashMap::with_capacity: an empty bimap.
#[verifier::external_body]
fn successor_map(capacity: usize) -> (r: BiMap<usize, usize>)
    ensures
        successor_pairs(r) =~= Map::empty(),
{
    BiMap::with_capacity(capacity)
}

/// Relies on bimap::BiHashMap::len: the number of pairs.
#[verifier::external_body]
fn successor_count(m: &BiMap<usize, usize>) -> (r: usize)
    ensures
        r == successor_pairs(*m).len(),
{
    m.len()
}

/// Relies on bimap::BiHashMap::insert_no_overwrite: the pair goes in exactly
/// when neither its left nor its right value is in the bimap yet.
#[verifier::external_body]
fn insert_no_overwrite(m: &mut BiMap<usize, usize>, left: usize, right: usize) -> (r: bool)
    ensures
        r == !(successor_pairs(*old(m)).contains_key(left) || exists|l: usize|
            successor_pairs(*old(m)).contains_key(l) && successor_pairs(*old(m))[l] == right),
        r ==> successor_pairs(*final(m)) == successor_pairs(*old(m)).insert(left, right),
        !r ==> successor_pairs(*final(m)) == successor_pairs(*old(m)),
{
    m.insert_no_overwrite(left, right).is_ok()
}

/// Relies on bimap::BiHashMap::get_by_left: the right value paired with
/// `left`, if any.
#[verifier::external_body]
fn get_by_left(m: &BiMap<usize, usize>, left: usize) -> (r: Option<usize>)
    ensures
        successor_pairs(*m).contains_key(left) ==> r == Some(successor_pairs(*m)[left]),
        !successor_pairs(*m).contains_key(left) ==> r is None,
{
    m.get_by_left(&left).copied()
}

/// Relies on bimap::BiHashMap::get_by_right: the left value paired with
/// `right`, if any.
#[verifier::external_body]
fn get_by_right(m: &BiMap<usize, usize>, right: usize) -> (r: Option<usize>)
    ensures
        r matches Some(l) ==> successor_pairs(*m).contains_key(l) && successor_pairs(*m)[l] == right,
        r is None ==> forall|l: usize|
            successor_pairs(*m).contains_key(l) ==> successor_pairs(*m)[l] != right,
{
    m.get_by_right(&right).copied()
}

/// Relies on bimap::BiHashMap::remove_by_left: the pair of `left` leaves.
#[verifier::external_body]
fn remove_by_left(m: &mut BiMap<usize, usize>, left: usize)
    ensures
        successor_pairs(*final(m)) == successor_pairs(*old(m)).remove(left),
{
    m.remove_by_left(&left);
}

/// Relies on itertools::Itertools::sorted_by_key: a stable sort of the
/// candidate edges by their weight, the first field (items of equal weight
/// keep their order).
#[verifier::external_body]
fn sort_by_weight(candidates: Vec<(i64, usize, usize)>) -> (r: Vec<(i64, usize, usize)>)
    ensures
        r@.to_multiset() == candidates@.to_multiset(),
        forall|a: int, b: int| 0 <= a < b < r.len() ==> r@[a].0 <= r@[b].0,
        forall|a: int, b: int|
            0 <= a < b < r.len() && r@[a].0 == r@[b].0 ==> exists|i: int, j: int|
                0 <= i < j < candidates.len() && #[trigger] candidates@[i] == r@[a] && #[trigger] candidates@[j] == r@[b],
{
    candidates.into_iter().sorted_by_key(|c| c.0).collect()
}

/// The vertices `0..n` as a set.
pub open spec fn below(n: nat) -> Set<usize> {
    Set::new(|y: usize| (y as int) < n)
}

proof fn lemma_below(n: nat)
    requires
        n <= usize::MAX + 1,
    ensures
        below(n).finite(),
        below(n).len() == n,
    decreases n,
{
    if n == 0 {
        assert(below(0) =~= Set::empty());
    } else {
        lemma_below((n - 1) as nat);
        assert(below(n) =~= below((n - 1) as nat).insert((n - 1) as usize));
    }
}

/// The successor map `m` is a set of vertex-disjoint chains: `chain[c]` is
/// the `c`-th chain (possibly empty), vertex `x` sits at position `pos[x]`
/// of chain `cid[x]`, and `m` sends each vertex to the next one on its
/// chain.
pub open spec fn chains_ok(n: int, m: Map<usize, usize>, chain: Seq<Seq<usize>>, cid: Seq<int>, pos: Seq<int>) -> bool {
    &&& chain.len() == n && cid.len() == n && pos.len() == n
    &&& m.dom().finite()
    &&& forall|x: int|
        #![trigger cid[x]]
        #![trigger pos[x]]
        0 <= x < n ==> 0 <= cid[x] < n && 0 <= pos[x] < chain[cid[x]].len() && chain[cid[x]][pos[x]] == x
    &&& forall|c: int, k: int|
        0 <= c < n && 0 <= k < chain[c].len() ==> (#[trigger] chain[c][k]) < n && cid[chain[c][k] as int] == c
            && pos[chain[c][k] as int] == k
    &&& forall|x: usize| #[trigger] m.contains_key(x) ==> x < n
    &&& forall|x: int| 0 <= x < n ==> (#[trigger] m.contains_key(x as usize) <==> pos[x] + 1 < chain[cid[x]].len())
    &&& forall|x: int| 0 <= x < n && #[trigger] m.contains_key(x as usize) ==> m[x as usize] == chain[cid[x]][pos[x] + 1]
}

/// The candidate edges: every ordered pair of distinct vertices, with its
/// weight.
pub open spec fn all_candidates(w: Seq<Seq<i64>>, s: Seq<(i64, usize, usize)>) -> bool {
    &&& forall|t: int| 0 <= t < s.len() ==> (#[trigger] s[t]).1 < w.len() && s[t].2 < w.len() && s[t].1 != s[t].2
    &&& forall|a: usize, b: usize| a < w.len() && b < w.len() && a != b ==> #[trigger] s.contains((w[a as int][b as int], a, b))
}

/// `(a1, b1)` comes before `(a2, b2)` in lexicographic order.
pub open spec fn pair_lt(a1: usize, b1: usize, a2: usize, b2: usize) -> bool {
    a1 < a2 || (a1 == a2 && b1 < b2)
}

/// `s` holds each candidate edge `(w[a][b], a, b)`, `a != b`, once, by
/// ascending weight and, for equal weights, in lexicographic order of
/// `(a, b)`.
pub open spec fn candidate_order(w: Seq<Seq<i64>>, s: Seq<(i64, usize, usize)>) -> bool {
    &&& all_candidates(w, s)
    &&& forall|t: int| 0 <= t < s.len() ==> (#[trigger] s[t]).0 == w[s[t].1 as int][s[t].2 as int]
    &&& forall|a: int, b: int|
        0 <= a < b < s.len() ==> (#[trigger] s[a]).0 < (#[trigger] s[b]).0 || (s[a].0 == s[b].0 && pair_lt(
            s[a].1,
            s[a].2,
            s[b].1,
            s[b].2,
        ))
}

/// The vertex `k` steps along the successors of `x`, if the walk goes on
/// that far.
pub open spec fn succ_iter(m: Map<usize, usize>, x: usize, k: nat) -> Option<usize>
    decreases k,
{
    if k == 0 {
        Some(x)
    } else {
        match succ_iter(m, x, (k - 1) as nat) {
            Some(y) => if m.contains_key(y) { Some(m[y]) } else { None },
            None => None,
        }
    }
}

/// Following successors from `from` leads to `to` within `1..=n` steps.
pub open spec fn reaches(m: Map<usize, usize>, from: usize, to: usize, n: nat) -> bool {
    exists|k: nat| 1 <= k <= n && #[trigger] succ_iter(m, from, k) == Some(to)
}

/// Some vertex has `b` as its successor.
pub open spec fn has_pred(m: Map<usize, usize>, b: usize) -> bool {
    exists|l: usize| m.contains_key(l) && m[l] == b
}

/// The edges that greedy has kept after trying the first `k` candidates of
/// `s`: a candidate `(_, a, b)` is kept unless `n - 1` edges are kept
/// already, `a` has a successor, `b` has a predecessor, or `b` leads to
/// `a` (so that the edge would close a cycle).
pub open spec fn greedy_map(s: Seq<(i64, usize, usize)>, n: nat, k: int) -> Map<usize, usize>
    decreases k,
{
    if k <= 0 {
        Map::empty()
    } else {
        let m = greedy_map(s, n, k - 1);
        let c = s[k - 1];
        if m.len() >= n - 1 || m.contains_key(c.1) || has_pred(m, c.2) || reaches(m, c.2, c.1, n) {
            m
        } else {
            m.insert(c.1, c.2)
        }
    }
}

proof fn lemma_greedy_map_full(s: Seq<(i64, usize, usize)>, n: nat, k: int, j: int)
    requires
        0 <= k <= j,
        greedy_map(s, n, k).len() >= n - 1,
    ensures
        greedy_map(s, n, j) == greedy_map(s, n, k),
    decreases j - k,
{
    if j > k {
        lemma_greedy_map_full(s, n, k, j - 1);
    }
}

proof fn lemma_succ_iter(n: int, m: Map<usize, usize>, chain: Seq<Seq<usize>>, cid: Seq<int>, pos: Seq<int>, x: usize, k: nat)
    requires
        chains_ok(n, m, chain, cid, pos),
        (x as int) < n,
    ensures
        succ_iter(m, x, k) == if pos[x as int] + k < chain[cid[x as int]].len() {
            Some(chain[cid[x as int]][pos[x as int] + k])
        } else {
            None::<usize>
        },
    decreases k,
{
    let c = cid[x as int];
    let p = pos[x as int];
    if k == 0 {
        assert(chain[c][p] == x);
    } else {
        lemma_succ_iter(n, m, chain, cid, pos, x, (k - 1) as nat);
        if p + k - 1 < chain[c].len() {
            let y = chain[c][p + k - 1];
            assert(cid[y as int] == c && pos[y as int] == p + k - 1);
            assert(m.contains_key((y as int) as usize) <==> pos[y as int] + 1 < chain[cid[y as int]].len());
        }
    }
}

/// For an edge from the end of a chain to the start of a chain, the start
/// leads to the end exactly when both lie on one chain.
proof fn lemma_reaches_same_chain(n: int, m: Map<usize, usize>, chain: Seq<Seq<usize>>, cid: Seq<int>, pos: Seq<int>, a: usize, b: usize)
    requires
        chains_ok(n, m, chain, cid, pos),
        (a as int) < n,
        (b as int) < n,
        a != b,
        pos[b as int] == 0,
        pos[a as int] + 1 == chain[cid[a as int]].len(),
    ensures
        reaches(m, b, a, n as nat) <==> cid[a as int] == cid[b as int],
{
    let cb = cid[b as int];
    let lb = chain[cb].len();
    assert forall|a2: int, b2: int| 0 <= a2 < b2 < lb implies chain[cb][a2] != chain[cb][b2] by {
        assert(pos[chain[cb][a2] as int] == a2);
        assert(pos[chain[cb][b2] as int] == b2);
    }
    assert(valid_indices(chain[cb], n as nat));
    crate::graph::lemma_distinct_len(chain[cb], n as nat);
    if cid[a as int] == cb {
        let k = (lb - 1) as nat;
        lemma_succ_iter(n, m, chain, cid, pos, b, k);
        assert(chain[cb][pos[a as int]] == a);
        assert(k >= 1) by {
            if k == 0 {
                assert(chain[cb][0] == b);
            }
        }
        assert(succ_iter(m, b, k) == Some(a));
    }
    if reaches(m, b, a, n as nat) {
        let k = choose|k: nat| 1 <= k <= n && #[trigger] succ_iter(m, b, k) == Some(a);
        lemma_succ_iter(n, m, chain, cid, pos, b, k);
        let y = chain[cb][k as int];
        assert(cid[y as int] == cb);
    }
}

/// An edge `(a, b)` that greedy may not take: `a` has a successor, `b` a
/// predecessor, or both lie on one chain.
pub open spec fn blocked(chain: Seq<Seq<usize>>, cid: Seq<int>, pos: Seq<int>, m: Map<usize, usize>, a: usize, b: usize) -> bool {
    m.contains_key(a) || pos[b as int] > 0 || cid[a as int] == cid[b as int]
}

proof fn lemma_pred(n: int, m: Map<usize, usize>, chain: Seq<Seq<usize>>, cid: Seq<int>, pos: Seq<int>, y: usize, b: usize)
    requires
        chains_ok(n, m, chain, cid, pos),
        m.contains_key(y),
        m[y] == b,
    ensures
        (y as int) < n,
        (b as int) < n,
        cid[b as int] == cid[y as int],
        pos[b as int] == pos[y as int] + 1,
{
    assert((y as int) < n);
    let c = cid[y as int];
    let k = pos[y as int] + 1;
    assert(m.contains_key((y as int) as usize));
    assert(chain[c][k] == b);
}

/// `b` has a predecessor exactly when it is not first on its chain.
proof fn lemma_has_pred(n: int, m: Map<usize, usize>, chain: Seq<Seq<usize>>, cid: Seq<int>, pos: Seq<int>, b: usize)
    requires
        chains_ok(n, m, chain, cid, pos),
        (b as int) < n,
    ensures
        (exists|l: usize| m.contains_key(l) && m[l] == b) <==> pos[b as int] > 0,
{
    if exists|l: usize| m.contains_key(l) && m[l] == b {
        let l = choose|l: usize| m.contains_key(l) && m[l] == b;
        lemma_pred(n, m, chain, cid, pos, l, b);
    }
    if pos[b as int] > 0 {
        let c = cid[b as int];
        let l = chain[c][pos[b as int] - 1];
        assert(cid[l as int] == c && pos[l as int] == pos[b as int] - 1);
        assert(m.contains_key((l as int) as usize));
        assert(m[l] == b);
    }
}

/// Chains other than `c0`'s end at vertices without successor: with a
/// vertex off the chain of 0, at most `n - 2` vertices have successors; and
/// with every vertex on it, `n - 1` do.
proof fn lemma_count(n: int, m: Map<usize, usize>, chain: Seq<Seq<usize>>, cid: Seq<int>, pos: Seq<int>)
    requires
        chains_ok(n, m, chain, cid, pos),
        1 <= n <= usize::MAX,
    ensures
        (exists|x: int| 0 <= x < n && #[trigger] cid[x] != cid[0]) ==> m.len() <= n - 2,
        (forall|x: int| 0 <= x < n ==> #[trigger] cid[x] == cid[0]) ==> m.len() >= n - 1,
{
    lemma_below(n as nat);
    let c0 = cid[0];
    let e0 = chain[c0][chain[c0].len() - 1];
    assert(cid[e0 as int] == c0 && pos[e0 as int] == chain[c0].len() - 1);
    assert(!m.contains_key((e0 as int) as usize));
    if exists|x: int| 0 <= x < n && #[trigger] cid[x] != cid[0] {
        let x = choose|x: int| 0 <= x < n && #[trigger] cid[x] != cid[0];
        let cx = cid[x];
        let ex = chain[cx][chain[cx].len() - 1];
        assert(cid[ex as int] == cx && pos[ex as int] == chain[cx].len() - 1);
        assert(!m.contains_key((ex as int) as usize));
        let t = below(n as nat).remove(e0).remove(ex);
        assert(m.dom().subset_of(t)) by {
            assert forall|y: usize| m.dom().contains(y) implies t.contains(y) by {
                assert(m.contains_key(y));
            }
        }
        vstd::set_lib::lemma_len_subset(m.dom(), t);
    }
    if forall|x: int| 0 <= x < n ==> #[trigger] cid[x] == cid[0] {
        let t = below(n as nat).remove(e0);
        assert(t.subset_of(m.dom())) by {
            assert forall|y: usize| t.contains(y) implies m.dom().contains(y) by {
                let yi = y as int;
                assert(cid[yi] == c0);
                if !(pos[yi] + 1 < chain[c0].len()) {
                    assert(chain[c0][pos[yi]] == y);
                    assert(pos[yi] == chain[c0].len() - 1);
                }
                assert(m.contains_key((yi) as usize));
            }
        }
        vstd::set_lib::lemma_len_subset(t, m.dom());
    }
}

/// Whether the successors of `from` lead back to `from`: after the edge
/// `(from, to)` went in, that is whether `from` and `to` lay on one chain.
fn closes_cycle(
    m: &BiMap<usize, usize>,
    from: usize,
    to: usize,
    n: usize,
    ghost_state: Ghost<(Map<usize, usize>, Seq<Seq<usize>>, Seq<int>, Seq<int>)>,
) -> (r: bool)
    requires
        chains_ok(n as int, ghost_state@.0, ghost_state@.1, ghost_state@.2, ghost_state@.3),
        successor_pairs(*m) == ghost_state@.0.insert(from, to),
        !ghost_state@.0.contains_key(from),
        ghost_state@.3[to as int] == 0,
        from < n,
        to < n,
        from != to,
    ensures
        r == (ghost_state@.2[from as int] == ghost_state@.2[to as int]),
{
    let ghost m0 = ghost_state@.0;
    let ghost chain = ghost_state@.1;
    let ghost cid = ghost_state@.2;
    let ghost pos = ghost_state@.3;
    let ghost cv = cid[to as int];
    let ghost cv_chain = chain[cv];
    let ghost mm = successor_pairs(*m);
    proof {
        assert(chain[cv][0] == to);
        assert(forall|k: int| 0 <= k < cv_chain.len() ==> pos[#[trigger] cv_chain[k] as int] == k && cid[cv_chain[k] as int] == cv);
        assert forall|a: int, b: int| 0 <= a < b < cv_chain.len() implies cv_chain[a] != cv_chain[b] by {
            assert(pos[cv_chain[a] as int] == a);
            assert(pos[cv_chain[b] as int] == b);
        }
        assert(valid_indices(cv_chain, n as nat));
        crate::graph::lemma_distinct_len(cv_chain, n as nat);
        assert(!m0.contains_key((from as int) as usize));
        assert(pos[from as int] + 1 == chain[cid[from as int]].len());
    }
    let mut element = from;
    let mut steps: usize = 0;
    while steps <= n
        invariant
            mm == successor_pairs(*m),
            mm == m0.insert(from, to),
            m0 == ghost_state@.0,
            chain == ghost_state@.1,
            cid == ghost_state@.2,
            pos == ghost_state@.3,
            chains_ok(n as int, m0, chain, cid, pos),
            cv_chain == chain[cv],
            cv == cid[to as int],
            cv_chain.len() <= n,
            cv_chain[0] == to,
            pos[from as int] + 1 == chain[cid[from as int]].len(),
            from < n,
            to < n,
            from != to,
            steps == 0 ==> element == from,
            steps >= 1 ==> steps - 1 < cv_chain.len() && element == cv_chain[steps - 1],
            steps >= 1 ==> forall|t: int| 0 <= t < steps ==> #[trigger] cv_chain[t] != from,
        decreases n + 1 - steps,
    {
        let ghost s = steps as int;
        match get_by_left(m, element) {
            Some(next) => {
                proof {
                    if s >= 1 {
                        assert(cv_chain[s - 1] != from);
                        assert(element != from);
                        assert(cid[element as int] == cv && pos[element as int] == s - 1);
                        assert(mm.contains_key(element));
                        assert(m0.contains_key(element));
                        assert(m0.contains_key((element as int) as usize));
                        assert(s < cv_chain.len());
                        assert(next == cv_chain[s]);
                        assert(cid[cv_chain[s] as int] == cv);
                    } else {
                        assert(next == to);
                    }
                }
                if next == from {
                    proof {
                        assert(cid[from as int] == cv);
                    }
                    return true;
                }
                element = next;
            },
            None => {
                proof {
                    if s >= 1 {
                        assert(element != from);
                        assert(!m0.contains_key((element as int) as usize));
                        assert(pos[element as int] + 1 == cv_chain.len());
                        if cid[from as int] == cv {
                            assert(chain[cv][pos[from as int]] == from);
                            assert(cv_chain[cv_chain.len() - 1] == from);
                            assert(s - 1 == cv_chain.len() - 1);
                        }
                    }
                }
                return false;
            },
        }
        if steps == n {
            return false;
        }
        steps += 1;
    }
    false
}

/// Greedy edge: the edges are tried from the lightest, and one is kept when
/// its start has no successor yet, its end no predecessor, and it closes no
/// cycle; after `n - 1` edges the path is read from its source. The kept
/// edges are exactly the `n - 1` steps of the returned order, so they form
/// one path without cycles, each vertex with at most one successor and one
/// predecessor.
pub fn greedy<S: StepSink>(graph: &Graph, sink: &mut S) -> (r: Path)
    requires
        graph.wf(),
    ensures
        is_permutation(r@, graph.weights().len()),
        graph.weights().len() > 0 ==> exists|s: Seq<(i64, usize, usize)>|
            candidate_order(graph.weights(), s) && #[trigger] greedy_map(s, graph.weights().len(), s.len() as int).len()
                == graph.weights().len() - 1 && forall|i: int|
                0 <= i < r@.len() - 1 ==> greedy_map(s, graph.weights().len(), s.len() as int).contains_key(
                    #[trigger] r@[i],
                ) && greedy_map(s, graph.weights().len(), s.len() as int)[r@[i]] == r@[i + 1],
{
    let n = graph.size();
    let ghost w = graph.weights();
    if n == 0 {
        return Path::new(Vec::new());
    }
    let mut candidates: Vec<(i64, usize, usize)> = Vec::new();
    let mut l: usize = 0;
    while l < n
        invariant
            graph.wf(),
            w == graph.weights(),
            n == graph.weights().len(),
            0 <= l <= n,
            forall|t: int| 0 <= t < candidates.len() ==> (#[trigger] candidates@[t]).1 < n && candidates@[t].2 < n
                && candidates@[t].1 != candidates@[t].2,
            forall|t: int| 0 <= t < candidates.len() ==> (#[trigger] candidates@[t]).0 == w[candidates@[t].1 as int][candidates@[t].2 as int]
                && candidates@[t].1 < l,
            forall|a: int, b: int| 0 <= a < b < candidates.len() ==> pair_lt((#[trigger] candidates@[a]).1, candidates@[a].2,
                (#[trigger] candidates@[b]).1, candidates@[b].2),
            forall|a: usize, b: usize| a < l && b < n && a != b ==> #[trigger] candidates@.contains((w[a as int][b as int], a, b)),
        decreases n - l,
    {
        let mut r: usize = 0;
        while r < n
            invariant
                graph.wf(),
                w == graph.weights(),
                n == graph.weights().len(),
                0 <= l < n,
                0 <= r <= n,
                forall|t: int| 0 <= t < candidates.len() ==> (#[trigger] candidates@[t]).1 < n && candidates@[t].2 < n
                    && candidates@[t].1 != candidates@[t].2,
                forall|t: int| 0 <= t < candidates.len() ==> (#[trigger] candidates@[t]).0 == w[candidates@[t].1 as int][candidates@[t].2 as int]
                    && (candidates@[t].1 < l || (candidates@[t].1 == l && candidates@[t].2 < r)),
                forall|a: int, b: int| 0 <= a < b < candidates.len() ==> pair_lt((#[trigger] candidates@[a]).1, candidates@[a].2,
                    (#[trigger] candidates@[b]).1, candidates@[b].2),
                forall|a: usize, b: usize| a < l && b < n && a != b ==> #[trigger] candidates@.contains((w[a as int][b as int], a, b)),
                forall|b: usize| b < r && b != l ==> #[trigger] candidates@.contains((w[l as int][b as int], l, b)),
            decreases n - r,
        {
            if l != r {
                let ghost before = candidates@;
                candidates.push((graph.dist(l, r), l, r));
                proof {
                    assert forall|a: int, b: int| 0 <= a < b < candidates.len() implies pair_lt((#[trigger] candidates@[a]).1, candidates@[a].2,
                        (#[trigger] candidates@[b]).1, candidates@[b].2) by {
                        if b == before.len() {
                            assert(candidates@[a] == before[a]);
                        } else {
                            assert(candidates@[a] == before[a] && candidates@[b] == before[b]);
                        }
                    }
                    assert forall|t: int| 0 <= t < candidates.len() implies (#[trigger] candidates@[t]).0 == w[candidates@[t].1 as int][candidates@[t].2 as int]
                        && (candidates@[t].1 < l || (candidates@[t].1 == l && candidates@[t].2 < r + 1)) by {
                        if t < before.len() {
                            assert(candidates@[t] == before[t]);
                        }
                    }
                    assert forall|a: usize, b: usize| a < l && b < n && a != b implies #[trigger] candidates@.contains((w[a as int][b as int], a, b)) by {
                        assert(before.contains((w[a as int][b as int], a, b)));
                        let z = choose|z: int| 0 <= z < before.len() && before[z] == (w[a as int][b as int], a, b);
                        assert(candidates@[z] == before[z]);
                    }
                    assert forall|b: usize| b < r + 1 && b != l implies #[trigger] candidates@.contains((w[l as int][b as int], l, b)) by {
                        if b == r {
                            assert(candidates@[before.len() as int] == (w[l as int][b as int], l, b));
                        } else {
                            assert(before.contains((w[l as int][b as int], l, b)));
                            let z = choose|z: int| 0 <= z < before.len() && before[z] == (w[l as int][b as int], l, b);
                            assert(candidates@[z] == before[z]);
                        }
                    }
                }
            }
            r += 1;
        }
        l += 1;
    }
    let sorted = sort_by_weight(candidates);
    proof {
        assert forall|t: int| 0 <= t < sorted.len() implies (#[trigger] sorted@[t]).1 < n && sorted@[t].2 < n
            && sorted@[t].1 != sorted@[t].2 by {
            assert(sorted@.contains(sorted@[t]));
            assert(sorted@.to_multiset().count(sorted@[t]) > 0);
            assert(candidates@.to_multiset().count(sorted@[t]) > 0);
            assert(candidates@.contains(sorted@[t]));
        }
        assert forall|a: usize, b: usize| a < n && b < n && a != b implies #[trigger] sorted@.contains((w[a as int][b as int], a, b)) by {
            assert(candidates@.contains((w[a as int][b as int], a, b)));
            assert(candidates@.to_multiset().count((w[a as int][b as int], a, b)) > 0);
        }
        assert forall|t: int| 0 <= t < sorted.len() implies (#[trigger] sorted@[t]).0 == w[sorted@[t].1 as int][sorted@[t].2 as int] by {
            assert(sorted@.contains(sorted@[t]));
            assert(sorted@.to_multiset().count(sorted@[t]) > 0);
            assert(candidates@.to_multiset().count(sorted@[t]) > 0);
            assert(candidates@.contains(sorted@[t]));
            let z = choose|z: int| 0 <= z < candidates.len() && candidates@[z] == sorted@[t];
            assert(candidates@[z].0 == w[candidates@[z].1 as int][candidates@[z].2 as int]);
        }
        assert forall|a: int, b: int| 0 <= a < b < sorted.len() implies (#[trigger] sorted@[a]).0 < (#[trigger] sorted@[b]).0
            || (sorted@[a].0 == sorted@[b].0 && pair_lt(sorted@[a].1, sorted@[a].2, sorted@[b].1, sorted@[b].2)) by {
            if sorted@[a].0 == sorted@[b].0 {
                let (i, j) = choose|i: int, j: int|
                    0 <= i < j < candidates.len() && #[trigger] candidates@[i] == sorted@[a] && #[trigger] candidates@[j] == sorted@[b];
                assert(pair_lt(candidates@[i].1, candidates@[i].2, candidates@[j].1, candidates@[j].2));
            }
        }
        assert(candidate_order(w, sorted@));
    }
    let mut bimap = successor_map(n);
    let ghost mut chain: Seq<Seq<usize>> = Seq::new(n as nat, |c: int| seq![c as usize]);
    let ghost mut cid: Seq<int> = Seq::new(n as nat, |x: int| x);
    let ghost mut pos: Seq<int> = Seq::new(n as nat, |x: int| 0int);
    proof {
        let m = successor_pairs(bimap);
        assert(m.dom() =~= Set::empty());
        assert forall|x: int| 0 <= x < n implies (#[trigger] m.contains_key(x as usize) <==> pos[x] + 1 < chain[cid[x]].len()) by {}
        assert(chains_ok(n as int, m, chain, cid, pos));
    }
    let mut separate_list: Vec<Edge> = Vec::new();
    let mut k: usize = 0;
    while successor_count(&bimap) < n - 1 && k < sorted.len()
        invariant
            n >= 1,
            n == w.len(),
            forall|t: int| 0 <= t < sorted.len() ==> (#[trigger] sorted@[t]).1 < n && sorted@[t].2 < n
                && sorted@[t].1 != sorted@[t].2,
            forall|a: usize, b: usize| a < n && b < n && a != b ==> #[trigger] sorted@.contains((w[a as int][b as int], a, b)),
            chains_ok(n as int, successor_pairs(bimap), chain, cid, pos),
            successor_pairs(bimap).len() <= n - 1,
            0 <= k <= sorted.len(),
            successor_pairs(bimap) == greedy_map(sorted@, n as nat, k as int),
            forall|t: int| 0 <= t < k ==> blocked(chain, cid, pos, successor_pairs(bimap), (#[trigger] sorted@[t]).1, sorted@[t].2),
        decreases sorted.len() - k,
    {
        let (_, from, to) = sorted[k];
        let ghost m0 = successor_pairs(bimap);
        let ghost k0 = k as int;
        proof {
            assert(sorted@[k as int].1 == from && sorted@[k as int].2 == to);
            lemma_has_pred(n as int, m0, chain, cid, pos, to);
            assert(m0.len() < n - 1);
            assert(greedy_map(sorted@, n as nat, k0 + 1) == if m0.contains_key(from) || has_pred(m0, to) || reaches(m0, to, from, n as nat) {
                m0
            } else {
                m0.insert(from, to)
            });
        }
        k += 1;
        if insert_no_overwrite(&mut bimap, from, to) {
            separate_list.push(Edge::new(from, to));
            proof {
                assert(!(exists|l: usize| m0.contains_key(l) && m0[l] == to));
                assert(to < n);
                assert(chains_ok(n as int, m0, chain, cid, pos));
                assert(0 <= cid[to as int] < n && 0 <= pos[to as int]);
                assert(pos[to as int] == 0);
                assert(pos[from as int] + 1 == chain[cid[from as int]].len()) by {
                    assert(!m0.contains_key((from as int) as usize));
                }
            }
            proof {
                assert(!m0.contains_key(from));
                assert(!has_pred(m0, to));
                assert(to != from);
                lemma_reaches_same_chain(n as int, m0, chain, cid, pos, from, to);
            }
            if closes_cycle(&bimap, from, to, n, Ghost((m0, chain, cid, pos))) {
                remove_by_left(&mut bimap, from);
                separate_list.pop();
                proof {
                    assert(successor_pairs(bimap) =~= m0);
                }
            } else {
                proof {
                    let cu = cid[from as int];
                    let cv = cid[to as int];
                    let lu = chain[cu].len() as int;
                    let m1 = successor_pairs(bimap);
                    let chain2 = chain.update(cu, chain[cu] + chain[cv]).update(cv, Seq::<usize>::empty());
                    let cid2 = Seq::new(n as nat, |x: int| if cid[x] == cv { cu } else { cid[x] });
                    let pos2 = Seq::new(n as nat, |x: int| if cid[x] == cv { pos[x] + lu } else { pos[x] });
                    assert(cu != cv);
                    assert(chain[cv][0] == to);
                    assert forall|x: int| 0 <= x < n implies 0 <= #[trigger] cid2[x] < n && 0 <= pos2[x] < chain2[cid2[x]].len()
                        && chain2[cid2[x]][pos2[x]] == x by {
                        assert(chain[cid[x]][pos[x]] == x);
                    }
                    assert forall|c: int, j: int| 0 <= c < n && 0 <= j < chain2[c].len() implies (#[trigger] chain2[c][j]) < n
                        && cid2[chain2[c][j] as int] == c && pos2[chain2[c][j] as int] == j by {
                        if c == cu {
                            if j < lu {
                                assert(chain2[c][j] == chain[cu][j]);
                                assert(cid[chain[cu][j] as int] == cu);
                            } else {
                                assert(chain2[c][j] == chain[cv][j - lu]);
                                assert(cid[chain[cv][j - lu] as int] == cv);
                            }
                        } else {
                            assert(c != cv);
                            assert(chain2[c][j] == chain[c][j]);
                            assert(cid[chain[c][j] as int] == c);
                        }
                    }
                    assert forall|x: usize| #[trigger] m1.contains_key(x) implies (x as int) < n by {
                        if x != from {
                            assert(m0.contains_key(x));
                        }
                    }
                    assert forall|x: int| 0 <= x < n implies (#[trigger] m1.contains_key(x as usize) <==> pos2[x] + 1 < chain2[cid2[x]].len()) by {
                        assert(m0.contains_key(x as usize) <==> pos[x] + 1 < chain[cid[x]].len());
                    }
                    assert forall|x: int| 0 <= x < n && #[trigger] m1.contains_key(x as usize) implies m1[x as usize] == chain2[cid2[x]][pos2[x] + 1] by {
                        if x == from as int {
                            assert(chain2[cu][lu] == chain[cv][0]);
                        } else {
                            assert(m0.contains_key(x as usize));
                            assert(m0[x as usize] == chain[cid[x]][pos[x] + 1]);
                        }
                    }
                    assert(chains_ok(n as int, m1, chain2, cid2, pos2));
                    assert forall|t: int| 0 <= t < k implies blocked(chain2, cid2, pos2, m1, (#[trigger] sorted@[t]).1, sorted@[t].2) by {
                        if t < k - 1 {
                            assert(blocked(chain, cid, pos, m0, sorted@[t].1, sorted@[t].2));
                            if m0.contains_key(sorted@[t].1) {
                                assert(m1.contains_key(sorted@[t].1));
                            }
                        } else {
                            assert(m1.contains_key(from));
                        }
                    }
                    assert(m1.len() == m0.len() + 1) by {
                        assert(!m0.dom().contains(from));
                        assert(m1.dom() =~= m0.dom().insert(from));
                    }
                    chain = chain2;
                    cid = cid2;
                    pos = pos2;
                }
                send_edges(sink, separate_list.clone(), Some(Progress::fraction(successor_count(&bimap), n)));
            }
        } else {
            proof {
                assert(successor_pairs(bimap) == m0);
                assert(blocked(chain, cid, pos, m0, from, to));
                assert(m0.contains_key(from) || has_pred(m0, to));
            }
        }
    }
    let ghost mfin = successor_pairs(bimap);
    proof {
        if k < sorted.len() {
            lemma_greedy_map_full(sorted@, n as nat, k as int, sorted.len() as int);
        }
        assert(mfin == greedy_map(sorted@, n as nat, sorted.len() as int));
        lemma_count(n as int, mfin, chain, cid, pos);
        if mfin.len() < n - 1 {
            assert(k == sorted.len());
            assert(exists|x: int| 0 <= x < n && #[trigger] cid[x] != cid[0]);
            let x = choose|x: int| 0 <= x < n && #[trigger] cid[x] != cid[0];
            let cx = cid[x];
            let c0 = cid[0];
            let a = chain[cx][chain[cx].len() - 1];
            let b = chain[c0][0];
            assert(cid[a as int] == cx && pos[a as int] == chain[cx].len() - 1);
            assert(cid[b as int] == c0 && pos[b as int] == 0);
            assert(!mfin.contains_key((a as int) as usize));
            assert(sorted@.contains((w[a as int][b as int], a, b)));
            let t = choose|t: int| 0 <= t < sorted.len() && sorted@[t] == (w[a as int][b as int], a, b);
            assert(blocked(chain, cid, pos, mfin, sorted@[t].1, sorted@[t].2));
        }
        assert(forall|x: int| 0 <= x < n ==> #[trigger] cid[x] == cid[0]);
    }
    let ghost c0 = cid[0];
    let ghost line = chain[c0];
    proof {
        assert forall|a: int, b: int| 0 <= a < b < line.len() implies line[a] != line[b] by {
            assert(pos[line[a] as int] == a);
            assert(pos[line[b] as int] == b);
        }
        assert(valid_indices(line, n as nat));
        crate::graph::lemma_distinct_len(line, n as nat);
        if line.len() < n {
            let v = lemma_missing_vertex(line, n as nat);
            assert(cid[v as int] == c0);
            assert(line[pos[v as int]] == v);
        }
        assert(is_permutation(line, n as nat));
    }
    let mut start: usize = 0;
    let mut steps: usize = 0;
    let ghost p0 = pos[0];
    proof {
        assert(0 <= cid[0] < n && 0 <= pos[0] < chain[cid[0]].len());
    }
    while steps < n
        invariant
            chains_ok(n as int, mfin, chain, cid, pos),
            mfin == successor_pairs(bimap),
            forall|x: int| 0 <= x < n ==> #[trigger] cid[x] == c0,
            line == chain[c0],
            line.len() == n,
            start < n,
            pos[start as int] + steps == p0,
            pos[start as int] >= 0,
            0 <= p0 < n,
        ensures
            start < n,
            pos[start as int] == 0,
        decreases n - steps,
    {
        match get_by_right(&bimap, start) {
            Some(from) => {
                proof {
                    lemma_pred(n as int, mfin, chain, cid, pos, from, start);
                }
                start = from;
            },
            None => {
                proof {
                    lemma_has_pred(n as int, mfin, chain, cid, pos, start);
                    assert(!(exists|l: usize| mfin.contains_key(l) && mfin[l] == start));
                }
                break;
            },
        }
        steps += 1;
        proof {
            assert(pos[start as int] >= 0) by {
                assert(0 <= cid[start as int]);
            }
        }
    }
    proof {
        assert(line[0] == start) by {
            assert(chain[cid[start as int]][pos[start as int]] == start);
        }
    }
    let mut path: Vec<usize> = Vec::new();
    path.push(start);
    assert(path@ =~= line.take(1));
    while path.len() < n
        invariant_except_break
            true,
        invariant
            chains_ok(n as int, mfin, chain, cid, pos),
            mfin == successor_pairs(bimap),
            forall|x: int| 0 <= x < n ==> #[trigger] cid[x] == c0,
            line == chain[c0],
            line.len() == n,
            1 <= path.len() <= n,
            path@ == line.take(path.len() as int),
        ensures
            path@ == line,
        decreases n - path.len(),
    {
        let last = path[path.len() - 1];
        let ghost j = path.len() - 1;
        proof {
            assert(last == line[j]);
            assert(line[j] == chain[c0][j]);
            assert(0 <= c0 < n) by {
                assert(0 <= cid[0] < n);
            }
            assert(cid[chain[c0][j] as int] == c0 && pos[chain[c0][j] as int] == j);
            assert(cid[last as int] == c0 && pos[last as int] == j);
            assert(mfin.contains_key((last as int) as usize));
        }
        match get_by_left(&bimap, last) {
            Some(to) => {
                path.push(to);
                proof {
                    assert(to == line[j + 1]);
                    assert(path@ =~= line.take(path.len() as int));
                }
            },
            None => {
                proof {
                    assert(false);
                }
                break;
            },
        }
    }
    proof {
        assert(path@ =~= line);
        assert forall|i: int| 0 <= i < path@.len() - 1 implies #[trigger] mfin.contains_key(path@[i]) && mfin[path@[i]] == path@[i + 1] by {
            assert(cid[path@[i] as int] == c0 && pos[path@[i] as int] == i);
            assert(mfin.contains_key((path@[i] as int) as usize));
        }
        assert(mfin.len() == n - 1);
        let g = greedy_map(sorted@, w.len(), sorted@.len() as int);
        assert(g == mfin);
        assert(g.len() == w.len() - 1);
        assert forall|i: int| 0 <= i < path@.len() - 1 implies g.contains_key(#[trigger] path@[i]) && g[path@[i]] == path@[i + 1] by {
            assert(mfin.contains_key(path@[i]) && mfin[path@[i]] == path@[i + 1]);
        }
        assert(candidate_order(w, sorted@));
    }
    Path::new(path)
}

proof fn lemma_insert_distinct(s: Seq<usize>, i: int, v: usize)
    requires
        all_distinct(s),
        !s.contains(v),
        0 <= i <= s.len(),
    ensures
        all_distinct(s.insert(i, v)),
        forall|w: usize| s.insert(i, v).contains(w) <==> (s.contains(w) || w == v),
{
    let t = s.insert(i, v);
    assert forall|a: int, b: int| 0 <= a < b < t.len() implies t[a] != t[b] by {
        if a == i {
            assert(s.contains(t[b]));
        } else if b == i {
            assert(s.contains(t[a]));
        } else {
            let a2 = if a < i { a } else { a - 1 };
            let b2 = if b < i { b } else { b - 1 };
            assert(t[a] == s[a2] && t[b] == s[b2]);
        }
    }
    assert forall|w: usize| t.contains(w) <==> (s.contains(w) || w == v) by {
        if t.contains(w) && w != v {
            let j = choose|j: int| 0 <= j < t.len() && t[j] == w;
            if j < i {
                assert(s[j] == w);
            } else {
                assert(s[j - 1] == w);
            }
        }
        if s.contains(w) {
            let j = choose|j: int| 0 <= j < s.len() && s[j] == w;
            if j < i {
                assert(t[j] == w);
            } else {
                assert(t[j + 1] == w);
            }
        }
        if w == v {
            assert(t[i] == v);
        }
    }
}

/// The change in cost when `v` goes in at position `i` of the open path `p`.
pub open spec fn delta_spec(w: Seq<Seq<i64>>, p: Seq<usize>, v: int, i: int) -> int {
    if i == 0 {
        w[v][p[0] as int] as int
    } else if i == p.len() {
        w[p[p.len() - 1] as int][v] as int
    } else {
        w[p[i - 1] as int][v] + w[v][p[i] as int] - w[p[i - 1] as int][p[i] as int]
    }
}

/// `(i, v)` comes before `(j, u)` when the vertices are tried in order and,
/// for each, the positions in order.
pub open spec fn tried_before(u: int, j: int, v: int, i: int) -> bool {
    u < v || (u == v && j < i)
}

/// Inserting `v` at `i` is the first cheapest insertion into `p`: no
/// insertion of an unvisited vertex costs less, and none tried before it
/// costs as little.
pub open spec fn cheapest_action(w: Seq<Seq<i64>>, p: Seq<usize>, i: int, v: int) -> bool {
    &&& 0 <= v < w.len()
    &&& !p.contains(v as usize)
    &&& 0 <= i <= p.len()
    &&& forall|u: int, j: int|
        0 <= u < w.len() && !p.contains(u as usize) && 0 <= j <= p.len() ==> delta_spec(w, p, v, i)
            <= #[trigger] delta_spec(w, p, u, j) && (tried_before(u, j, v, i) ==> delta_spec(w, p, v, i)
            < delta_spec(w, p, u, j))
}

/// `hist` starts from `[0]` and each path is the one before it with its
/// first cheapest insertion made.
pub open spec fn insertion_history(w: Seq<Seq<i64>>, hist: Seq<Seq<usize>>) -> bool {
    &&& hist.len() >= 1
    &&& hist[0] == seq![0usize]
    &&& forall|t: int| 0 <= t < hist.len() - 1 ==> insertion_step(w, hist[t], #[trigger] hist[t + 1])
}

/// `q` is `p` with its first cheapest insertion made.
pub open spec fn insertion_step(w: Seq<Seq<i64>>, p: Seq<usize>, q: Seq<usize>) -> bool {
    exists|i: int, v: int| cheapest_action(w, p, i, v) && q == #[trigger] p.insert(i, v as usize)
}

/// The change in cost when `v` goes in at position `i` of the open path `path`.
fn insertion_delta(graph: &Graph, path: &Vec<usize>, v: usize, i: usize) -> (r: i128)
    requires
        graph.wf(),
        v < graph.weights().len(),
        valid_indices(path@, graph.weights().len()),
        path.len() >= 1,
        i <= path.len(),
    ensures
        r == delta_spec(graph.weights(), path@, v as int, i as int),
{
    let len = path.len();
    if i == 0 {
        graph.dist(v, path[0]) as i128
    } else if i == len {
        graph.dist(path[len - 1], v) as i128
    } else {
        graph.dist(path[i - 1], v) as i128 + graph.dist(v, path[i]) as i128 - graph.dist(path[i - 1], path[i]) as i128
    }
}

/// Cheapest insertion: from the path `[0]`, the unvisited vertex and the
/// position whose insertion adds the least cost go in (the first such, in
/// the order of vertices and then positions, on ties), until every vertex
/// is on the path.
pub fn insertion<S: StepSink>(graph: &Graph, sink: &mut S) -> (r: Path)
    requires
        graph.wf(),
    ensures
        is_permutation(r@, graph.weights().len()),
        graph.weights().len() > 0 ==> exists|hist: Seq<Seq<usize>>|
            insertion_history(graph.weights(), hist) && hist.len() == graph.weights().len() && #[trigger] hist[hist.len()
                - 1] == r@,
{
    let n = graph.size();
    let ghost w = graph.weights();
    if n == 0 {
        return Path::new(Vec::new());
    }
    let mut visited: Vec<bool> = Vec::new();
    let mut k: usize = 0;
    while k < n
        invariant
            0 <= k <= n,
            visited.len() == k,
            forall|v: int| 0 <= v < k ==> !visited@[v],
        decreases n - k,
    {
        visited.push(false);
        k += 1;
    }
    let mut path: Vec<usize> = Vec::new();
    path.push(0);
    visited.set(0, true);
    assert forall|v: int| 0 <= v < n implies (visited@[v] <==> path@.contains(v as usize)) by {
        if v == 0 {
            assert(path@[0] == 0);
        }
    }
    let ghost mut hist: Seq<Seq<usize>> = seq![path@];
    assert(path@ =~= seq![0usize]);
    while path.len() < n
        invariant
            graph.wf(),
            w == graph.weights(),
            n == graph.weights().len(),
            visited.len() == n,
            1 <= path.len() <= n,
            all_distinct(path@),
            valid_indices(path@, n as nat),
            forall|v: int| 0 <= v < n ==> (visited@[v] <==> path@.contains(v as usize)),
            insertion_history(w, hist),
            hist.len() == path.len(),
            hist[hist.len() - 1] == path@,
        decreases n - path.len(),
    {
        proof {
            let x = lemma_missing_vertex(path@, n as nat);
            assert(!visited@[x as int]);
        }
        let ghost p = path@;
        let mut min_cost_delta: i128 = 0;
        let mut min_action: Option<(usize, usize)> = None;
        let mut new_vertex: usize = 0;
        while new_vertex < n
            invariant
                graph.wf(),
                w == graph.weights(),
                n == graph.weights().len(),
                visited.len() == n,
                path@ == p,
                1 <= path.len() < n,
                valid_indices(path@, n as nat),
                forall|v: int| 0 <= v < n ==> (visited@[v] <==> p.contains(v as usize)),
                0 <= new_vertex <= n,
                min_action matches Some((ai, av)) ==> ai <= path.len() && av < n && !visited@[av as int]
                    && av < new_vertex
                    && min_cost_delta == delta_spec(w, p, av as int, ai as int) && forall|u: int, j: int|
                    0 <= u < new_vertex && !visited@[u] && 0 <= j <= p.len() ==> min_cost_delta
                        <= #[trigger] delta_spec(w, p, u, j) && (tried_before(u, j, av as int, ai as int)
                        ==> min_cost_delta < delta_spec(w, p, u, j)),
                min_action is None ==> forall|v: int| 0 <= v < new_vertex ==> visited@[v],
                exists|x: int| 0 <= x < n && !visited@[x],
            decreases n - new_vertex,
        {
            if !visited[new_vertex] {
                let mut i: usize = 0;
                while i <= path.len()
                    invariant
                        graph.wf(),
                        w == graph.weights(),
                        n == graph.weights().len(),
                        visited.len() == n,
                        path@ == p,
                        1 <= path.len() < n,
                        valid_indices(path@, n as nat),
                        new_vertex < n,
                        !visited@[new_vertex as int],
                        0 <= i <= path.len() + 1,
                        i > 0 ==> min_action is Some,
                        min_action is None ==> forall|v: int| 0 <= v < new_vertex ==> visited@[v],
                        min_action matches Some((ai, av)) ==> ai <= path.len() && av < n && !visited@[av as int]
                            && tried_before(av as int, ai as int, new_vertex as int, i as int)
                            && min_cost_delta == delta_spec(w, p, av as int, ai as int) && forall|u: int, j: int|
                            0 <= j <= p.len() && ((0 <= u < new_vertex && !visited@[u]) || (u == new_vertex && j < i))
                                ==> min_cost_delta <= #[trigger] delta_spec(w, p, u, j) && (tried_before(
                                u,
                                j,
                                av as int,
                                ai as int,
                            ) ==> min_cost_delta < delta_spec(w, p, u, j)),
                    decreases path.len() + 1 - i,
                {
                    let cost_delta = insertion_delta(graph, &path, new_vertex, i);
                    let better = match min_action {
                        None => true,
                        Some(_) => cost_delta < min_cost_delta,
                    };
                    if better {
                        min_cost_delta = cost_delta;
                        min_action = Some((i, new_vertex));
                    }
                    i += 1;
                }
            }
            new_vertex += 1;
        }
        match min_action {
            Some((i, v)) => {
                let ghost before = path@;
                proof {
                    assert(!before.contains(v));
                    lemma_insert_distinct(before, i as int, v);
                    assert(cheapest_action(w, p, i as int, v as int)) by {
                        assert forall|u: int, j: int|
                            0 <= u < w.len() && !p.contains(u as usize) && 0 <= j <= p.len() implies delta_spec(w, p, v as int, i as int)
                                <= #[trigger] delta_spec(w, p, u, j) && (tried_before(u, j, v as int, i as int) ==> delta_spec(w, p, v as int, i as int)
                                < delta_spec(w, p, u, j)) by {
                            assert(!visited@[u]);
                        }
                    }
                }
                path.insert(i, v);
                visited.set(v, true);
                proof {
                    let old_hist = hist;
                    hist = hist.push(path@);
                    assert(hist[0] == old_hist[0]);
                    assert forall|t: int| 0 <= t < hist.len() - 1 implies insertion_step(w, hist[t], #[trigger] hist[t + 1]) by {
                        if t < old_hist.len() - 1 {
                            assert(hist[t] == old_hist[t] && hist[t + 1] == old_hist[t + 1]);
                        } else {
                            assert(hist[t] == p);
                            assert(path@ == p.insert(i as int, v));
                            assert(hist[t + 1] == p.insert(i as int, (v as int) as usize));
                            assert(cheapest_action(w, hist[t], i as int, v as int));
                        }
                    }
                    assert forall|x: int| 0 <= x < n implies (visited@[x] <==> path@.contains(x as usize)) by {
                        if x != v as int {
                            assert(before.contains(x as usize) <==> path@.contains(x as usize));
                        }
                    }
                    assert forall|j: int| 0 <= j < path@.len() implies (#[trigger] path@[j]) < n by {
                        assert(path@.contains(path@[j]));
                        if path@[j] != v {
                            assert(before.contains(path@[j]));
                        }
                    }
                }
                send_path(sink, &path, Some(Progress::fraction(path.len(), n)));
            },
            None => {
                proof {
                    let x = choose|x: int| 0 <= x < n && !visited@[x];
                    assert(visited@[x]);
                }
            },
        }
    }
    Path::new(path)
}

} // verus!
