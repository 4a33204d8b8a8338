use vstd::prelude::*;
use crate::graph::{
    is_permutation, lemma_path_cost_bound, lemma_reordered_permutation, path_cost,
    path_cost_bound, valid_indices,
};
use crate::matrix::Graph;
use crate::path::Path;
use crate::step::{PathImprovement, Progress, Step, StepSink};
use crate::util::swap_at;

verus! {

broadcast use vstd::seq_lib::group_to_multiset_ensures, vstd::multiset::group_multiset_axioms;

/// What an improvement works on: the weights, the path to start from, and
/// whether to stop after the first improving move.
pub struct PathImproveContext {
    pub graph: Graph,
    pub path: Path,
    pub prefer_step: bool,
}

impl PathImproveContext {
    /// The graph is square and the start path names its vertices only.
    pub open spec fn wf(&self) -> bool {
        self.graph.wf() && valid_indices(self.path@, self.graph.weights().len())
    }

    pub fn len(&self) -> (r: usize)
        ensures
            r == self.graph.weights().len(),
    {
        self.graph.size()
    }

    /// The path the improvement starts from.
    pub fn start_path(&self) -> (r: Vec<usize>)
        ensures
            r@ == self.path@,
    {
        self.path.0.clone()
    }

    pub fn prefer_step(&self) -> (r: bool)
        ensures
            r == self.prefer_step,
    {
        self.prefer_step
    }
}

/// `r` holds the vertices of `s`, each as often, and costs no more.
pub open spec fn no_worse(w: Seq<Seq<i64>>, s: Seq<usize>, r: Seq<usize>) -> bool {
    r.to_multiset() == s.to_multiset() && path_cost(w, r) <= path_cost(w, s)
}

/// Emits an improved path.
fn send_better<S: StepSink>(sink: &mut S, path: &Vec<usize>, progress: Progress) {
    sink.send(Step::PathImprovement(PathImprovement::from_path(Path::new(path.clone())).progress(progress)));
}

/// `p` with the positions `lo..hi` in reverse order.
pub open spec fn reversed_range(p: Seq<usize>, lo: int, hi: int) -> Seq<usize> {
    Seq::new(p.len(), |k: int| if lo <= k < hi { p[lo + hi - 1 - k] } else { p[k] })
}

proof fn lemma_reverse_twice(p: Seq<usize>, lo: int, hi: int)
    requires
        0 <= lo <= hi <= p.len(),
    ensures
        reversed_range(reversed_range(p, lo, hi), lo, hi) == p,
{
    assert(reversed_range(reversed_range(p, lo, hi), lo, hi) =~= p);
}

/// Reverses the positions `lo..hi` of `v`.
fn reverse_range(v: &mut Vec<usize>, lo: usize, hi: usize)
    requires
        lo <= hi <= old(v).len(),
    ensures
        final(v)@ == reversed_range(old(v)@, lo as int, hi as int),
        final(v)@.to_multiset() == old(v)@.to_multiset(),
{
    let ghost s = v@;
    let mut a = lo;
    let mut b = hi;
    while b - a > 1
        invariant
            lo <= a <= b <= hi,
            hi <= v.len(),
            v.len() == s.len(),
            a - lo == hi - b,
            v@.to_multiset() == s.to_multiset(),
            forall|k: int| 0 <= k < v.len() && ((lo <= k < a) || (b <= k < hi)) ==> v@[k] == s[lo + hi - 1 - k],
            forall|k: int| 0 <= k < v.len() && !((lo <= k < a) || (b <= k < hi)) ==> v@[k] == s[k],
        decreases b - a,
    {
        swap_at(v, a, b - 1);
        a += 1;
        b -= 1;
    }
    assert(v@ =~= reversed_range(s, lo as int, hi as int));
}

/// The 2-opt move at `(i, j)`: the positions `i + 1 ..= j` reversed.
pub open spec fn two_opt_move(p: Seq<usize>, i: int, j: int) -> Seq<usize> {
    reversed_range(p, i + 1, j + 1)
}

/// No 2-opt move makes `p` cheaper.
pub open spec fn two_opt_optimal(w: Seq<Seq<i64>>, p: Seq<usize>) -> bool {
    forall|i: int, j: int|
        0 <= i < j < p.len() ==> path_cost(w, #[trigger] two_opt_move(p, i, j)) >= path_cost(w, p)
}

/// What 2-opt returns for the start path `s`: a reordering of `s` that costs
/// no more; unless it stops after one step, a path that no 2-opt move
/// improves; and `s` itself when no move improves `s`.
pub open spec fn two_opt_outcome(w: Seq<Seq<i64>>, s: Seq<usize>, prefer_step: bool, r: Seq<usize>) -> bool {
    &&& no_worse(w, s, r)
    &&& !prefer_step ==> two_opt_optimal(w, r)
    &&& two_opt_optimal(w, s) ==> r == s
}

/// Looks for the first 2-opt move, in the order of `(i, j)`, that makes
/// `path` cheaper than `best_cost`, and makes it.
fn find_two_opt<S: StepSink>(graph: &Graph, path: &mut Vec<usize>, best_cost: i128, sink: &mut S) -> (r: Option<i128>)
    requires
        graph.wf(),
        valid_indices(old(path)@, graph.weights().len()),
        best_cost == path_cost(graph.weights(), old(path)@),
    ensures
        final(path)@.to_multiset() == old(path)@.to_multiset(),
        valid_indices(final(path)@, graph.weights().len()),
        r matches Some(c) ==> c == path_cost(graph.weights(), final(path)@) && c < best_cost,
        r is Some ==> exists|i: int, j: int|
            0 <= i < j < old(path)@.len() && final(path)@ == two_opt_move(old(path)@, i, j),
        r is None ==> final(path)@ == old(path)@ && two_opt_optimal(graph.weights(), old(path)@),
{
    let ghost s = path@;
    let len = path.len();
    if len < 2 {
        return None;
    }
    let mut i: usize = 0;
    while i < len - 1
        invariant
            graph.wf(),
            len == path.len(),
            len >= 2,
            path@ == s,
            s == old(path)@,
            valid_indices(s, graph.weights().len()),
            best_cost == path_cost(graph.weights(), s),
            0 <= i <= len - 1,
            forall|a: int, b: int| 0 <= a < i && a < b < len ==> path_cost(graph.weights(), #[trigger] two_opt_move(s, a, b)) >= best_cost,
        decreases len - 1 - i,
    {
        let mut j: usize = i + 1;
        while j < len
            invariant
                graph.wf(),
                len == path.len(),
                len >= 2,
                path@ == s,
                s == old(path)@,
                valid_indices(s, graph.weights().len()),
                best_cost == path_cost(graph.weights(), s),
                0 <= i < len - 1,
                i + 1 <= j <= len,
                forall|a: int, b: int| 0 <= a < i && a < b < len ==> path_cost(graph.weights(), #[trigger] two_opt_move(s, a, b)) >= best_cost,
                forall|b: int| i < b < j ==> path_cost(graph.weights(), #[trigger] two_opt_move(s, i as int, b)) >= best_cost,
            decreases len - j,
        {
            reverse_range(path, i + 1, j + 1);
            proof {
                lemma_reordered_valid(s, path@, graph.weights().len());
            }
            let new_cost = graph.dist_path(path);
            if new_cost < best_cost {
                assert(path@ == two_opt_move(s, i as int, j as int));
                send_better(sink, path, Progress::grid(i, j, len));
                return Some(new_cost);
            }
            reverse_range(path, i + 1, j + 1);
            proof {
                lemma_reverse_twice(s, i + 1, j + 1);
            }
            j += 1;
        }
        i += 1;
    }
    None
}

/// A reordering of a path of vertices below `n` names vertices below `n`.
pub proof fn lemma_reordered_valid(s: Seq<usize>, r: Seq<usize>, n: nat)
    requires
        valid_indices(s, n),
        r.to_multiset() == s.to_multiset(),
    ensures
        valid_indices(r, n),
{
    assert forall|i: int| 0 <= i < r.len() implies (#[trigger] r[i]) < n by {
        assert(r.contains(r[i]));
        assert(r.to_multiset().count(r[i]) > 0);
        assert(s.to_multiset().count(r[i]) > 0);
        assert(s.contains(r[i]));
    }
}

/// 2-opt: the first move that reverses a stretch `i + 1 ..= j` of the path
/// and makes it cheaper is made, and the search starts over, until no move
/// helps (or after one move, when the context prefers single steps).
pub fn two_opt<S: StepSink>(ctx: &PathImproveContext, sink: &mut S) -> (r: Path)
    requires
        ctx.wf(),
    ensures
        two_opt_outcome(ctx.graph.weights(), ctx.path@, ctx.prefer_step, r@),
        improvement_outcome(Neighbourhood::TwoOpt, ctx.graph.weights(), ctx.path@, ctx.prefer_step, r@),
{
    Path::new(improve_until_stuck(ctx, Neighbourhood::TwoOpt, sink))
}

/// Running 2-opt on what 2-opt returned gives the same path back: 2-opt is
/// idempotent on its own output.
pub proof fn lemma_two_opt_idempotent(
    w: Seq<Seq<i64>>,
    start: Seq<usize>,
    first: Seq<usize>,
    second: Seq<usize>,
)
    requires
        two_opt_outcome(w, start, false, first),
        two_opt_outcome(w, first, false, second),
    ensures
        second == first,
{
}

/// Appends `v[lo..hi]` to `out`, reversed when `reverse` holds.
fn push_range(out: &mut Vec<usize>, v: &Vec<usize>, lo: usize, hi: usize, reverse: bool)
    requires
        lo <= hi <= v.len(),
    ensures
        final(out)@ == old(out)@ + if reverse {
            v@.subrange(lo as int, hi as int).reverse()
        } else {
            v@.subrange(lo as int, hi as int)
        },
{
    let ghost start = out@;
    let ghost part = if reverse {
        v@.subrange(lo as int, hi as int).reverse()
    } else {
        v@.subrange(lo as int, hi as int)
    };
    let mut k: usize = 0;
    while k < hi - lo
        invariant
            lo <= hi <= v.len(),
            0 <= k <= hi - lo,
            part == if reverse {
                v@.subrange(lo as int, hi as int).reverse()
            } else {
                v@.subrange(lo as int, hi as int)
            },
            out@ == start + part.take(k as int),
        decreases hi - lo - k,
    {
        if reverse {
            out.push(v[hi - 1 - k]);
        } else {
            out.push(v[lo + k]);
        }
        assert(start + part.take(k as int + 1) =~= out@);
        k += 1;
    }
    assert(part.take(k as int) =~= part);
}

/// The multiset of four parts put together.
proof fn lemma_four_parts(a: Seq<usize>, b: Seq<usize>, c: Seq<usize>, d: Seq<usize>)
    ensures
        (a + b + c + d).to_multiset() == a.to_multiset().add(b.to_multiset()).add(c.to_multiset()).add(
            d.to_multiset(),
        ),
{
    vstd::seq_lib::lemma_multiset_commutative(a, b);
    vstd::seq_lib::lemma_multiset_commutative(a + b, c);
    vstd::seq_lib::lemma_multiset_commutative(a + b + c, d);
}

/// `p` cut into `p[..=a]`, `p[a+1..=b]`, `p[b+1..=c]`, `p[c+1..]`, with the
/// middle pieces put back as `method` says.
pub open spec fn three_opt_move(p: Seq<usize>, method: int, a: int, b: int, c: int) -> Seq<usize> {
    let first = p.subrange(0, a + 1);
    let second = p.subrange(a + 1, b + 1);
    let third = p.subrange(b + 1, c + 1);
    let rest = p.subrange(c + 1, p.len() as int);
    if method == 0 {
        first + second.reverse() + third.reverse() + rest
    } else if method == 1 {
        first + third + second + rest
    } else if method == 2 {
        first + third + second.reverse() + rest
    } else {
        first + third.reverse() + second + rest
    }
}

/// Builds the 3-opt reconnection `method` of `path`.
fn three_opt_swap(path: &Vec<usize>, method: u8, a: usize, b: usize, c: usize) -> (r: Vec<usize>)
    requires
        a < b < c < path.len(),
        method <= 3,
    ensures
        r@ == three_opt_move(path@, method as int, a as int, b as int, c as int),
        r@.to_multiset() == path@.to_multiset(),
{
    let len = path.len();
    let mut r: Vec<usize> = Vec::new();
    push_range(&mut r, path, 0, a + 1, false);
    if method == 0 {
        push_range(&mut r, path, a + 1, b + 1, true);
        push_range(&mut r, path, b + 1, c + 1, true);
    } else if method == 1 {
        push_range(&mut r, path, b + 1, c + 1, false);
        push_range(&mut r, path, a + 1, b + 1, false);
    } else if method == 2 {
        push_range(&mut r, path, b + 1, c + 1, false);
        push_range(&mut r, path, a + 1, b + 1, true);
    } else {
        push_range(&mut r, path, b + 1, c + 1, true);
        push_range(&mut r, path, a + 1, b + 1, false);
    }
    push_range(&mut r, path, c + 1, len, false);
    proof {
        let p = path@;
        let first = p.subrange(0, a + 1);
        let second = p.subrange(a + 1, b + 1);
        let third = p.subrange(b + 1, c + 1);
        let rest = p.subrange(c + 1, p.len() as int);
        assert(p =~= first + second + third + rest);
        lemma_four_parts(first, second, third, rest);
        second.lemma_reverse_to_multiset();
        third.lemma_reverse_to_multiset();
        if method == 0 {
            lemma_four_parts(first, second.reverse(), third.reverse(), rest);
        } else if method == 1 {
            lemma_four_parts(first, third, second, rest);
        } else if method == 2 {
            lemma_four_parts(first, third, second.reverse(), rest);
        } else {
            lemma_four_parts(first, third.reverse(), second, rest);
        }
        assert(r@.to_multiset() =~= p.to_multiset());
    }
    r
}

/// `p` with the positions `lo..hi` rotated left by `amount`.
pub open spec fn rotate_range(p: Seq<usize>, lo: int, hi: int, amount: int) -> Seq<usize> {
    p.subrange(0, lo) + p.subrange(lo + amount, hi) + p.subrange(lo, lo + amount) + p.subrange(hi, p.len() as int)
}

/// `path[lo..hi]` rotated left by `amount`, the rest in place.
fn rotate_slice_left(path: &Vec<usize>, lo: usize, hi: usize, amount: usize) -> (r: Vec<usize>)
    requires
        lo <= hi <= path.len(),
        amount <= hi - lo,
    ensures
        r@ == rotate_range(path@, lo as int, hi as int, amount as int),
        r@.to_multiset() == path@.to_multiset(),
        r@.len() == path@.len(),
{
    let len = path.len();
    let mut r: Vec<usize> = Vec::new();
    push_range(&mut r, path, 0, lo, false);
    push_range(&mut r, path, lo + amount, hi, false);
    push_range(&mut r, path, lo, lo + amount, false);
    push_range(&mut r, path, hi, len, false);
    proof {
        let p = path@;
        let a = p.subrange(0, lo as int);
        let b = p.subrange(lo as int, lo + amount);
        let c = p.subrange(lo + amount, hi as int);
        let d = p.subrange(hi as int, p.len() as int);
        assert(p =~= a + b + c + d);
        lemma_four_parts(a, b, c, d);
        lemma_four_parts(a, c, b, d);
        assert(r@.to_multiset() =~= p.to_multiset());
        vstd::seq_lib::to_multiset_len(r@);
        vstd::seq_lib::to_multiset_len(p);
        assert(r@ =~= rotate_range(p, lo as int, hi as int, amount as int));
    }
    r
}

/// `p` with the elements at `i` and `j` exchanged.
pub open spec fn swap_move(p: Seq<usize>, i: int, j: int) -> Seq<usize> {
    p.update(i, p[j]).update(j, p[i])
}

/// No swap of two positions makes `p` cheaper.
pub open spec fn swap_optimal(w: Seq<Seq<i64>>, p: Seq<usize>) -> bool {
    forall|i: int, j: int| 0 <= i < j < p.len() ==> path_cost(w, #[trigger] swap_move(p, i, j)) >= path_cost(w, p)
}

/// No rotation of a stretch `start..end` by `1 <= amount < end - start`
/// makes `p` cheaper.
pub open spec fn inner_rotate_optimal(w: Seq<Seq<i64>>, p: Seq<usize>) -> bool {
    forall|s: int, e: int, a: int|
        0 <= s < e <= p.len() && 1 <= a < e - s ==> path_cost(w, #[trigger] rotate_range(p, s, e, a))
            >= path_cost(w, p)
}

/// No 3-opt reconnection makes `p` cheaper.
pub open spec fn three_opt_optimal(w: Seq<Seq<i64>>, p: Seq<usize>) -> bool {
    forall|a: int, b: int, c: int, m: int|
        0 <= a && a + 2 <= b && b + 2 <= c < p.len() && 0 <= m <= 3 ==> path_cost(
            w,
            #[trigger] three_opt_move(p, m, a, b, c),
        ) >= path_cost(w, p)
}

/// `path` with the elements at `i` and `j` exchanged.
fn swapped(path: &Vec<usize>, i: usize, j: usize) -> (r: Vec<usize>)
    requires
        i < path.len(),
        j < path.len(),
    ensures
        r@ == swap_move(path@, i as int, j as int),
        r@.to_multiset() == path@.to_multiset(),
        r@.len() == path@.len(),
{
    let mut r = path.clone();
    swap_at(&mut r, i, j);
    r
}

/// The improving moves that the neighbourhood searches below look for.
#[derive(Clone, Copy, Debug, PartialEq, Eq, Structural)]
pub enum Neighbourhood {
    Swap,
    TwoOpt,
    ThreeOpt,
    InnerRotate,
}

/// No move of `neighbourhood` makes `p` cheaper.
pub open spec fn locally_optimal(neighbourhood: Neighbourhood, w: Seq<Seq<i64>>, p: Seq<usize>) -> bool {
    match neighbourhood {
        Neighbourhood::Swap => swap_optimal(w, p),
        Neighbourhood::TwoOpt => two_opt_optimal(w, p),
        Neighbourhood::ThreeOpt => three_opt_optimal(w, p),
        Neighbourhood::InnerRotate => inner_rotate_optimal(w, p),
    }
}

/// `q` is `p` after one move of `neighbourhood`.
pub open spec fn is_move(neighbourhood: Neighbourhood, p: Seq<usize>, q: Seq<usize>) -> bool {
    match neighbourhood {
        Neighbourhood::Swap => exists|i: int, j: int| 0 <= i < j < p.len() && q == #[trigger] swap_move(p, i, j),
        Neighbourhood::TwoOpt => exists|i: int, j: int| 0 <= i < j < p.len() && q == #[trigger] two_opt_move(p, i, j),
        Neighbourhood::ThreeOpt => exists|a: int, b: int, c: int, m: int|
            0 <= a && a + 2 <= b && b + 2 <= c < p.len() && 0 <= m <= 3 && q == #[trigger] three_opt_move(p, m, a, b, c),
        Neighbourhood::InnerRotate => exists|s: int, e: int, a: int|
            0 <= s < e <= p.len() && 1 <= a < e - s && q == #[trigger] rotate_range(p, s, e, a),
    }
}

/// Each path of `chain` is the one before it after a move of
/// `neighbourhood` that makes it strictly cheaper.
pub open spec fn improving_chain(neighbourhood: Neighbourhood, w: Seq<Seq<i64>>, chain: Seq<Seq<usize>>) -> bool {
    &&& chain.len() >= 1
    &&& forall|t: int|
        0 <= t < chain.len() - 1 ==> is_move(neighbourhood, chain[t], #[trigger] chain[t + 1])
            && path_cost(w, chain[t + 1]) < path_cost(w, chain[t])
}

/// `r` is reached from `s` by strictly improving moves of `neighbourhood`,
/// by at most one when the improvement stops after a single step.
pub open spec fn reached_by(neighbourhood: Neighbourhood, w: Seq<Seq<i64>>, s: Seq<usize>, r: Seq<usize>, prefer_step: bool) -> bool {
    exists|chain: Seq<Seq<usize>>|
        improving_chain(neighbourhood, w, chain) && chain[0] == s && chain[chain.len() - 1] == r && (prefer_step
            ==> chain.len() <= 2)
}

/// What an improvement by `neighbourhood` returns from the start path `s`:
/// a reordering of `s` reached by strictly improving moves, so that a result
/// other than `s` is strictly cheaper; unless it stops after one step, a path
/// that no move improves; and `s` itself when no move improves `s`.
pub open spec fn improvement_outcome(neighbourhood: Neighbourhood, w: Seq<Seq<i64>>, s: Seq<usize>, prefer_step: bool, r: Seq<usize>) -> bool {
    &&& no_worse(w, s, r)
    &&& reached_by(neighbourhood, w, s, r, prefer_step)
    &&& r != s ==> path_cost(w, r) < path_cost(w, s)
    &&& !prefer_step ==> locally_optimal(neighbourhood, w, r)
    &&& locally_optimal(neighbourhood, w, s) ==> r == s
}

/// The first swap of two positions, in the order of `(i, j)`, that makes
/// `path` cheaper than `best_cost`.
fn find_swap<S: StepSink>(graph: &Graph, path: &Vec<usize>, best_cost: i128, sink: &mut S) -> (r: Option<(i128, Vec<usize>)>)
    requires
        graph.wf(),
        valid_indices(path@, graph.weights().len()),
        best_cost == path_cost(graph.weights(), path@),
    ensures
        r matches Some((c, p)) ==> c == path_cost(graph.weights(), p@) && c < best_cost
            && p@.to_multiset() == path@.to_multiset(),
        r is None ==> swap_optimal(graph.weights(), path@),
        r matches Some((c, p)) ==> is_move(Neighbourhood::Swap, path@, p@),
{
    let len = path.len();
    let mut i: usize = 0;
    while i < len
        invariant
            graph.wf(),
            len == path.len(),
            valid_indices(path@, graph.weights().len()),
            best_cost == path_cost(graph.weights(), path@),
            forall|a: int, b: int| 0 <= a < i && a < b < len ==> path_cost(graph.weights(), #[trigger] swap_move(path@, a, b)) >= best_cost,
        decreases len - i,
    {
        let mut j: usize = i + 1;
        while j < len
            invariant
                graph.wf(),
                len == path.len(),
                i < len,
                i + 1 <= j,
                valid_indices(path@, graph.weights().len()),
                best_cost == path_cost(graph.weights(), path@),
                forall|a: int, b: int| 0 <= a < i && a < b < len ==> path_cost(graph.weights(), #[trigger] swap_move(path@, a, b)) >= best_cost,
                forall|b: int| i < b < j ==> path_cost(graph.weights(), #[trigger] swap_move(path@, i as int, b)) >= best_cost,
            decreases len - j,
        {
            let candidate = swapped(path, i, j);
            proof {
                lemma_reordered_valid(path@, candidate@, graph.weights().len());
            }
            let new_cost = graph.dist_path(&candidate);
            if new_cost < best_cost {
                assert(candidate@ == swap_move(path@, i as int, j as int));
                send_better(sink, &candidate, Progress::grid(i, j, len));
                return Some((new_cost, candidate));
            }
            j += 1;
        }
        i += 1;
    }
    None
}

/// The first rotation of a stretch `start..end` of `path` that makes it
/// cheaper than `best_cost`. Each start is shown as it is reached.
fn find_inner_rotate<S: StepSink>(graph: &Graph, path: &Vec<usize>, best_cost: i128, sink: &mut S) -> (r: Option<(i128, Vec<usize>)>)
    requires
        graph.wf(),
        valid_indices(path@, graph.weights().len()),
        best_cost == path_cost(graph.weights(), path@),
    ensures
        r matches Some((c, p)) ==> c == path_cost(graph.weights(), p@) && c < best_cost
            && p@.to_multiset() == path@.to_multiset(),
        r is None ==> inner_rotate_optimal(graph.weights(), path@),
        r matches Some((c, p)) ==> is_move(Neighbourhood::InnerRotate, path@, p@),
{
    let len = path.len();
    let ghost w = graph.weights();
    let mut start: usize = 0;
    while start < len
        invariant
            graph.wf(),
            w == graph.weights(),
            len == path.len(),
            valid_indices(path@, graph.weights().len()),
            best_cost == path_cost(w, path@),
            forall|s: int, e: int, a: int|
                0 <= s < start && s < e <= len && 1 <= a < e - s ==> path_cost(w, #[trigger] rotate_range(path@, s, e, a)) >= best_cost,
        decreases len - start,
    {
        send_better(sink, path, Progress::fraction(start, len));
        let mut end: usize = start + 1;
        while end <= len
            invariant
                graph.wf(),
                w == graph.weights(),
                len == path.len(),
                start < len,
                start + 1 <= end <= len,
                valid_indices(path@, graph.weights().len()),
                best_cost == path_cost(w, path@),
                forall|s: int, e: int, a: int|
                    0 <= s < start && s < e <= len && 1 <= a < e - s ==> path_cost(w, #[trigger] rotate_range(path@, s, e, a)) >= best_cost,
                forall|e: int, a: int|
                    start < e < end && 1 <= a < e - start ==> path_cost(w, #[trigger] rotate_range(path@, start as int, e, a)) >= best_cost,
            ensures
                forall|e: int, a: int|
                    start < e <= len && 1 <= a < e - start ==> path_cost(w, #[trigger] rotate_range(path@, start as int, e, a)) >= best_cost,
            decreases len + 1 - end,
        {
            let mut amount: usize = 1;
            while amount < end - start
                invariant
                    graph.wf(),
                    w == graph.weights(),
                    len == path.len(),
                    start < end <= len,
                    1 <= amount,
                    valid_indices(path@, graph.weights().len()),
                    best_cost == path_cost(w, path@),
                    forall|a: int| 1 <= a < amount ==> path_cost(w, #[trigger] rotate_range(path@, start as int, end as int, a)) >= best_cost,
                decreases end - start - amount,
            {
                let candidate = rotate_slice_left(path, start, end, amount);
                proof {
                    lemma_reordered_valid(path@, candidate@, graph.weights().len());
                }
                let new_cost = graph.dist_path(&candidate);
                if new_cost < best_cost {
                    assert(candidate@ == rotate_range(path@, start as int, end as int, amount as int));
                    let offset = if end < len { end } else { len };
                    send_better(sink, &candidate, Progress::grid(start, offset, len));
                    return Some((new_cost, candidate));
                }
                amount += 1;
            }
            if end == len {
                break;
            }
            end += 1;
        }
        start += 1;
    }
    None
}

/// The first 3-opt reconnection, in the order of `(i, j, k, method)`, that
/// makes `path` cheaper than `best_cost`. The best path so far is shown on
/// each improvement and on each triple with `j = i + 2` and `k = j + 2`.
fn find_three_opt<S: StepSink>(graph: &Graph, path: &Vec<usize>, best_cost: i128, sink: &mut S) -> (r: Option<(i128, Vec<usize>)>)
    requires
        graph.wf(),
        valid_indices(path@, graph.weights().len()),
        best_cost == path_cost(graph.weights(), path@),
    ensures
        r matches Some((c, p)) ==> c == path_cost(graph.weights(), p@) && c < best_cost
            && p@.to_multiset() == path@.to_multiset(),
        r is None ==> three_opt_optimal(graph.weights(), path@),
        r matches Some((c, p)) ==> is_move(Neighbourhood::ThreeOpt, path@, p@),
        path@.len() < 5 ==> r is None,
{
    let len = path.len();
    let ghost w = graph.weights();
    if len < 5 {
        return None;
    }
    let mut i: usize = 0;
    while i < len - 4
        invariant
            graph.wf(),
            w == graph.weights(),
            len == path.len(),
            len >= 5,
            valid_indices(path@, graph.weights().len()),
            best_cost == path_cost(w, path@),
            forall|a: int, b: int, c: int, m: int|
                0 <= a < i && a + 2 <= b && b + 2 <= c < len && 0 <= m <= 3 ==> path_cost(
                    w,
                    #[trigger] three_opt_move(path@, m, a, b, c),
                ) >= best_cost,
        decreases len - i,
    {
        let mut j: usize = i + 2;
        while j < len - 2
            invariant
                graph.wf(),
                w == graph.weights(),
                len == path.len(),
                len >= 5,
                i < len - 4,
                j >= i + 2,
                valid_indices(path@, graph.weights().len()),
                best_cost == path_cost(w, path@),
                forall|a: int, b: int, c: int, m: int|
                    0 <= a < i && a + 2 <= b && b + 2 <= c < len && 0 <= m <= 3 ==> path_cost(
                        w,
                        #[trigger] three_opt_move(path@, m, a, b, c),
                    ) >= best_cost,
                forall|b: int, c: int, m: int|
                    i + 2 <= b < j && b + 2 <= c < len && 0 <= m <= 3 ==> path_cost(
                        w,
                        #[trigger] three_opt_move(path@, m, i as int, b, c),
                    ) >= best_cost,
            decreases len - j,
        {
            let mut k: usize = j + 2;
            while k < len
                invariant
                    graph.wf(),
                    w == graph.weights(),
                    len == path.len(),
                    len >= 5,
                    i < len - 4,
                    i + 2 <= j < len - 2,
                    k >= j + 2,
                    valid_indices(path@, graph.weights().len()),
                    best_cost == path_cost(w, path@),
                    forall|c: int, m: int|
                        j + 2 <= c < k && 0 <= m <= 3 ==> path_cost(
                            w,
                            #[trigger] three_opt_move(path@, m, i as int, j as int, c),
                        ) >= best_cost,
                decreases len - k,
            {
                let mut method: u8 = 0;
                while method <= 3
                    invariant
                        graph.wf(),
                        w == graph.weights(),
                        len == path.len(),
                        i + 2 <= j,
                        j + 2 <= k < len,
                        method <= 4,
                        valid_indices(path@, graph.weights().len()),
                        best_cost == path_cost(w, path@),
                        forall|m: int|
                            0 <= m < method ==> path_cost(
                                w,
                                #[trigger] three_opt_move(path@, m, i as int, j as int, k as int),
                            ) >= best_cost,
                    decreases 4 - method,
                {
                    let candidate = three_opt_swap(path, method, i, j, k);
                    proof {
                        lemma_reordered_valid(path@, candidate@, graph.weights().len());
                    }
                    let new_cost = graph.dist_path(&candidate);
                    if new_cost < best_cost {
                        assert(candidate@ == three_opt_move(path@, method as int, i as int, j as int, k as int));
                        send_better(sink, &candidate, Progress::grid(i, j, len));
                        return Some((new_cost, candidate));
                    }
                    if k == j + 2 && j == i + 2 {
                        send_better(sink, path, Progress::grid(i, j, len));
                    }
                    method += 1;
                }
                k += 1;
            }
            j += 1;
        }
        i += 1;
    }
    None
}

/// The first 2-opt move that makes `path` cheaper than `best_cost`, as a new
/// path.
fn find_two_opt_copy<S: StepSink>(graph: &Graph, path: &Vec<usize>, best_cost: i128, sink: &mut S) -> (r: Option<(i128, Vec<usize>)>)
    requires
        graph.wf(),
        valid_indices(path@, graph.weights().len()),
        best_cost == path_cost(graph.weights(), path@),
    ensures
        r matches Some((c, p)) ==> c == path_cost(graph.weights(), p@) && c < best_cost
            && p@.to_multiset() == path@.to_multiset(),
        r is None ==> two_opt_optimal(graph.weights(), path@),
        r matches Some((c, p)) ==> is_move(Neighbourhood::TwoOpt, path@, p@),
{
    let mut candidate = path.clone();
    match find_two_opt(graph, &mut candidate, best_cost, sink) {
        Some(c) => Some((c, candidate)),
        None => None,
    }
}

proof fn lemma_move_len(neighbourhood: Neighbourhood, p: Seq<usize>, q: Seq<usize>)
    requires
        is_move(neighbourhood, p, q),
    ensures
        neighbourhood == Neighbourhood::ThreeOpt ==> p.len() >= 5,
{
}

/// Makes the first improving move of `neighbourhood` over and over, until
/// none is left (or after one, when the context prefers single steps).
fn improve_until_stuck<S: StepSink>(ctx: &PathImproveContext, neighbourhood: Neighbourhood, sink: &mut S) -> (r: Vec<usize>)
    requires
        ctx.wf(),
    ensures
        improvement_outcome(neighbourhood, ctx.graph.weights(), ctx.path@, ctx.prefer_step, r@),
        neighbourhood == Neighbourhood::ThreeOpt && ctx.path@.len() < 5 ==> r@ == ctx.path@,
{
    let graph = &ctx.graph;
    let mut path = ctx.start_path();
    let mut best_cost = graph.dist_path(&path);
    let ghost start = path@;
    let ghost w = graph.weights();
    let ghost mut chain: Seq<Seq<usize>> = seq![start];
    loop
        invariant_except_break
            ctx.prefer_step ==> chain.len() == 1,
        invariant
            graph.wf(),
            w == graph.weights(),
            start == ctx.path@,
            valid_indices(path@, w.len()),
            best_cost == path_cost(w, path@),
            no_worse(w, start, path@),
            path@.len() == start.len(),
            improving_chain(neighbourhood, w, chain),
            chain[0] == start,
            chain[chain.len() - 1] == path@,
            ctx.prefer_step ==> chain.len() <= 2,
            chain.len() == 1 ==> path@ == start,
            chain.len() > 1 ==> best_cost < path_cost(w, start),
            locally_optimal(neighbourhood, w, start) ==> chain.len() == 1,
            neighbourhood == Neighbourhood::ThreeOpt && start.len() < 5 ==> chain.len() == 1,
        ensures
            no_worse(w, start, path@),
            improving_chain(neighbourhood, w, chain),
            chain[0] == start,
            chain[chain.len() - 1] == path@,
            ctx.prefer_step ==> chain.len() <= 2,
            chain.len() == 1 ==> path@ == start,
            chain.len() > 1 ==> best_cost < path_cost(w, start),
            best_cost == path_cost(w, path@),
            !ctx.prefer_step ==> locally_optimal(neighbourhood, w, path@),
            locally_optimal(neighbourhood, w, start) ==> chain.len() == 1,
            neighbourhood == Neighbourhood::ThreeOpt && start.len() < 5 ==> chain.len() == 1,
        decreases best_cost + path_cost_bound(start.len()),
    {
        proof {
            lemma_path_cost_bound(w, path@);
        }
        let found = match neighbourhood {
            Neighbourhood::Swap => find_swap(graph, &path, best_cost, sink),
            Neighbourhood::TwoOpt => find_two_opt_copy(graph, &path, best_cost, sink),
            Neighbourhood::ThreeOpt => find_three_opt(graph, &path, best_cost, sink),
            Neighbourhood::InnerRotate => find_inner_rotate(graph, &path, best_cost, sink),
        };
        match found {
            Some((c, next)) => {
                proof {
                    lemma_reordered_valid(path@, next@, w.len());
                    vstd::seq_lib::to_multiset_len(path@);
                    vstd::seq_lib::to_multiset_len(next@);
                    lemma_path_cost_bound(w, next@);
                    if chain.len() == 1 {
                        lemma_move_len(neighbourhood, path@, next@);
                    }
                    let old_chain = chain;
                    chain = chain.push(next@);
                    assert forall|t: int| 0 <= t < chain.len() - 1 implies is_move(neighbourhood, chain[t], #[trigger] chain[t + 1])
                        && path_cost(w, chain[t + 1]) < path_cost(w, chain[t]) by {
                        if t < old_chain.len() - 1 {
                            assert(chain[t] == old_chain[t] && chain[t + 1] == old_chain[t + 1]);
                        }
                    }
                }
                path = next;
                best_cost = c;
                if ctx.prefer_step() {
                    break;
                }
            },
            None => {
                break;
            },
        }
    }
    proof {
        if path@ != start {
            assert(chain.len() > 1);
        }
    }
    path
}

/// Swap: the first exchange of two positions that makes the path cheaper is
/// made, and the search starts over.
pub fn swap<S: StepSink>(ctx: &PathImproveContext, sink: &mut S) -> (r: Path)
    requires
        ctx.wf(),
    ensures
        improvement_outcome(Neighbourhood::Swap, ctx.graph.weights(), ctx.path@, ctx.prefer_step, r@),
        !ctx.prefer_step ==> swap_optimal(ctx.graph.weights(), r@),
{
    Path::new(improve_until_stuck(ctx, Neighbourhood::Swap, sink))
}

/// Inner rotate: the first rotation of a stretch `start..end` by an amount in
/// `1..end - start` that makes the path cheaper is made, and the search
/// starts over.
pub fn inner_rotate<S: StepSink>(ctx: &PathImproveContext, sink: &mut S) -> (r: Path)
    requires
        ctx.wf(),
    ensures
        improvement_outcome(Neighbourhood::InnerRotate, ctx.graph.weights(), ctx.path@, ctx.prefer_step, r@),
        !ctx.prefer_step ==> inner_rotate_optimal(ctx.graph.weights(), r@),
{
    Path::new(improve_until_stuck(ctx, Neighbourhood::InnerRotate, sink))
}

/// 3-opt: the first of the four reconnections of three cut points
/// `a + 2 <= b`, `b + 2 <= c` that makes the path cheaper is made, and the
/// search starts over.
pub fn three_opt<S: StepSink>(ctx: &PathImproveContext, sink: &mut S) -> (r: Path)
    requires
        ctx.wf(),
    ensures
        improvement_outcome(Neighbourhood::ThreeOpt, ctx.graph.weights(), ctx.path@, ctx.prefer_step, r@),
        !ctx.prefer_step ==> three_opt_optimal(ctx.graph.weights(), r@),
        ctx.path@.len() < 5 ==> r@ == ctx.path@,
{
    Path::new(improve_until_stuck(ctx, Neighbourhood::ThreeOpt, sink))
}

/// Rotate: the cheapest of the rotations of the whole path (the first on
/// ties), when it is cheaper than the path itself.
pub fn rotate<S: StepSink>(ctx: &PathImproveContext, sink: &mut S) -> (r: Path)
    requires
        ctx.wf(),
    ensures
        no_worse(ctx.graph.weights(), ctx.path@, r@),
        forall|k: int|
            0 <= k < ctx.path@.len() ==> path_cost(ctx.graph.weights(), r@) <= path_cost(
                ctx.graph.weights(),
                #[trigger] rotate_range(ctx.path@, 0, ctx.path@.len() as int, k),
            ),
        r@ == ctx.path@ || exists|k: int|
            0 < k < ctx.path@.len() && r@ == #[trigger] rotate_range(ctx.path@, 0, ctx.path@.len() as int, k),
        r@ != ctx.path@ ==> path_cost(ctx.graph.weights(), r@) < path_cost(ctx.graph.weights(), ctx.path@),
{
    let graph = &ctx.graph;
    let path = ctx.start_path();
    let len = path.len();
    let ghost w = graph.weights();
    let path_cost_now = graph.dist_path(&path);
    let mut min: Option<(i128, usize)> = None;
    let mut i: usize = 0;
    while i < len
        invariant
            graph.wf(),
            w == graph.weights(),
            len == path.len(),
            0 <= i <= len,
            path@ == ctx.path@,
            valid_indices(path@, graph.weights().len()),
            i > 0 ==> min is Some,
            min matches Some((c, k)) ==> k < len && c == path_cost(w, rotate_range(path@, 0, len as int, k as int))
                && forall|x: int| 0 <= x < i ==> c <= path_cost(w, #[trigger] rotate_range(path@, 0, len as int, x)),
        decreases len - i,
    {
        let inner = rotate_slice_left(&path, 0, len, i);
        proof {
            lemma_reordered_valid(path@, inner@, graph.weights().len());
        }
        let cost = graph.dist_path(&inner);
        let better = match min {
            None => true,
            Some((c, _)) => cost < c,
        };
        if better {
            min = Some((cost, i));
            send_better(sink, &path, Progress::fraction(i, len));
        }
        i += 1;
    }
    match min {
        Some((c, k)) => {
            if c < path_cost_now {
                let inner = rotate_slice_left(&path, 0, len, k);
                proof {
                    if k == 0 {
                        assert(rotate_range(path@, 0, len as int, 0) =~= path@);
                    }
                }
                Path::new(inner)
            } else {
                Path::new(path)
            }
        },
        None => Path::new(path),
    }
}

} // verus!
