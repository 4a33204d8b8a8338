use vstd::prelude::*;
use crate::graph::{is_square, path_cost, valid_indices, lemma_path_cost_bound, path_cost_bound, Cost, Weight};
use crate::path::Path;
use vstd::arithmetic::div_mod::lemma_fundamental_div_mod_converse_mod;

verus! {

/// A quadratic n x n matrix of fixed-point weights.
#[derive(Clone, Debug)]
pub struct Matrix {
    values: Vec<Vec<i64>>,
}

/// The rows of `values` as sequences.
pub open spec fn rows_view(values: Seq<Vec<i64>>) -> Seq<Seq<i64>> {
    values.map_values(|r: Vec<i64>| r@)
}

/// The entry of `m` rotated left by `k` in rows and in columns.
pub open spec fn rotated(m: Seq<Seq<i64>>, k: int) -> Seq<Seq<i64>> {
    Seq::new(
        m.len(),
        |i: int| Seq::new(m.len(), |j: int| m[(i + k) % (m.len() as int)][(j + k) % (m.len() as int)]),
    )
}

/// The vertex that `v` becomes when the labels are rotated left by `k`.
pub open spec fn relabel(v: usize, k: int, n: int) -> usize {
    ((v - k) % n) as usize
}

/// A path with each vertex relabelled by [`relabel`].
pub open spec fn relabel_path(p: Seq<usize>, k: int, n: int) -> Seq<usize> {
    p.map_values(|v: usize| relabel(v, k, n))
}

impl View for Matrix {
    type V = Seq<Seq<i64>>;

    closed spec fn view(&self) -> Seq<Seq<i64>> {
        rows_view(self.values@)
    }
}

impl Matrix {
    /// A matrix is well formed when it is square.
    pub open spec fn wf(&self) -> bool {
        is_square(self@)
    }

    /// Builds a matrix from its rows; `None` when some row's length differs
    /// from the number of rows.
    pub fn new(values: Vec<Vec<i64>>) -> (r: Option<Matrix>)
        ensures
            r.is_some() <==> is_square(rows_view(values@)),
            r matches Some(m) ==> m@ == rows_view(values@) && m.wf(),
    {
        let dim = values.len();
        let mut i: usize = 0;
        while i < dim
            invariant
                dim == values.len(),
                0 <= i <= dim,
                forall|k: int| 0 <= k < i ==> (#[trigger] values[k]).len() == dim,
            decreases dim - i,
        {
            if values[i].len() != dim {
                assert(!is_square(rows_view(values@))) by {
                    assert(rows_view(values@)[i as int].len() != dim);
                }
                return None;
            }
            i += 1;
        }
        let m = Matrix { values };
        assert(is_square(m@)) by {
            assert forall|k: int| 0 <= k < m@.len() implies (#[trigger] m@[k]).len() == m@.len() by {
                assert(m@[k] == m.values@[k]@);
            }
        }
        Some(m)
    }

    pub fn dim(&self) -> (r: usize)
        ensures
            r == self@.len(),
    {
        self.values.len()
    }

    /// The entry in row `i` and column `j`.
    pub fn get(&self, i: usize, j: usize) -> (r: i64)
        requires
            self.wf(),
            i < self@.len(),
            j < self@.len(),
        ensures
            r == self@[i as int][j as int],
    {
        assert(self@[i as int] == self.values@[i as int]@);
        self.values[i][j]
    }

    pub fn into_inner(self) -> (r: Vec<Vec<i64>>)
        ensures
            rows_view(r@) == self@,
    {
        self.values
    }

    /// Every entry is 0 or 1.
    pub fn is_logical(&self) -> (r: bool)
        requires
            self.wf(),
        ensures
            r <==> forall|i: int, j: int|
                0 <= i < self@.len() && 0 <= j < self@.len() ==> (#[trigger] self@[i][j] == 0
                    || self@[i][j] == 1),
    {
        let n = self.dim();
        let mut i: usize = 0;
        while i < n
            invariant
                self.wf(),
                n == self@.len(),
                0 <= i <= n,
                forall|a: int, b: int|
                    0 <= a < i && 0 <= b < n ==> (#[trigger] self@[a][b] == 0 || self@[a][b] == 1),
            decreases n - i,
        {
            let mut j: usize = 0;
            while j < n
                invariant
                    self.wf(),
                    n == self@.len(),
                    0 <= i < n,
                    0 <= j <= n,
                    forall|a: int, b: int|
                        0 <= a < i && 0 <= b < n ==> (#[trigger] self@[a][b] == 0 || self@[a][b]
                            == 1),
                    forall|b: int| 0 <= b < j ==> (#[trigger] self@[i as int][b] == 0 || self@[i as int][b] == 1),
                decreases n - j,
            {
                let v = self.get(i, j);
                if v != 0 && v != 1 {
                    return false;
                }
                j += 1;
            }
            i += 1;
        }
        true
    }

    /// Rotates rows and columns left by `index`: entry `(i, j)` of the result
    /// is entry `((i + index) mod n, (j + index) mod n)` of `self`.
    pub fn rotate_left(self, index: usize) -> (r: Matrix)
        requires
            self.wf(),
            index <= self@.len(),
        ensures
            r.wf(),
            r@ == rotated(self@, index as int),
    {
        self.rotated_copy(index)
    }

    /// A copy rotated as [`Matrix::rotate_left`] rotates.
    pub fn rotated_copy(&self, index: usize) -> (r: Matrix)
        requires
            self.wf(),
            index <= self@.len(),
        ensures
            r.wf(),
            r@ == rotated(self@, index as int),
    {
        let n = self.dim();
        let mut values: Vec<Vec<i64>> = Vec::new();
        let mut i: usize = 0;
        while i < n
            invariant
                self.wf(),
                n == self@.len(),
                index <= n,
                0 <= i <= n,
                values.len() == i,
                forall|a: int| 0 <= a < i ==> (#[trigger] values@[a])@ == rotated(self@, index as int)[a],
            decreases n - i,
        {
            let src = if index >= n - i { index - (n - i) } else { i + index };
            proof { lemma_mod_wrap(i + index, n as int); }
            let mut row: Vec<i64> = Vec::new();
            let mut j: usize = 0;
            while j < n
                invariant
                    self.wf(),
                    n == self@.len(),
                    index <= n,
                    0 <= i < n,
                    src == (i + index) % (n as int),
                    0 <= j <= n,
                    row.len() == j,
                    forall|b: int| 0 <= b < j ==> #[trigger] row@[b] == self@[src as int][(b + index) % (n as int)],
                decreases n - j,
            {
                let col = if index >= n - j { index - (n - j) } else { j + index };
                proof { lemma_mod_wrap(j + index, n as int); }
                row.push(self.get(src, col));
                j += 1;
            }
            assert(row@ == rotated(self@, index as int)[i as int]);
            values.push(row);
            i += 1;
        }
        let r = Matrix { values };
        assert(r@ =~= rotated(self@, index as int)) by {
            assert forall|a: int| 0 <= a < n implies #[trigger] r@[a] == rotated(self@, index as int)[a] by {
                assert(r@[a] == values@[a]@);
            }
        }
        r
    }

    /// The largest entry.
    pub fn max(&self) -> (r: i64)
        requires
            self.wf(),
            self@.len() > 0,
        ensures
            exists|i: int, j: int| 0 <= i < self@.len() && 0 <= j < self@.len() && self@[i][j] == r,
            forall|i: int, j: int| 0 <= i < self@.len() && 0 <= j < self@.len() ==> #[trigger] self@[i][j] <= r,
    {
        let n = self.dim();
        let mut best = self.get(0, 0);
        let mut i: usize = 0;
        while i < n
            invariant
                self.wf(),
                n == self@.len(),
                n > 0,
                0 <= i <= n,
                exists|a: int, b: int| 0 <= a < n && 0 <= b < n && self@[a][b] == best,
                forall|a: int, b: int| 0 <= a < i && 0 <= b < n ==> #[trigger] self@[a][b] <= best,
            decreases n - i,
        {
            let mut j: usize = 0;
            while j < n
                invariant
                    self.wf(),
                    n == self@.len(),
                    0 <= i < n,
                    0 <= j <= n,
                    exists|a: int, b: int| 0 <= a < n && 0 <= b < n && self@[a][b] == best,
                    forall|a: int, b: int| 0 <= a < i && 0 <= b < n ==> #[trigger] self@[a][b] <= best,
                    forall|b: int| 0 <= b < j ==> #[trigger] self@[i as int][b] <= best,
                decreases n - j,
            {
                let v = self.get(i, j);
                if v > best {
                    best = v;
                }
                j += 1;
            }
            i += 1;
        }
        best
    }

    /// Multiplies every entry by `factor`.
    pub fn scale(self, factor: i64) -> (r: Matrix)
        requires
            self.wf(),
            forall|i: int, j: int|
                0 <= i < self@.len() && 0 <= j < self@.len() ==> i64::MIN <= #[trigger] self@[i][j]
                    * factor <= i64::MAX,
        ensures
            r.wf(),
            r@.len() == self@.len(),
            forall|i: int, j: int|
                0 <= i < self@.len() && 0 <= j < self@.len() ==> #[trigger] r@[i][j] == self@[i][j]
                    * factor,
    {
        let n = self.dim();
        let mut values: Vec<Vec<i64>> = Vec::new();
        let mut i: usize = 0;
        while i < n
            invariant
                self.wf(),
                n == self@.len(),
                0 <= i <= n,
                values.len() == i,
                forall|a: int, b: int|
                    0 <= a < n && 0 <= b < n ==> i64::MIN <= #[trigger] self@[a][b] * factor
                        <= i64::MAX,
                forall|a: int| 0 <= a < i ==> (#[trigger] values@[a])@.len() == n,
                forall|a: int, b: int|
                    0 <= a < i && 0 <= b < n ==> #[trigger] values@[a]@[b] == self@[a][b] * factor,
            decreases n - i,
        {
            let mut row: Vec<i64> = Vec::new();
            let mut j: usize = 0;
            while j < n
                invariant
                    self.wf(),
                    n == self@.len(),
                    0 <= i < n,
                    0 <= j <= n,
                    row.len() == j,
                    forall|a: int, b: int|
                        0 <= a < n && 0 <= b < n ==> i64::MIN <= #[trigger] self@[a][b] * factor
                            <= i64::MAX,
                    forall|b: int| 0 <= b < j ==> #[trigger] row@[b] == self@[i as int][b] * factor,
                decreases n - j,
            {
                let v = self.get(i, j);
                assert(i64::MIN <= self@[i as int][j as int] * factor <= i64::MAX);
                row.push(v * factor);
                j += 1;
            }
            values.push(row);
            i += 1;
        }
        let r = Matrix { values };
        assert forall|a: int| 0 <= a < n implies #[trigger] r@[a] == values@[a]@ by {}
        r
    }
}

pub proof fn lemma_mod_wrap(x: int, n: int)
    requires
        n > 0,
        0 <= x < 2 * n,
    ensures
        x % n == if x < n { x } else { x - n },
{
    if x < n {
        lemma_fundamental_div_mod_converse_mod(x, n, 0, x);
    } else {
        lemma_fundamental_div_mod_converse_mod(x, n, 1, x - n);
    }
}

pub proof fn lemma_relabel_back(a: int, k: int, n: int)
    requires
        0 <= a < n,
        0 <= k <= n,
    ensures
        0 <= (a - k) % n < n,
        ((a - k) % n + k) % n == a,
{
    if a >= k {
        lemma_fundamental_div_mod_converse_mod(a - k, n, 0, a - k);
        lemma_fundamental_div_mod_converse_mod(a, n, 0, a);
    } else {
        lemma_fundamental_div_mod_converse_mod(a - k, n, -1, a - k + n);
        lemma_fundamental_div_mod_converse_mod(a + n, n, 1, a);
    }
}

/// Rotating the weights left by `k` and relabelling each vertex `v` of a path
/// as `(v - k) mod n` keeps the path's cost.
pub proof fn lemma_rotate_preserves_cost(m: Seq<Seq<i64>>, k: int, p: Seq<usize>)
    requires
        is_square(m),
        m.len() <= usize::MAX,
        0 <= k <= m.len(),
        valid_indices(p, m.len()),
    ensures
        path_cost(rotated(m, k), relabel_path(p, k, m.len() as int)) == path_cost(m, p),
    decreases p.len(),
{
    let n = m.len() as int;
    let q = relabel_path(p, k, n);
    if p.len() >= 2 {
        assert(relabel_path(p.drop_last(), k, n) =~= q.drop_last());
        lemma_rotate_preserves_cost(m, k, p.drop_last());
        let a = p[p.len() - 2];
        let b = p[p.len() - 1];
        assert(a < n && b < n);
        assert(0 <= (a - k) % n < n);
        assert(0 <= (b - k) % n < n);
        lemma_relabel_back(a as int, k, n);
        lemma_relabel_back(b as int, k, n);
        assert(q[q.len() - 2] == relabel(a, k, n));
        assert(q[q.len() - 1] == relabel(b, k, n));
        let qa = q[q.len() - 2] as int;
        let qb = q[q.len() - 1] as int;
        assert(qa == (a - k) % n);
        assert(qb == (b - k) % n);
        assert(rotated(m, k)[qa] == Seq::new(m.len(), |j: int| m[(qa + k) % n][(j + k) % n]));
        assert(rotated(m, k)[q[q.len() - 2] as int][q[q.len() - 1] as int] == m[a as int][b as int]);
    }
}

/// A weighted graph, held as its weight matrix.
#[derive(Clone, Debug)]
pub struct Graph {
    pub matrix: Matrix,
}

impl Graph {
    pub open spec fn wf(&self) -> bool {
        self.matrix.wf()
    }

    pub open spec fn weights(&self) -> Seq<Seq<i64>> {
        self.matrix@
    }

    pub fn from_matrix(mat: Matrix) -> (r: Graph)
        ensures
            r.matrix == mat,
    {
        Graph { matrix: mat }
    }

    pub fn from_values(values: Vec<Vec<i64>>) -> (r: Option<Graph>)
        ensures
            r.is_some() <==> is_square(rows_view(values@)),
            r matches Some(g) ==> g.weights() == rows_view(values@) && g.wf(),
    {
        match Matrix::new(values) {
            Some(m) => Some(Graph::from_matrix(m)),
            None => None,
        }
    }

    pub fn size(&self) -> (r: usize)
        ensures
            r == self.weights().len(),
    {
        self.matrix.dim()
    }

    pub fn weight(&self, index1: usize, index2: usize) -> (r: Weight)
        requires
            self.wf(),
            index1 < self.weights().len(),
            index2 < self.weights().len(),
        ensures
            r.0 == self.weights()[index1 as int][index2 as int],
    {
        Weight::new(self.matrix.get(index1, index2))
    }

    /// The weight of the edge from `index1` to `index2`.
    pub fn dist(&self, index1: usize, index2: usize) -> (r: i64)
        requires
            self.wf(),
            index1 < self.weights().len(),
            index2 < self.weights().len(),
        ensures
            r == self.weights()[index1 as int][index2 as int],
    {
        self.matrix.get(index1, index2)
    }

    /// The open-path cost of the index sequence `path`.
    pub fn dist_path(&self, path: &Vec<usize>) -> (r: i128)
        requires
            self.wf(),
            valid_indices(path@, self.weights().len()),
        ensures
            r == path_cost(self.weights(), path@),
    {
        let len = path.len();
        if len < 2 {
            return 0;
        }
        let mut total: i128 = 0;
        let mut i: usize = 1;
        assert(path@.take(1).len() == 1);
        while i < len
            invariant
                self.wf(),
                valid_indices(path@, self.weights().len()),
                len == path@.len(),
                1 <= i <= len,
                total == path_cost(self.weights(), path@.take(i as int)),
            decreases len - i,
        {
            let w = self.dist(path[i - 1], path[i]);
            proof {
                let t = path@.take(i as int + 1);
                assert(t.drop_last() =~= path@.take(i as int));
                lemma_path_cost_bound(self.weights(), t);
                assert(path_cost_bound(t.len()) < 0x8000_0000_0000_0000_0000_0000_0000_0000int) by (nonlinear_arith)
                    requires
                        t.len() <= usize::MAX,
                        path_cost_bound(t.len()) == t.len() * 0x8000_0000_0000_0000int,
                ;
            }
            total = total + w as i128;
            i += 1;
        }
        assert(path@.take(len as int) =~= path@);
        total
    }

    /// The cost of `path`.
    pub fn path_weight(&self, path: &Path) -> (r: Cost)
        requires
            self.wf(),
            valid_indices(path@, self.weights().len()),
        ensures
            r.0 == path_cost(self.weights(), path@),
    {
        Cost::new(self.dist_path(&path.0))
    }

    /// The same graph with its vertices relabelled so that `index` becomes 0.
    pub fn rotate_left(self, index: usize) -> (r: Graph)
        requires
            self.wf(),
            index <= self.weights().len(),
        ensures
            r.wf(),
            r.weights() == rotated(self.weights(), index as int),
    {
        Graph { matrix: self.matrix.rotate_left(index) }
    }
}

} // verus!
