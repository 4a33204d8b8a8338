use vstd::prelude::*;
use crate::graph::{floor_sqrt, is_floor_sqrt, is_square, isqrt, Cost};
use crate::matrix::{rows_view, Graph};

verus! {

/// How the distance between two points is measured.
#[derive(Clone, Copy, Debug, PartialEq, Eq, Structural)]
pub enum Norm {
    Manhattan,
    Euclidean,
    Max,
}

/// A norm, and whether distances are negated (to search for the worst path
/// with the code that searches for the best).
#[derive(Clone, Copy, Debug, PartialEq, Eq, Structural)]
pub struct Metric {
    pub norm: Norm,
    pub invert: bool,
}

/// The number of coordinates two points are compared on.
pub open spec fn zip_len(a: Seq<i32>, b: Seq<i32>) -> int {
    if a.len() <= b.len() {
        a.len() as int
    } else {
        b.len() as int
    }
}

pub open spec fn abs_diff(x: i32, y: i32) -> int {
    if x >= y {
        x - y
    } else {
        y - x
    }
}

/// The sum of `|a[i] - b[i]|` over `i < k`.
pub open spec fn manhattan(a: Seq<i32>, b: Seq<i32>, k: int) -> int
    decreases k,
{
    if k <= 0 {
        0
    } else {
        manhattan(a, b, k - 1) + abs_diff(a[k - 1], b[k - 1])
    }
}

/// The sum of `(a[i] - b[i])^2` over `i < k`.
pub open spec fn squared(a: Seq<i32>, b: Seq<i32>, k: int) -> int
    decreases k,
{
    if k <= 0 {
        0
    } else {
        squared(a, b, k - 1) + (a[k - 1] - b[k - 1]) * (a[k - 1] - b[k - 1])
    }
}

/// The largest `|a[i] - b[i]|` over `i < k`, 0 when `k` is 0.
pub open spec fn max_abs(a: Seq<i32>, b: Seq<i32>, k: int) -> int
    decreases k,
{
    if k <= 0 {
        0
    } else {
        let m = max_abs(a, b, k - 1);
        let d = abs_diff(a[k - 1], b[k - 1]);
        if d > m {
            d
        } else {
            m
        }
    }
}

/// The distance of two coordinate sequences under a norm (Euclidean rounded
/// down).
pub open spec fn norm_dist(a: Seq<i32>, b: Seq<i32>, norm: Norm) -> int {
    let k = zip_len(a, b);
    match norm {
        Norm::Manhattan => manhattan(a, b, k),
        Norm::Euclidean => floor_sqrt(squared(a, b, k)),
        Norm::Max => max_abs(a, b, k),
    }
}

/// The distance under a metric: negated when the metric inverts.
pub open spec fn metric_dist(a: Seq<i32>, b: Seq<i32>, metric: Metric) -> int {
    if metric.invert {
        -norm_dist(a, b, metric.norm)
    } else {
        norm_dist(a, b, metric.norm)
    }
}

proof fn lemma_sums_symmetric(a: Seq<i32>, b: Seq<i32>, k: int)
    ensures
        manhattan(a, b, k) == manhattan(b, a, k),
        squared(a, b, k) == squared(b, a, k),
        max_abs(a, b, k) == max_abs(b, a, k),
        manhattan(a, a, k) == 0,
        squared(a, a, k) == 0,
        max_abs(a, a, k) == 0,
    decreases k,
{
    if k > 0 {
        lemma_sums_symmetric(a, b, k - 1);
        assert((a[k - 1] - b[k - 1]) * (a[k - 1] - b[k - 1]) == (b[k - 1] - a[k - 1]) * (b[k - 1]
            - a[k - 1])) by (nonlinear_arith);
    }
}

proof fn lemma_sums_bounded(a: Seq<i32>, b: Seq<i32>, k: int)
    requires
        0 <= k <= a.len(),
        k <= b.len(),
    ensures
        0 <= manhattan(a, b, k) <= k * 0x1_0000_0000,
        0 <= squared(a, b, k) <= k * 0x1_0000_0000_0000_0000,
        0 <= max_abs(a, b, k) <= 0x1_0000_0000,
    decreases k,
{
    if k > 0 {
        lemma_sums_bounded(a, b, k - 1);
        let d = a[k - 1] - b[k - 1];
        assert(0 <= d * d <= 0x1_0000_0000_0000_0000) by (nonlinear_arith)
            requires
                -0x1_0000_0000 <= d <= 0x1_0000_0000,
        ;
    }
}

/// Distances are symmetric, and zero from a point to itself, under every
/// metric.
pub proof fn lemma_metric_symmetric(a: Seq<i32>, b: Seq<i32>, metric: Metric)
    ensures
        metric_dist(a, b, metric) == metric_dist(b, a, metric),
        metric_dist(a, a, metric) == 0,
{
    lemma_sums_symmetric(a, b, zip_len(a, b));
    lemma_sums_symmetric(a, a, zip_len(a, a));
    assert(zip_len(a, b) == zip_len(b, a));
    assert(is_floor_sqrt(0, 0));
    crate::graph::lemma_floor_sqrt_unique(0, 0);
}

/// A point, by its fixed-point coordinates.
#[derive(Clone, Debug, PartialEq, Eq, Hash)]
pub struct Point(pub Vec<i32>);

impl View for Point {
    type V = Seq<i32>;

    open spec fn view(&self) -> Seq<i32> {
        self.0@
    }
}

/// The number of coordinates a point may have.
pub const MAX_DIM: usize = 255;

impl Point {
    pub fn new(values: Vec<i32>) -> (r: Point)
        ensures
            r@ == values@,
    {
        Point(values)
    }

    pub fn dim(&self) -> (r: usize)
        ensures
            r == self@.len(),
    {
        self.0.len()
    }

    fn diff(&self, other: &Point, i: usize) -> (r: i128)
        requires
            i < self@.len(),
            i < other@.len(),
        ensures
            r == self@[i as int] - other@[i as int],
    {
        self.0[i] as i128 - other.0[i] as i128
    }

    fn manhattan_dist(&self, other: &Point) -> (r: i128)
        requires
            self@.len() <= MAX_DIM,
        ensures
            r == manhattan(self@, other@, zip_len(self@, other@)),
    {
        let k = if self.dim() <= other.dim() { self.dim() } else { other.dim() };
        let mut total: i128 = 0;
        let mut i: usize = 0;
        while i < k
            invariant
                k == zip_len(self@, other@),
                k <= MAX_DIM,
                0 <= i <= k,
                total == manhattan(self@, other@, i as int),
            decreases k - i,
        {
            proof {
                lemma_sums_bounded(self@, other@, i as int + 1);
            }
            let d = self.diff(other, i);
            total = total + if d >= 0 { d } else { -d };
            i += 1;
        }
        total
    }

    fn euclidean_dist_squared(&self, other: &Point) -> (r: i128)
        requires
            self@.len() <= MAX_DIM,
        ensures
            r == squared(self@, other@, zip_len(self@, other@)),
    {
        let k = if self.dim() <= other.dim() { self.dim() } else { other.dim() };
        let mut total: i128 = 0;
        let mut i: usize = 0;
        while i < k
            invariant
                k == zip_len(self@, other@),
                k <= MAX_DIM,
                0 <= i <= k,
                total == squared(self@, other@, i as int),
            decreases k - i,
        {
            proof {
                lemma_sums_bounded(self@, other@, i as int + 1);
            }
            let d = self.diff(other, i);
            assert(d * d <= 0x1_0000_0000_0000_0000) by (nonlinear_arith)
                requires
                    -0x1_0000_0000 <= d <= 0x1_0000_0000,
            ;
            total = total + d * d;
            i += 1;
        }
        total
    }

    fn euclidean_dist(&self, other: &Point) -> (r: i128)
        requires
            self@.len() <= MAX_DIM,
        ensures
            r == floor_sqrt(squared(self@, other@, zip_len(self@, other@))),
    {
        let s = self.euclidean_dist_squared(other);
        proof {
            lemma_sums_bounded(self@, other@, zip_len(self@, other@));
        }
        isqrt(s as u128) as i128
    }

    fn max_dist(&self, other: &Point) -> (r: i128)
        ensures
            r == max_abs(self@, other@, zip_len(self@, other@)),
    {
        let k = if self.dim() <= other.dim() { self.dim() } else { other.dim() };
        let mut best: i128 = 0;
        let mut i: usize = 0;
        while i < k
            invariant
                k == zip_len(self@, other@),
                0 <= i <= k,
                best == max_abs(self@, other@, i as int),
            decreases k - i,
        {
            let d = self.diff(other, i);
            let a = if d >= 0 { d } else { -d };
            if a > best {
                best = a;
            }
            i += 1;
        }
        best
    }

    /// A distance that orders pairs as [`Point::dist`] does without a square
    /// root: the squared Euclidean distance for the Euclidean norm.
    pub fn comparable_dist(&self, other: &Point, norm: Norm) -> (r: Cost)
        requires
            self@.len() <= MAX_DIM,
        ensures
            norm != Norm::Euclidean ==> r.0 == norm_dist(self@, other@, norm),
            norm == Norm::Euclidean ==> r.0 == squared(self@, other@, zip_len(self@, other@)),
            norm == Norm::Euclidean ==> floor_sqrt(r.0 as int) == norm_dist(self@, other@, norm),
            norm != Norm::Euclidean ==> r.0 == metric_dist(self@, other@, Metric { norm, invert: false }),
    {
        match norm {
            Norm::Manhattan => Cost::new(self.manhattan_dist(other)),
            Norm::Euclidean => Cost::new(self.euclidean_dist_squared(other)),
            Norm::Max => Cost::new(self.max_dist(other)),
        }
    }

    /// The distance under `metric`.
    pub fn dist(&self, other: &Point, metric: Metric) -> (r: Cost)
        requires
            self@.len() <= MAX_DIM,
        ensures
            r.0 == metric_dist(self@, other@, metric),
            -0x100_0000_0000 <= r.0 <= 0x100_0000_0000,
    {
        proof {
            lemma_sums_bounded(self@, other@, zip_len(self@, other@));
            assert(zip_len(self@, other@) * 0x1_0000_0000 <= 0xFF_0000_0000) by (nonlinear_arith)
                requires
                    0 <= zip_len(self@, other@) <= 255,
            ;
            let s = squared(self@, other@, zip_len(self@, other@));
            assert(is_floor_sqrt(floor_sqrt(s), s)) by {
                let r = isqrt_witness(s);
            }
            let f = floor_sqrt(s);
            assert(f <= 0x100_0000_0000) by (nonlinear_arith)
                requires
                    0 <= f,
                    f * f <= s,
                    s <= 255 * 0x1_0000_0000_0000_0000,
            ;
        }
        let normed = match metric.norm {
            Norm::Manhattan => self.manhattan_dist(other),
            Norm::Euclidean => self.euclidean_dist(other),
            Norm::Max => self.max_dist(other),
        };
        if metric.invert {
            Cost::new(-normed)
        } else {
            Cost::new(normed)
        }
    }
}

/// Every square root exists: a witness for [`floor_sqrt`].
proof fn isqrt_witness(s: int) -> (r: int)
    requires
        0 <= s,
    ensures
        is_floor_sqrt(r, s),
    decreases s,
{
    if s == 0 {
        0
    } else {
        let q = isqrt_witness(s - 1);
        if (q + 1) * (q + 1) <= s {
            assert(s < ((q + 1) + 1) * ((q + 1) + 1)) by (nonlinear_arith)
                requires
                    s - 1 < (q + 1) * (q + 1),
                    q >= 0,
            ;
            q + 1
        } else {
            q
        }
    }
}

/// Every point has at most `MAX_DIM` coordinates.
pub open spec fn dims_in_range(points: Seq<Point>) -> bool {
    forall|i: int| 0 <= i < points.len() ==> (#[trigger] points[i])@.len() <= MAX_DIM
}

impl Graph {
    /// The distance matrix of `points` under `metric`.
    pub fn from_points(points: Vec<Point>, metric: Metric) -> (r: Graph)
        requires
            dims_in_range(points@),
        ensures
            r.wf(),
            r.weights().len() == points.len(),
            forall|i: int, j: int|
                0 <= i < points.len() && 0 <= j < points.len() ==> #[trigger] r.weights()[i][j]
                    == metric_dist(points@[i]@, points@[j]@, metric),
    {
        let n = points.len();
        let mut costs: Vec<Vec<i64>> = Vec::new();
        let mut i: usize = 0;
        while i < n
            invariant
                n == points.len(),
                dims_in_range(points@),
                0 <= i <= n,
                costs.len() == i,
                forall|a: int| 0 <= a < i ==> (#[trigger] costs@[a])@.len() == n,
                forall|a: int, b: int|
                    0 <= a < i && 0 <= b < n ==> #[trigger] costs@[a]@[b] == metric_dist(
                        points@[a]@,
                        points@[b]@,
                        metric,
                    ),
            decreases n - i,
        {
            let mut row: Vec<i64> = Vec::new();
            let mut j: usize = 0;
            while j < n
                invariant
                    n == points.len(),
                    dims_in_range(points@),
                    0 <= i < n,
                    0 <= j <= n,
                    row.len() == j,
                    forall|b: int| 0 <= b < j ==> #[trigger] row@[b] == metric_dist(points@[i as int]@, points@[b]@, metric),
                decreases n - j,
            {
                let d = points[i].dist(&points[j], metric);
                row.push(d.into_inner() as i64);
                j += 1;
            }
            costs.push(row);
            i += 1;
        }
        proof {
            assert(is_square(rows_view(costs@))) by {
                assert forall|a: int| 0 <= a < rows_view(costs@).len() implies (#[trigger] rows_view(costs@)[a]).len() == rows_view(costs@).len() by {
                    assert(rows_view(costs@)[a] == costs@[a]@);
                }
            }
        }
        match Graph::from_values(costs) {
            Some(g) => {
                assert forall|a: int, b: int| 0 <= a < n && 0 <= b < n implies #[trigger] g.weights()[a][b]
                    == metric_dist(points@[a]@, points@[b]@, metric) by {
                    assert(g.weights()[a] == costs@[a]@);
                }
                g
            },
            None => {
                assert(false);
                Graph::from_values(Vec::new()).unwrap()
            },
        }
    }
}

/// The weights of a graph built from points are symmetric and zero on the
/// diagonal.
pub proof fn lemma_from_points_symmetric(points: Seq<Point>, metric: Metric, w: Seq<Seq<i64>>)
    requires
        w.len() == points.len(),
        forall|i: int, j: int|
            0 <= i < points.len() && 0 <= j < points.len() ==> #[trigger] w[i][j] == metric_dist(
                points[i]@,
                points[j]@,
                metric,
            ),
    ensures
        forall|i: int, j: int| 0 <= i < w.len() && 0 <= j < w.len() ==> #[trigger] w[i][j] == w[j][i],
        forall|i: int| 0 <= i < w.len() ==> #[trigger] w[i][i] == 0,
{
    assert forall|i: int, j: int| 0 <= i < w.len() && 0 <= j < w.len() implies #[trigger] w[i][j] == w[j][i] by {
        lemma_metric_symmetric(points[i]@, points[j]@, metric);
    }
    assert forall|i: int| 0 <= i < w.len() implies #[trigger] w[i][i] == 0 by {
        lemma_metric_symmetric(points[i]@, points[i]@, metric);
        assert(w[i][i] == metric_dist(points[i]@, points[i]@, metric));
    }
}

/// The sum of the distances between consecutive points of `p`.
pub open spec fn points_cost(p: Seq<Point>, metric: Metric) -> int
    decreases p.len(),
{
    if p.len() < 2 {
        0
    } else {
        points_cost(p.drop_last(), metric) + metric_dist(p[p.len() - 2]@, p[p.len() - 1]@, metric)
    }
}

/// Every point has `dim` coordinates.
pub open spec fn all_of_dim(points: Seq<Point>, dim: u8) -> bool {
    forall|i: int| 0 <= i < points.len() ==> (#[trigger] points[i])@.len() == dim
}

fn check_dims(points: &Vec<Point>, dim: u8) -> (r: bool)
    ensures
        r == all_of_dim(points@, dim),
{
    let mut i: usize = 0;
    while i < points.len()
        invariant
            0 <= i <= points.len(),
            forall|k: int| 0 <= k < i ==> (#[trigger] points@[k])@.len() == dim,
        decreases points.len() - i,
    {
        if points[i].dim() != dim as usize {
            return false;
        }
        i += 1;
    }
    true
}

fn points_from_raw(values: Vec<Vec<i32>>) -> (r: Vec<Point>)
    ensures
        r.len() == values.len(),
        forall|i: int| 0 <= i < values.len() ==> (#[trigger] r@[i])@ == values@[i]@,
{
    let mut r: Vec<Point> = Vec::new();
    let mut i: usize = 0;
    while i < values.len()
        invariant
            0 <= i <= values.len(),
            r.len() == i,
            forall|k: int| 0 <= k < i ==> (#[trigger] r@[k])@ == values@[k]@,
        decreases values.len() - i,
    {
        r.push(Point::new(values[i].clone()));
        i += 1;
    }
    r
}

/// The edge between two points.
#[derive(Clone, Debug, PartialEq, Eq, Hash)]
pub struct Edge(pub Point, pub Point);

impl Edge {
    pub fn new(from: Point, to: Point) -> (r: Edge)
        ensures
            r.0 == from,
            r.1 == to,
    {
        Edge(from, to)
    }

    pub fn from_tuple(pair: (Point, Point)) -> (r: Edge)
        ensures
            r.0 == pair.0,
            r.1 == pair.1,
    {
        Edge(pair.0, pair.1)
    }
}

/// A path through points, all of one dimension.
#[derive(Clone, Debug)]
pub struct Path(pub Vec<Point>);

impl Path {
    /// The path through `values`; `None` when some point is not of
    /// dimension `dim`.
    pub fn try_new(values: Vec<Point>, dim: u8) -> (r: Option<Path>)
        ensures
            r is Some <==> all_of_dim(values@, dim),
            r matches Some(p) ==> p.0@ == values@,
    {
        if check_dims(&values, dim) {
            Some(Path(values))
        } else {
            None
        }
    }

    /// As [`Path::try_new`], from raw coordinates.
    pub fn try_new_raw(values: Vec<Vec<i32>>, dim: u8) -> (r: Option<Path>)
        ensures
            r is Some <==> forall|i: int| 0 <= i < values.len() ==> (#[trigger] values@[i])@.len() == dim,
            r matches Some(p) ==> p.0.len() == values.len(),
    {
        let points = points_from_raw(values);
        proof {
            assert(all_of_dim(points@, dim) <==> forall|i: int| 0 <= i < values.len() ==> (#[trigger] values@[i])@.len() == dim) by {
                if all_of_dim(points@, dim) {
                    assert forall|i: int| 0 <= i < values.len() implies (#[trigger] values@[i])@.len() == dim by {
                        assert(points@[i]@ == values@[i]@);
                    }
                }
                if forall|i: int| 0 <= i < values.len() ==> (#[trigger] values@[i])@.len() == dim {
                    assert forall|i: int| 0 <= i < points.len() implies (#[trigger] points@[i])@.len() == dim by {
                        assert(points@[i]@ == values@[i]@);
                    }
                }
            }
        }
        Path::try_new(points, dim)
    }

    pub fn into_inner(self) -> (r: Vec<Point>)
        ensures
            r@ == self.0@,
    {
        self.0
    }

    pub fn len(&self) -> (r: usize)
        ensures
            r == self.0.len(),
    {
        self.0.len()
    }

    /// The sum of the distances between consecutive points under `metric`.
    pub fn cost(&self, metric: Metric) -> (r: Cost)
        requires
            dims_in_range(self.0@),
        ensures
            r.0 == points_cost(self.0@, metric),
    {
        let n = self.0.len();
        if n < 2 {
            return Cost::new(0);
        }
        let mut total: i128 = 0;
        let mut i: usize = 1;
        assert(self.0@.take(1).len() == 1);
        while i < n
            invariant
                n == self.0.len(),
                dims_in_range(self.0@),
                1 <= i <= n,
                total == points_cost(self.0@.take(i as int), metric),
                -(i as int) * 0x100_0000_0000 <= total <= (i as int) * 0x100_0000_0000,
            decreases n - i,
        {
            let d = self.0[i - 1].dist(&self.0[i], metric);
            proof {
                let t = self.0@.take(i as int + 1);
                assert(t.drop_last() =~= self.0@.take(i as int));
                assert((i as int) * 0x100_0000_0000 + 0x100_0000_0000 <= 0x1_0000_0000_0000_0000 * 0x100_0000_0000);
            }
            total = total + d.into_inner();
            i += 1;
        }
        assert(self.0@.take(n as int) =~= self.0@);
        Cost::new(total)
    }

    /// The edges between consecutive points.
    pub fn into_edges(self) -> (r: Vec<Edge>)
        ensures
            r.len() == if self.0.len() == 0 { 0 } else { self.0.len() - 1 },
    {
        let mut r: Vec<Edge> = Vec::new();
        let n = self.0.len();
        let mut i: usize = 0;
        while i + 1 < n
            invariant
                n == self.0.len(),
                n >= 1 ==> i + 1 <= n,
                n == 0 ==> i == 0,
                r@.len() == i,
            decreases n - i,
        {
            r.push(Edge::new(self.0[i].clone(), self.0[i + 1].clone()));
            i += 1;
        }
        r
    }
}

/// A non-empty set of points of one dimension, in input order.
#[derive(Clone, Debug)]
pub struct Points(pub Vec<Point>);

impl Points {
    /// `None` when there are no points or one is not of dimension `dim`.
    pub fn try_new(points: Vec<Point>, dim: u8) -> (r: Option<Points>)
        ensures
            r is Some <==> points.len() > 0 && all_of_dim(points@, dim),
            r matches Some(p) ==> p.0@ == points@,
    {
        if points.len() > 0 && check_dims(&points, dim) {
            Some(Points(points))
        } else {
            None
        }
    }

    /// As [`Points::try_new`], from raw coordinates.
    pub fn try_new_raw(values: Vec<Vec<i32>>, dim: u8) -> (r: Option<Points>)
        ensures
            r is Some <==> values.len() > 0 && forall|i: int| 0 <= i < values.len() ==> (#[trigger] values@[i])@.len() == dim,
    {
        let points = points_from_raw(values);
        proof {
            if forall|i: int| 0 <= i < values.len() ==> (#[trigger] values@[i])@.len() == dim {
                assert forall|i: int| 0 <= i < points.len() implies (#[trigger] points@[i])@.len() == dim by {
                    assert(points@[i]@ == values@[i]@);
                }
            }
            if all_of_dim(points@, dim) {
                assert forall|i: int| 0 <= i < values.len() implies (#[trigger] values@[i])@.len() == dim by {
                    assert(points@[i]@ == values@[i]@);
                }
            }
        }
        Points::try_new(points, dim)
    }

    pub fn len(&self) -> (r: usize)
        ensures
            r == self.0.len(),
    {
        self.0.len()
    }

    /// The points in order.
    pub fn iter(&self) -> (r: &Vec<Point>)
        ensures
            r@ == self.0@,
    {
        &self.0
    }

    /// The path through the points in their order.
    pub fn into_path(self) -> (r: Path)
        ensures
            r.0@ == self.0@,
    {
        Path(self.0)
    }
}

} // verus!
