use algoviz::create::{
    brute_force, check_permutation, greedy, insertion, nearest_neighbor, node_indices,
    optimal_nearest_neighbor, random, transmute,
};
use algoviz::dist_graph::{Metric, Norm, Path as PointPath, Point, Points};
use algoviz::held_karp::held_karp;
use algoviz::ilp::{base_rows, cycle_rows, cycle_to_edges, cycle_to_edges_symmetric, edges_to_paths, needs_more_cuts};
use algoviz::improve::{inner_rotate, rotate, swap, three_opt, two_opt, PathImproveContext};
use algoviz::matrix::Graph;
use algoviz::path::Path;
use algoviz::step::{Step, StepLog};
use algoviz::typed::{PathCreateMethod, PathImproveMethod, RunError};

const UNIT: i32 = 1000;


fn points(coords: &[(i32, i32)]) -> Vec<Point> {
    coords.iter().map(|&(x, y)| Point::new(vec![x * UNIT, y * UNIT])).collect()
}

fn euclid() -> Metric {
    Metric { norm: Norm::Euclidean, invert: false }
}

fn is_perm(p: &Path, n: usize) -> bool {
    let mut seen = vec![false; n];
    p.0.len() == n && p.0.iter().all(|&v| v < n && !std::mem::replace(&mut seen[v], true))
}

fn sample_graph() -> Graph {
    Graph::from_values(vec![
        vec![0, 7, 3, 9, 4, 6],
        vec![7, 0, 5, 2, 8, 1],
        vec![3, 5, 0, 6, 2, 9],
        vec![9, 2, 6, 0, 7, 3],
        vec![4, 8, 2, 7, 0, 5],
        vec![6, 1, 9, 3, 5, 0],
    ])
    .unwrap()
}

#[test]
fn nearest_neighbor_on_unit_square() {
    let g = Graph::from_points(points(&[(0, 0), (0, 1), (1, 1), (1, 0)]), euclid());
    let mut r = StepLog::new();
    let p = nearest_neighbor(&g, &mut r);
    assert_eq!(p.0, vec![0, 1, 2, 3]);
    assert_eq!(g.dist_path(&p.0), 3000);
    assert_eq!(r.steps.len(), 3);
}

#[test]
fn held_karp_agrees_with_brute_force() {
    let g = Graph::from_points(points(&[(0, 0), (2, 0), (2, 3), (5, 3), (5, 0)]), euclid());
    let mut r = StepLog::new();
    let hk = held_karp(&g, &mut r);
    let bf = brute_force(&g, &mut r);
    assert!(is_perm(&hk, 5) && is_perm(&bf, 5));
    assert_eq!(g.dist_path(&hk.0), g.dist_path(&bf.0));
    assert_eq!(g.dist_path(&bf.0), 11000);
    let s = sample_graph();
    assert_eq!(s.dist_path(&held_karp(&s, &mut r).0), s.dist_path(&brute_force(&s, &mut r).0));
}

#[test]
fn greedy_builds_one_path_without_cycles() {
    let g = Graph::from_values(vec![
        vec![0, 1, 10, 10],
        vec![1, 0, 10, 10],
        vec![10, 10, 0, 1],
        vec![10, 10, 1, 0],
    ])
    .unwrap();
    let mut r = StepLog::new();
    let p = greedy(&g, &mut r);
    assert!(p.0 == vec![0, 1, 2, 3] || p.0 == vec![0, 1, 3, 2], "{:?}", p.0);
    assert_eq!(p.len(), 4);
    let s = sample_graph();
    assert!(is_perm(&greedy(&s, &mut r), 6));
}

#[test]
fn constructions_return_permutations() {
    let g = sample_graph();
    let mut r = StepLog::new();
    assert_eq!(transmute(&g).0, vec![0, 1, 2, 3, 4, 5]);
    assert!(is_perm(&random(&g), 6));
    assert!(is_perm(&nearest_neighbor(&g, &mut r), 6));
    assert!(is_perm(&optimal_nearest_neighbor(&g, &mut r), 6));
    assert!(is_perm(&brute_force(&g, &mut r), 6));
    assert!(is_perm(&greedy(&g, &mut r), 6));
    assert!(is_perm(&insertion(&g, &mut r), 6));
    assert!(is_perm(&held_karp(&g, &mut r), 6));
    let empty = Graph::from_values(vec![]).unwrap();
    assert_eq!(nearest_neighbor(&empty, &mut r).len(), 0);
    assert_eq!(insertion(&empty, &mut r).len(), 0);
    assert_eq!(greedy(&empty, &mut r).len(), 0);
    let single = Graph::from_values(vec![vec![0]]).unwrap();
    assert_eq!(held_karp(&single, &mut r).0, vec![0]);
    assert_eq!(brute_force(&single, &mut r).0, vec![0]);
}

#[test]
fn optimal_nearest_neighbor_is_no_worse_than_from_zero() {
    let g = sample_graph();
    let mut r = StepLog::new();
    let from_zero = nearest_neighbor(&g, &mut r);
    let best = optimal_nearest_neighbor(&g, &mut r);
    assert!(g.dist_path(&best.0) <= g.dist_path(&from_zero.0));
}

#[test]
fn cheapest_insertion_on_a_line() {
    let g = Graph::from_points(points(&[(0, 0), (3, 0), (1, 0), (2, 0)]), euclid());
    let mut r = StepLog::new();
    let p = insertion(&g, &mut r);
    assert_eq!(g.dist_path(&p.0), 3000);
    assert_eq!(p.0, vec![1, 3, 2, 0]);
}

#[test]
fn check_permutation_decides() {
    assert!(check_permutation(&vec![2, 0, 1], 3));
    assert!(!check_permutation(&vec![2, 2, 1], 3));
    assert!(!check_permutation(&vec![0, 3, 1], 3));
    assert!(!check_permutation(&vec![0, 1], 3));
    assert_eq!(node_indices(3), vec![0, 1, 2]);
}

fn collinear() -> Graph {
    Graph::from_points(points(&[(0, 0), (1, 0), (2, 0), (3, 0)]), euclid())
}

fn ctx(g: Graph, start: Vec<usize>, prefer_step: bool) -> PathImproveContext {
    PathImproveContext { graph: g, path: Path::new(start), prefer_step }
}

#[test]
fn two_opt_converges_and_is_idempotent() {
    let mut r = StepLog::new();
    let first = two_opt(&ctx(collinear(), vec![0, 2, 1, 3], false), &mut r);
    assert_eq!(first.0, vec![0, 1, 2, 3]);
    assert_eq!(collinear().dist_path(&first.0), 3000);
    let second = two_opt(&ctx(collinear(), first.0.clone(), false), &mut r);
    assert_eq!(second.0, first.0);
    let s = sample_graph();
    let once = two_opt(&ctx(s.clone(), vec![5, 4, 3, 2, 1, 0], false), &mut r);
    let twice = two_opt(&ctx(s, once.0.clone(), false), &mut r);
    assert_eq!(once.0, twice.0);
}

#[test]
fn improvements_never_get_worse() {
    let s = sample_graph();
    let start = vec![3, 0, 5, 2, 4, 1];
    let start_cost = s.dist_path(&start);
    let mut r = StepLog::new();
    for prefer_step in [false, true] {
        let c = ctx(s.clone(), start.clone(), prefer_step);
        for p in [
            rotate(&c, &mut r),
            swap(&c, &mut r),
            two_opt(&c, &mut r),
            three_opt(&c, &mut r),
            inner_rotate(&c, &mut r),
        ] {
            assert!(is_perm(&p, 6));
            assert!(s.dist_path(&p.0) <= start_cost);
        }
    }
    let c = ctx(s.clone(), start.clone(), false);
    assert!(s.dist_path(&swap(&c, &mut r).0) < start_cost);
    assert!(PathImproveMethod::SimulatedAnnealing.implementation(&c, &mut r).is_none());
    let improved = PathImproveMethod::ThreeOpt.implementation(&c, &mut r).unwrap();
    assert!(s.dist_path(&improved.0) <= start_cost);
}

#[test]
fn prefer_step_makes_one_move() {
    let mut r = StepLog::new();
    let one = two_opt(&ctx(collinear(), vec![3, 1, 0, 2], true), &mut r);
    let all = two_opt(&ctx(collinear(), vec![3, 1, 0, 2], false), &mut r);
    assert!(collinear().dist_path(&one.0) >= collinear().dist_path(&all.0));
    assert!(collinear().dist_path(&one.0) < collinear().dist_path(&vec![3, 1, 0, 2]));
}

#[test]
fn dispatch_reports_what_it_cannot_run() {
    let mut r = StepLog::new();
    let g = sample_graph();
    assert_eq!(PathCreateMethod::Ilp.implementation(&g, &mut r).unwrap_err(), RunError::NeedsSolver);
    let big = Graph::from_values(vec![vec![1; 32]; 32]).unwrap();
    assert_eq!(PathCreateMethod::HeldKarp.implementation(&big, &mut r).unwrap_err(), RunError::TooManyVertices);
    let p = PathCreateMethod::Greedy
        .dist_implementation(points(&[(0, 0), (0, 1), (1, 1)]), euclid(), &mut r)
        .unwrap();
    assert!(is_perm(&p, 3));
    let q = PathImproveMethod::TwoOpt
        .dist_implementation(points(&[(0, 0), (2, 0), (1, 0)]), euclid(), false, &mut r)
        .unwrap();
    assert_eq!(q.0, vec![0, 2, 1]);
}

#[test]
fn distances_under_each_norm() {
    let a = Point::new(vec![0, 0]);
    let b = Point::new(vec![3000, -4000]);
    let m = |norm, invert| Metric { norm, invert };
    assert_eq!(a.dist(&b, m(Norm::Manhattan, false)).0, 7000);
    assert_eq!(a.dist(&b, m(Norm::Euclidean, false)).0, 5000);
    assert_eq!(a.dist(&b, m(Norm::Max, false)).0, 4000);
    assert_eq!(a.dist(&b, m(Norm::Euclidean, true)).0, -5000);
    assert_eq!(a.comparable_dist(&b, Norm::Euclidean).0, 25_000_000);
    assert_eq!(a.dist(&Point::new(vec![]), m(Norm::Max, false)).0, 0);
    assert_eq!(Point::new(vec![1, 1]).dist(&Point::new(vec![2, 2]), m(Norm::Euclidean, false)).0, 1);
}

#[test]
fn graph_from_points_is_symmetric() {
    for invert in [false, true] {
        for norm in [Norm::Manhattan, Norm::Euclidean, Norm::Max] {
            let pts = vec![Point::new(vec![1, 9, -4]), Point::new(vec![7, 0, 2]), Point::new(vec![-3, 5, 5])];
            let g = Graph::from_points(pts, Metric { norm, invert });
            for i in 0..3 {
                assert_eq!(g.dist(i, i), 0);
                for j in 0..3 {
                    assert_eq!(g.dist(i, j), g.dist(j, i));
                }
            }
        }
    }
}

#[test]
fn point_paths_and_sets() {
    assert!(PointPath::try_new(vec![Point::new(vec![1, 2]), Point::new(vec![3])], 2).is_none());
    let p = PointPath::try_new_raw(vec![vec![0, 0], vec![3, 4], vec![3, 0]], 2).unwrap();
    assert_eq!(p.len(), 3);
    assert_eq!(p.cost(euclid()).0, 9);
    assert_eq!(p.clone().into_edges().len(), 2);
    assert_eq!(p.into_inner()[1], Point::new(vec![3, 4]));
    assert!(Points::try_new(vec![], 2).is_none());
    assert!(Points::try_new_raw(vec![vec![1]], 2).is_none());
    let s = Points::try_new_raw(vec![vec![1, 1]], 2).unwrap();
    assert_eq!(s.len(), 1);
    assert_eq!(s.iter()[0].dim(), 2);
    assert_eq!(s.into_path().len(), 1);
}

#[test]
fn stitching_edges_into_paths() {
    assert_eq!(edges_to_paths(&vec![(0, 1), (1, 2), (3, 4)]), vec![vec![0, 1, 2], vec![3, 4]]);
    assert_eq!(edges_to_paths(&vec![(0, 1), (1, 2), (2, 0)]), vec![vec![2, 0, 1, 2]]);
    assert_eq!(edges_to_paths(&vec![(2, 3), (0, 1), (1, 2)]), vec![vec![0, 1, 2, 3]]);
    assert!(edges_to_paths(&vec![]).is_empty());
}

#[test]
fn cycle_edges_and_rows() {
    assert_eq!(cycle_to_edges(&vec![0, 1, 2]), vec![(0, 1), (1, 2), (2, 0)]);
    assert_eq!(cycle_to_edges_symmetric(&vec![0, 1]), vec![(0, 1), (1, 0), (1, 0), (0, 1)]);
    let rows = cycle_rows(&vec![vec![2, 0, 1, 2], vec![3, 4]], 5);
    assert_eq!(rows.len(), 1);
    assert_eq!(rows[0].upper, Some(2));
    assert_eq!(rows[0].terms.len(), 12);
    let long = cycle_rows(&vec![vec![0, 1, 2, 3, 0]], 6);
    assert_eq!(long.len(), 2);
    assert_eq!(long[1].lower, Some(1));
    assert_eq!(long[1].terms.len(), 4 * 2 * 2);
    let base = base_rows(3);
    assert_eq!(base.len(), 3 * 3 + 6 + 1);
    assert_eq!(base.last().unwrap().upper, Some(2));
    assert_eq!(base[0].terms, vec![(0, 0), (0, 1), (0, 2)]);
}

#[test]
fn random_reorders_the_vertices() {
    let g = Graph::from_values(vec![vec![0; 10]; 10]).unwrap();
    let identity: Vec<usize> = (0..10).collect();
    let mut moved = false;
    for _ in 0..3 {
        let p = random(&g);
        assert!(is_perm(&p, 10));
        moved |= p.0 != identity;
    }
    assert!(moved);
}

#[test]
fn greedy_takes_the_lightest_edge_first() {
    let mut rows = vec![vec![10i64; 4]; 4];
    for i in 0..4 {
        rows[i][i] = 0;
    }
    rows[3][0] = 1;
    let g = Graph::from_values(rows).unwrap();
    let mut r = StepLog::new();
    assert_eq!(greedy(&g, &mut r).0, vec![3, 0, 1, 2]);
    let edges_sent = r
        .steps
        .iter()
        .filter_map(|s| match s {
            Step::PathCreation(c) => Some(c.current_edges.len()),
            _ => None,
        })
        .collect::<Vec<_>>();
    assert_eq!(edges_sent, vec![1, 2, 3]);
}

#[test]
fn brute_force_finds_the_cheapest_order() {
    let g = sample_graph();
    let mut r = StepLog::new();
    let best = brute_force(&g, &mut r);
    let mut cheapest = i128::MAX;
    let mut order: Vec<usize> = (0..6).collect();
    fn permute(k: usize, order: &mut Vec<usize>, g: &Graph, cheapest: &mut i128) {
        if k == order.len() {
            *cheapest = (*cheapest).min(g.dist_path(order));
            return;
        }
        for i in k..order.len() {
            order.swap(k, i);
            permute(k + 1, order, g, cheapest);
            order.swap(k, i);
        }
    }
    permute(0, &mut order, &g, &mut cheapest);
    assert_eq!(g.dist_path(&best.0), cheapest);
    assert_eq!(g.dist_path(&held_karp(&g, &mut r).0), cheapest);
}

#[test]
fn subtour_loop_stops_on_one_open_path() {
    assert!(!needs_more_cuts(&vec![vec![0, 1, 2]]));
    assert!(needs_more_cuts(&vec![vec![0, 1], vec![2, 3]]));
    assert!(needs_more_cuts(&vec![vec![2, 0, 1, 2]]));
    assert!(!needs_more_cuts(&vec![]));
}

#[test]
fn improvements_keep_first_vertex_for_two_opt() {
    let mut r = StepLog::new();
    let p = two_opt(&ctx(collinear(), vec![0, 3, 1, 2], false), &mut r);
    assert_eq!(p.0[0], 0);
    let q = three_opt(&ctx(collinear(), vec![3, 1, 0, 2], false), &mut r);
    assert_eq!(q.0, vec![3, 1, 0, 2]);
}
