use algoviz::graph::{isqrt, Cost, Edge, Weight};
use algoviz::matrix::{Graph, Matrix};
use algoviz::path::Path;
use algoviz::scalar::HashScalar;
use algoviz::step::{send_delay, Highlight, PathCreation, PathImprovement, SortedNumbers, Step};
use algoviz::util::{factorial, saturating_factorial};
use std::cmp::Ordering;
use std::collections::hash_map::DefaultHasher;
use std::hash::{Hash, Hasher};

fn hs(x: f32) -> HashScalar {
    HashScalar::new(x.to_bits())
}

#[test]
fn total_order_on_floats() {
    let nan = hs(f32::NAN);
    assert!(nan == hs(f32::NAN));
    assert_eq!(nan.total_cmp(&hs(f32::NAN)), Ordering::Equal);
    assert_eq!(hs(-1.0).total_cmp(&hs(1.0)), Ordering::Less);
    assert_eq!(hs(-0.0).total_cmp(&hs(0.0)), Ordering::Less);
    assert_eq!(hs(2.5).total_cmp(&hs(1.5)), Ordering::Greater);
    assert_eq!(hs(f32::INFINITY).total_cmp(&nan), Ordering::Less);
    assert_eq!(hs(f32::NEG_INFINITY).total_cmp(&hs(-1.0e30)), Ordering::Less);
    assert!(hs(0.0) != hs(-0.0));
    assert_eq!(hs(3.0).into_inner(), 3.0f32.to_bits());
    let mut values: Vec<f32> = vec![3.0, -2.0, 0.5, -0.0, 0.0, f32::INFINITY, -7.25];
    let mut by_key = values.clone();
    by_key.sort_by(|a, b| hs(*a).total_cmp(&hs(*b)));
    values.sort_by(|a, b| a.total_cmp(b));
    assert_eq!(
        by_key.iter().map(|v| v.to_bits()).collect::<Vec<_>>(),
        values.iter().map(|v| v.to_bits()).collect::<Vec<_>>()
    );
}

#[test]
fn hash_follows_bits() {
    let h = |x: HashScalar| {
        let mut s = DefaultHasher::new();
        x.hash(&mut s);
        s.finish()
    };
    assert_eq!(h(hs(f32::NAN)), h(hs(f32::NAN)));
    assert_eq!(h(hs(1.25)), h(hs(1.25)));
}

#[test]
fn pacing_waits_only_for_relevant_steps() {
    assert_eq!(send_delay(100, 1_000, 1_030, true), 70);
    assert_eq!(send_delay(100, 1_000, 1_100, true), 0);
    assert_eq!(send_delay(100, 1_000, 1_500, true), 0);
    assert_eq!(send_delay(100, 1_000, 1_030, false), 0);
    assert_eq!(send_delay(100, 1_000, 990, true), 110);
    let mut clock: u128 = 0;
    let mut last: u128 = 0;
    let mut total: u128 = 0;
    for _ in 0..10 {
        let wait = send_delay(100, last, clock, true) as u128;
        clock += wait;
        total += wait;
        last = clock;
    }
    assert!(total >= 900);
}

#[test]
fn square_roots_round_down() {
    assert_eq!(isqrt(0), 0);
    assert_eq!(isqrt(15), 3);
    assert_eq!(isqrt(16), 4);
    assert_eq!(isqrt(u128::MAX), u64::MAX);
    assert_eq!(Cost::new(26).sqrt(), Cost(5));
    assert_eq!(Weight::new(-4).into_inner(), -4);
    assert_eq!(Cost::new(9).into_inner(), 9);
    assert_eq!(Edge::new(1, 2), Edge(1, 2));
}

#[test]
fn factorials() {
    assert_eq!(factorial(0), 1);
    assert_eq!(factorial(5), 120);
    assert_eq!(factorial(20), 2_432_902_008_176_640_000);
    assert_eq!(saturating_factorial(5), 120);
    assert_eq!(saturating_factorial(40), usize::MAX);
}

fn m(rows: Vec<Vec<i64>>) -> Matrix {
    Matrix::new(rows).unwrap()
}

#[test]
fn matrix_shape_and_entries() {
    assert!(Matrix::new(vec![vec![1, 2], vec![3]]).is_none());
    assert!(Matrix::new(vec![]).is_some());
    let a = m(vec![vec![0, 1, 2], vec![3, 4, 5], vec![6, 7, 8]]);
    assert_eq!(a.dim(), 3);
    assert_eq!(a.get(1, 2), 5);
    assert_eq!(a.max(), 8);
    assert!(!a.is_logical());
    assert!(m(vec![vec![0, 1], vec![1, 0]]).is_logical());
    let r = a.clone().rotate_left(1);
    assert_eq!(r.into_inner(), vec![vec![4, 5, 3], vec![7, 8, 6], vec![1, 2, 0]]);
    assert_eq!(a.scale(-2).into_inner(), vec![vec![0, -2, -4], vec![-6, -8, -10], vec![-12, -14, -16]]);
}

#[test]
fn rotation_keeps_path_cost_under_relabelling() {
    let g = Graph::from_values(vec![vec![0, 4, 9, 1], vec![2, 0, 6, 3], vec![5, 8, 0, 7], vec![1, 2, 3, 0]]).unwrap();
    let path = vec![2usize, 0, 3, 1];
    let cost = g.dist_path(&path);
    let k = 3usize;
    let n = 4usize;
    let rotated = g.rotate_left(k);
    let relabelled: Vec<usize> = path.iter().map(|&v| (v + n - k) % n).collect();
    assert_eq!(rotated.dist_path(&relabelled), cost);
    assert_eq!(cost, 5 + 1 + 2);
}

#[test]
fn graph_weights_and_path_weight() {
    let g = Graph::from_values(vec![vec![0, 3], vec![4, 0]]).unwrap();
    assert_eq!(g.size(), 2);
    assert_eq!(g.weight(1, 0), Weight(4));
    assert_eq!(g.path_weight(&Path::new(vec![0, 1, 0])), Cost(7));
    assert!(Graph::from_values(vec![vec![1]; 2]).is_none());
}

#[test]
fn path_operations() {
    let p = Path::new(vec![4, 1, 3, 0]);
    assert_eq!(p.len(), 4);
    assert_eq!(p.iter(), vec![4, 1, 3, 0]);
    assert_eq!(p.slice(1, 3).0, vec![1, 3]);
    assert_eq!(p.clone().into_slice(2, 4).0, vec![3, 0]);
    assert_eq!(p.clone().rev().0, vec![0, 3, 1, 4]);
    assert_eq!(p.clone().concat(&Path::new(vec![9])).0, vec![4, 1, 3, 0, 9]);
    let mut q = p.clone();
    q.swap(0, 3);
    assert_eq!(q.0, vec![0, 1, 3, 4]);
    q.rotate_left(1);
    assert_eq!(q.0, vec![1, 3, 4, 0]);
    q.insert(2, 7);
    q.push(8);
    assert_eq!(q.0, vec![1, 3, 7, 4, 0, 8]);
    assert_eq!(p.into_edges(), vec![Edge(4, 1), Edge(1, 3), Edge(3, 0)]);
    assert_eq!(Path::with_capacity(3).len(), 0);
}

#[test]
fn step_builders() {
    let s = SortedNumbers::new(&vec![3, 1])
        .highlight(0, Highlight::Compare)
        .highlight(0, Highlight::Swap)
        .consider(1, 2)
        .done();
    assert!(s.done);
    assert_eq!(s.numbers, vec![3, 1]);
    assert_eq!(s.highlight.last(), Some(&(1, Highlight::Consider)));
    assert_eq!(s.highlight[1], (0, Highlight::Swap));
    let improvement = PathImprovement::from_path(Path::new(vec![0, 1])).not_better();
    assert!(!Step::PathImprovement(improvement.clone()).relevant_information());
    let finished = improvement.done();
    assert!(finished.done && !finished.better);
    let creation = PathCreation::done(Path::new(vec![2, 0, 1]));
    assert_eq!(creation.current_edges, vec![Edge(2, 0), Edge(0, 1)]);
    assert_eq!(creation.done_path.unwrap().0, vec![2, 0, 1]);
    assert!(Step::PathCreation(PathCreation::from_edges(vec![])).relevant_information());
}
