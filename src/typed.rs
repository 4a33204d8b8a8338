use vstd::prelude::*;
use crate::create;
use crate::dist_graph::{dims_in_range, Metric, Point};
use crate::create::nearest_walk;
use crate::graph::{cheapest_order, is_permutation};
use crate::held_karp::held_karp;
use crate::improve::{self, no_worse, two_opt_outcome, PathImproveContext};
use crate::integer_sort::{self, sorts};
use crate::matrix::Graph;
use crate::path::Path;
use crate::step::StepSink;

verus! {

/// The sorts a client can ask for.
#[derive(Clone, Copy, Debug, PartialEq, Eq, Structural)]
pub enum IntegerSortAlgorithm {
    Bubble,
    Selection,
    Insertion,
    Merge,
    Quick,
}

impl IntegerSortAlgorithm {
    /// Runs the sort on `numbers`, sending its snapshots to `sink`.
    pub fn implementation<S: StepSink>(self, numbers: Vec<i64>, sink: &mut S) -> (r: Vec<i64>)
        ensures
            sorts(numbers@, r@),
    {
        match self {
            IntegerSortAlgorithm::Bubble => integer_sort::bubble(numbers, sink),
            IntegerSortAlgorithm::Insertion => integer_sort::insertion(numbers, sink),
            IntegerSortAlgorithm::Selection => integer_sort::selection(numbers, sink),
            IntegerSortAlgorithm::Merge => integer_sort::merge(numbers, sink),
            IntegerSortAlgorithm::Quick => integer_sort::quick(numbers, sink),
        }
    }
}

/// Why a construction did not run here.
#[derive(Clone, Copy, Debug, PartialEq, Eq, Structural)]
pub enum RunError {
    /// Held–Karp takes fewer than 32 vertices.
    TooManyVertices,
    /// The ILP construction needs the MILP solver, which the caller runs.
    NeedsSolver,
}

/// The ways to build a path.
#[derive(Clone, Copy, Debug, PartialEq, Eq, Structural)]
pub enum PathCreateMethod {
    Transmute,
    Random,
    NearestNeighbor,
    OptimalNearestNeighbor,
    BruteForce,
    Greedy,
    HeldKarp,
    Ilp,
    Insertion,
}

/// The largest number of vertices Held–Karp takes, plus one.
pub const HELD_KARP_LIMIT: usize = 32;

impl PathCreateMethod {
    /// Runs the construction on `graph`.
    pub fn implementation<S: StepSink>(self, graph: &Graph, sink: &mut S) -> (r: Result<Path, RunError>)
        requires
            graph.wf(),
        ensures
            r matches Ok(p) ==> is_permutation(p@, graph.weights().len()),
            r == Err::<Path, RunError>(RunError::NeedsSolver) <==> self == PathCreateMethod::Ilp,
            r == Err::<Path, RunError>(RunError::TooManyVertices) <==> (self == PathCreateMethod::HeldKarp
                && graph.weights().len() >= HELD_KARP_LIMIT),
            self == PathCreateMethod::HeldKarp ==> (r matches Ok(p) ==> cheapest_order(graph.weights(), p@)),
            self == PathCreateMethod::NearestNeighbor ==> (r matches Ok(p) ==> nearest_walk(graph.weights(), p@)),
    {
        match self {
            PathCreateMethod::Transmute => Ok(create::transmute(graph)),
            PathCreateMethod::Random => Ok(create::random(graph)),
            PathCreateMethod::NearestNeighbor => Ok(create::nearest_neighbor(graph, sink)),
            PathCreateMethod::OptimalNearestNeighbor => Ok(create::optimal_nearest_neighbor(graph, sink)),
            PathCreateMethod::BruteForce => Ok(create::brute_force(graph, sink)),
            PathCreateMethod::Greedy => Ok(create::greedy(graph, sink)),
            PathCreateMethod::HeldKarp => {
                if graph.size() >= HELD_KARP_LIMIT {
                    Err(RunError::TooManyVertices)
                } else {
                    Ok(held_karp(graph, sink))
                }
            },
            PathCreateMethod::Ilp => Err(RunError::NeedsSolver),
            PathCreateMethod::Insertion => Ok(create::insertion(graph, sink)),
        }
    }

    /// Runs the construction on the distances between `points`.
    pub fn dist_implementation<S: StepSink>(self, points: Vec<Point>, metric: Metric, sink: &mut S) -> (r:
        Result<Path, RunError>)
        requires
            dims_in_range(points@),
        ensures
            r matches Ok(p) ==> is_permutation(p@, points.len() as nat),
            r == Err::<Path, RunError>(RunError::NeedsSolver) <==> self == PathCreateMethod::Ilp,
            r == Err::<Path, RunError>(RunError::TooManyVertices) <==> (self == PathCreateMethod::HeldKarp
                && points.len() >= HELD_KARP_LIMIT),
    {
        let graph = Graph::from_points(points, metric);
        self.implementation(&graph, sink)
    }
}

/// The ways to improve a path.
#[derive(Clone, Copy, Debug, PartialEq, Eq, Structural)]
pub enum PathImproveMethod {
    Rotate,
    Swap,
    TwoOpt,
    ThreeOpt,
    InnerRotate,
    SimulatedAnnealing,
}

impl PathImproveMethod {
    /// Runs the improvement from the context's start path; `None` for
    /// simulated annealing, which draws random numbers and works in floating
    /// point, and so runs outside this library.
    pub fn implementation<S: StepSink>(self, ctx: &PathImproveContext, sink: &mut S) -> (r: Option<Path>)
        requires
            ctx.wf(),
        ensures
            r is None <==> self == PathImproveMethod::SimulatedAnnealing,
            r matches Some(p) ==> no_worse(ctx.graph.weights(), ctx.path@, p@),
            self == PathImproveMethod::TwoOpt ==> (r matches Some(p) && two_opt_outcome(
                ctx.graph.weights(),
                ctx.path@,
                ctx.prefer_step,
                p@,
            )),
    {
        match self {
            PathImproveMethod::Rotate => Some(improve::rotate(ctx, sink)),
            PathImproveMethod::InnerRotate => Some(improve::inner_rotate(ctx, sink)),
            PathImproveMethod::TwoOpt => Some(improve::two_opt(ctx, sink)),
            PathImproveMethod::ThreeOpt => Some(improve::three_opt(ctx, sink)),
            PathImproveMethod::Swap => Some(improve::swap(ctx, sink)),
            PathImproveMethod::SimulatedAnnealing => None,
        }
    }

    /// Runs the improvement on the distances between `points`, from the path
    /// that visits them in order.
    pub fn dist_implementation<S: StepSink>(
        self,
        points: Vec<Point>,
        metric: Metric,
        prefer_step: bool,
        sink: &mut S,
    ) -> (r: Option<Path>)
        requires
            dims_in_range(points@),
        ensures
            r is None <==> self == PathImproveMethod::SimulatedAnnealing,
            r matches Some(p) ==> is_permutation(p@, points.len() as nat),
    {
        let n = points.len();
        let graph = Graph::from_points(points, metric);
        let start = create::node_indices(n);
        let ctx = PathImproveContext { graph, path: Path::new(start), prefer_step };
        let r = self.implementation(&ctx, sink);
        proof {
            if r is Some {
                crate::graph::lemma_reordered_permutation(ctx.path@, r->Some_0@, n as nat);
            }
        }
        r
    }
}

/// What goes wrong with a message from a client.
#[derive(Clone, Debug)]
pub enum Error {
    /// A binary frame arrived where text was expected.
    BinaryData,
    /// The text did not decode.
    Serde { original: String, error: String },
    /// A decoded request could not be run (say, points of another
    /// dimension, a matrix that is not square, or too many vertices).
    Request { message: String },
}

} // verus!
