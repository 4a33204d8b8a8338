//! Verified algorithms for an algorithm-visualization server: five
//! instrumented integer sorts, constructions and improvements of Hamiltonian
//! paths over a fixed-point weight matrix, the geometry that builds such a
//! matrix from points, the constraint rows of an ILP construction, and the
//! pacing of the steps that the algorithms stream to a sink.

pub mod create;
pub mod dist_graph;
pub mod graph;
pub mod held_karp;
pub mod ilp;
pub mod improve;
pub mod integer_sort;
pub mod matrix;
pub mod path;
pub mod scalar;
pub mod step;
pub mod typed;
pub mod util;
