//! A genetic-algorithm engine for the traveling-salesman problem.
//!
//! Candidate tours are permutations of the node indices `0..n`. The
//! [`distance_mat`] module scores a tour against a symmetric distance
//! table; [`route`] holds one candidate tour and its permutation-preserving
//! genetic operators (ordered crossover and swap mutation); [`routes`]
//! drives the generational loop of selection, reproduction, mutation and
//! replacement; [`subsequence`] is the span helper that crossover builds
//! on, and [`rng`] is the seedable pseudo-random source behind every draw.

pub mod distance_mat;
pub mod rng;
pub mod route;
pub mod routes;
pub mod subsequence;
