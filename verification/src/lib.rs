//! Exact linear-extension counting for finite posets via order-polytope
//! volumes: a DAG resolution engine rewrites a covering-relation graph into a
//! nested-integral specification, and an exact-rational polynomial engine
//! evaluates it.

pub mod frac;
pub mod generator_matrix;
pub mod integral;
pub mod integrator;
pub mod maths;
pub mod parser;
pub mod rat;
pub mod resolution;
pub mod resolution_using_hashmap;
pub mod resolution_using_lists;
pub mod transitive_reduction;
