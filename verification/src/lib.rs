//! Solvers for a series of daily puzzles, each with its own small data model.
//!
//! The centre of the library is the cheapest-path search of [`puzzles::d17`]:
//! a best-first search over a grid of entry costs, under one of two rules that
//! limit how long the mover may keep its direction.
use vstd::prelude::*;

pub mod chance;
pub mod config;
pub mod days;
pub mod frontier;
pub mod grids;
pub mod hashing;
pub mod names;
pub mod numbers;
pub mod patterns;
pub mod puzzles;
pub mod sorting;
pub mod text;

verus! {

} // verus!
