//! Str8ts: parsing boards, solving them by backtracking, with a SAT solver or
//! like a human (rating each step), and generating puzzles of a given
//! difficulty.
use vstd::prelude::*;

pub mod backtrack;
pub mod basic;
pub mod board;
pub mod describe;
pub mod generator;
pub mod candidates;
pub mod guess;
pub mod hardness;
pub mod hopcroft_karp;
pub mod human;
pub mod marks;
pub mod mask;
pub mod moves;
pub mod order;
pub mod random;
pub mod render;
pub mod sat;
pub mod sets;
pub mod setti;
pub mod text;

verus! {
} // verus!
