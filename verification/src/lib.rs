//! Verified solvers for a collection of small text puzzles.
//!
//! Each day module parses its own line-oriented input format and computes
//! integer answers.  The day 10 module is the core of the crate: a machine
//! description grammar and two verified shortest-press searches.

use vstd::prelude::*;

pub mod day01;
pub mod day02;
pub mod day03;
pub mod day04;
pub mod day05;
pub mod day06;
pub mod day07;
pub mod day08;
pub mod day09;
pub mod day10;
pub mod scan;

verus! {

/// A solver either cannot read its input, or the input admits no answer
/// that the solver can report.
#[derive(Clone, Copy, Debug, PartialEq, Eq, Structural)]
pub enum Error {
    /// The input text does not match the expected grammar.
    ParseError,
    /// No sequence of moves reaches the goal, or the answer does not fit
    /// in the 64-bit result.
    UnsolvableError,
}

} // verus!
