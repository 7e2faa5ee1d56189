//! Error and outcome types: fatal configuration errors, puzzle-text input
//! errors, and the expected "no solution this generation" outcome.

use vstd::prelude::*;

verus! {

use crate::sudoku::Board;

/// Why a puzzle text was rejected.
#[derive(Debug, Clone, Copy, PartialEq, Eq, Structural)]
pub enum ParseError {
    /// The text does not hold exactly N lines.
    InvalidRows,
    /// Some line does not hold exactly N digits.
    InvalidColumns,
    /// Some line holds a character that is not a decimal digit.
    InvalidChar,
}

/// Why a run's configuration was rejected before any generation ran.
#[derive(Debug, Clone, Copy, PartialEq, Eq, Structural)]
pub enum ConfigError {
    /// The requested population exceeds the hard cap.
    PopulationTooLarge,
    /// The selection fraction leaves no parent pair to breed from.
    NoParentPairs,
    /// The board side is not one of the sizes box scoring supports.
    UnsupportedGridSize,
}

/// The expected per-generation outcome when no candidate solved the puzzle:
/// not a failure, but the signal that carries the population to try next.
#[derive(Debug)]
pub struct NoSolutionFound {
    /// The population for the next generation.
    pub next_generation: Vec<Board>,
}

} // verus!
