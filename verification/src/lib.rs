//! A genetic-algorithm Sudoku solver: an N x N grid model with legality
//! scoring, and an evolution engine (selection, pairing, crossover with
//! mutation, optional restarts) that breeds candidate grids toward a
//! zero-violation solution of a fixed base puzzle.

use vstd::prelude::*;

pub mod errors;
pub mod genetics;
pub mod sudoku;

verus! {

use crate::sudoku::Row;

/// The cells of the "AI Escargot" puzzle, a famously hard 9 x 9 instance
/// shipped as a built-in base grid (0 marks a blank cell).
pub open spec fn al_escargot_spec() -> Seq<Seq<u8>> {
    seq![
        seq![1u8, 0, 0, 0, 0, 7, 0, 9, 0],
        seq![0u8, 3, 0, 0, 2, 0, 0, 0, 8],
        seq![0u8, 0, 9, 6, 0, 0, 5, 0, 0],
        seq![0u8, 0, 5, 3, 0, 0, 9, 0, 0],
        seq![0u8, 1, 0, 0, 8, 0, 0, 0, 2],
        seq![6u8, 0, 0, 0, 0, 4, 0, 0, 0],
        seq![3u8, 0, 0, 0, 0, 0, 0, 1, 0],
        seq![0u8, 4, 0, 0, 0, 0, 0, 0, 7],
        seq![0u8, 0, 7, 0, 0, 0, 3, 0, 0],
    ]
}

/// The cells of a second hard built-in 9 x 9 puzzle.
pub open spec fn al_escargot_2_spec() -> Seq<Seq<u8>> {
    seq![
        seq![0u8, 0, 5, 3, 0, 0, 0, 0, 0],
        seq![8u8, 0, 0, 0, 0, 0, 0, 2, 0],
        seq![0u8, 7, 0, 0, 1, 0, 5, 0, 0],
        seq![4u8, 0, 0, 0, 0, 5, 3, 0, 0],
        seq![0u8, 1, 0, 0, 7, 0, 0, 0, 6],
        seq![0u8, 0, 3, 2, 0, 0, 0, 8, 0],
        seq![0u8, 6, 0, 5, 0, 0, 0, 0, 9],
        seq![0u8, 0, 4, 0, 0, 0, 0, 3, 0],
        seq![0u8, 0, 0, 0, 0, 9, 7, 0, 0],
    ]
}

/// The rows of the built-in "AI Escargot" puzzle.
pub fn al_escargot() -> (r: Vec<Row>)
    ensures
        r@.map_values(|row: Row| row@) == al_escargot_spec(),
{
    let rows = vec![
        Row(vec![1u8, 0, 0, 0, 0, 7, 0, 9, 0]),
        Row(vec![0u8, 3, 0, 0, 2, 0, 0, 0, 8]),
        Row(vec![0u8, 0, 9, 6, 0, 0, 5, 0, 0]),
        Row(vec![0u8, 0, 5, 3, 0, 0, 9, 0, 0]),
        Row(vec![0u8, 1, 0, 0, 8, 0, 0, 0, 2]),
        Row(vec![6u8, 0, 0, 0, 0, 4, 0, 0, 0]),
        Row(vec![3u8, 0, 0, 0, 0, 0, 0, 1, 0]),
        Row(vec![0u8, 4, 0, 0, 0, 0, 0, 0, 7]),
        Row(vec![0u8, 0, 7, 0, 0, 0, 3, 0, 0]),
    ];
    proof {
        assert(rows@.map_values(|row: Row| row@) =~= al_escargot_spec()) by {
            assert(forall|i: int|
                0 <= i < 9 ==> rows@.map_values(|row: Row| row@)[i] =~= al_escargot_spec()[i]);
        }
    }
    rows
}

/// The rows of the second built-in puzzle.
pub fn al_escargot_2() -> (r: Vec<Row>)
    ensures
        r@.map_values(|row: Row| row@) == al_escargot_2_spec(),
{
    let rows = vec![
        Row(vec![0u8, 0, 5, 3, 0, 0, 0, 0, 0]),
        Row(vec![8u8, 0, 0, 0, 0, 0, 0, 2, 0]),
        Row(vec![0u8, 7, 0, 0, 1, 0, 5, 0, 0]),
        Row(vec![4u8, 0, 0, 0, 0, 5, 3, 0, 0]),
        Row(vec![0u8, 1, 0, 0, 7, 0, 0, 0, 6]),
        Row(vec![0u8, 0, 3, 2, 0, 0, 0, 8, 0]),
        Row(vec![0u8, 6, 0, 5, 0, 0, 0, 0, 9]),
        Row(vec![0u8, 0, 4, 0, 0, 0, 0, 3, 0]),
        Row(vec![0u8, 0, 0, 0, 0, 9, 7, 0, 0]),
    ];
    proof {
        assert(rows@.map_values(|row: Row| row@) =~= al_escargot_2_spec()) by {
            assert(forall|i: int|
                0 <= i < 9 ==> rows@.map_values(|row: Row| row@)[i] =~= al_escargot_2_spec()[i]);
        }
    }
    rows
}

} // verus!
