//! The error values that the solver and the codecs surface.
use vstd::prelude::*;

use crate::calc::Cell;

verus! {

/// A digit was assigned to a cell that cannot take it: the cell already holds
/// a different digit, the digit was already excluded from its candidates, or
/// the propagation emptied a peer's candidate set.
#[derive(Debug, Clone)]
pub struct ContradicoryAssignmentError {
    pub target: Cell,
    pub attempted_val: u8,
    pub solved_val: Option<u8>,
}

/// No assignment completes the grid.
#[derive(Debug, Clone)]
pub struct UnsolvableError {}

/// The given string could not be read as a puzzle.
#[derive(Debug, Clone)]
pub struct InvalidPuzzleError {}

/// A uniqueness proof was requested and a second distinct solution was found.
#[derive(Debug, Clone)]
pub struct NonUniqueError {}

} // verus!
