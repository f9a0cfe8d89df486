//! The ways in which building a graph or a grid can be refused.
use vstd::prelude::*;

verus! {

/// A construction step that was refused; the structure is left unchanged.
#[derive(Debug, Clone, Copy, PartialEq, Eq, Structural)]
pub enum ValidationError {
    /// An edge did not hold exactly `expected` names.
    Arity { expected: usize, actual: usize },
    /// A row did not hold exactly `expected` cells.
    RowLength { expected: usize, actual: usize },
}

} // verus!
