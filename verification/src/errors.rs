//! What can go wrong while a graph is built.

use vstd::prelude::*;

verus! {

/// Errors of the graph builder and of the views that are made from its graphs.
#[derive(Debug, PartialEq, Eq)]
pub enum Error {
    /// The clock or the reset signal is not declared where it is expected.
    ClockNotFoundError,
    /// No variable is declared at this dotted path.
    VariableNotFoundError(String),
    /// The requested statement or signal does not occur in the graph.
    StatementLookupError(String),
    /// The trace is not a valid value change dump; the text says why.
    TraceError(String),
    /// Something was asked for before what it is made from was there; the text says what.
    StateError(String),
}

} // verus!
