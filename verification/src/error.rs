//! The failures of the engine's operations. A halt of the modelled machine is
//! no failure: it is an outcome.

use vstd::prelude::*;

verus! {

/// A failure of an operation, which leaves the committed state as it was.
/// `E` is the error of the storage backend.
#[derive(PartialEq, Debug)]
pub enum Error<E> {
    /// The outcome was not among those last offered for the execution.
    AppliedOutcomeNotOffered,
    /// The execution has halted.
    AlreadyHalted,
    /// The solver could tell neither that a query is satisfiable nor that it
    /// is not.
    SolverInconclusive,
    /// The storage backend failed.
    Storage(E),
}

} // verus!
