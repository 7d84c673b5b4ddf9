//! Feasibility queries: what a solver's answer means for the enumeration.

use crate::error::Error;
use crate::smt::{holds, solver_check, solver_check_assuming, solver_models, Answer, Model};
use vstd::prelude::*;

verus! {

/// Whether some model of `models` makes `term` true.
pub open spec fn satisfiable(models: Set<Model>, term: z3::ast::Bool) -> bool {
    exists|m: Model| #[trigger] models.contains(m) && holds(term, m)
}

/// Whether `models` holds a model at all.
pub open spec fn inhabited(models: Set<Model>) -> bool {
    exists|m: Model| #[trigger] models.contains(m)
}

/// What a solver's answer means: a satisfiable query is feasible, an
/// unsatisfiable one is not, and an answer of `Unknown` is a failure of its
/// own, never taken for either.
pub fn decide<E>(answer: Answer) -> (result: Result<bool, Error<E>>)
    ensures
        answer == Answer::Sat ==> result == Ok::<bool, Error<E>>(true),
        answer == Answer::Unsat ==> result == Ok::<bool, Error<E>>(false),
        answer == Answer::Unknown ==> result == Err::<bool, Error<E>>(Error::SolverInconclusive),
{
    match answer {
        Answer::Sat => Ok(true),
        Answer::Unsat => Ok(false),
        Answer::Unknown => Err(Error::SolverInconclusive),
    }
}

/// Asks whether the solver's assertions can hold together with
/// `assumption`. The assertions stay as they are.
pub fn feasible<E>(solver: &z3::Solver, assumption: &z3::ast::Bool) -> (result: Result<
    bool,
    Error<E>,
>)
    ensures
        result matches Ok(found) ==> found == satisfiable(solver_models(*solver), *assumption),
        result matches Err(error) ==> error == Error::<E>::SolverInconclusive,
{
    decide(solver_check_assuming(solver, assumption))
}

/// Asks whether the solver's assertions can hold together.
pub fn consistent<E>(solver: &z3::Solver) -> (result: Result<bool, Error<E>>)
    ensures
        result matches Ok(found) ==> found == inhabited(solver_models(*solver)),
        result matches Err(error) ==> error == Error::<E>::SolverInconclusive,
{
    decide(solver_check(solver))
}

} // verus!
