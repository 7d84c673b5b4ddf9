//! The marker of a valid jump target. It does nothing but cost gas.

use crate::error::Error;
use crate::execution::Execution;
use crate::ops::{can_afford, can_run_dry, offer_if};
use crate::outcome::{Halt, Offset, Outcome, OutcomeBuffer, Run};
use crate::query::{feasible, satisfiable};
use crate::smt::{holds, solver_models, Model};
use crate::storage::Storage;
use crate::word::GasRemaining;
use vstd::prelude::*;

verus! {

/// The jump-target instruction.
#[derive(Clone, Copy, PartialEq, Eq, Debug)]
pub struct JumpDest;

/// The gas that a jump target costs.
pub const GAS_COST: u64 = 1;

/// The outcomes that a jump target offers on a path whose models are `path`:
/// running out of gas if the gas can be short of the cost, then
/// falling through if it can cover it.
pub open spec fn offered(path: Set<Model>, gas: GasRemaining) -> Seq<Outcome> {
    offer_if(can_run_dry(path, gas, GAS_COST), Outcome::Halt(Halt::OutOfGas)) + offer_if(
        can_afford(path, gas, GAS_COST),
        Outcome::Run(Run::Advance),
    )
}

/// The models for which `outcome` stands.
pub open spec fn region(outcome: Outcome, gas: GasRemaining, m: Model) -> bool {
    match outcome {
        Outcome::Halt(Halt::OutOfGas) => gas.value(m) < GAS_COST,
        Outcome::Run(Run::Advance) => gas.value(m) >= GAS_COST,
        _ => false,
    }
}

impl JumpDest {
    /// Enumerates what attempting the instruction can lead to on the path
    /// that `solver` holds. It fails only where the solver leaves a query
    /// undecided.
    pub fn outcomes<S: Storage>(&self, solver: &z3::Solver, execution: &Execution<S>) -> (result:
        Result<OutcomeBuffer, Error<S::Error>>)
        ensures
            result matches Ok(buffer) ==> buffer@ == offered(
                solver_models(*solver),
                execution.gas_remaining,
            ),
            result matches Err(error) ==> error == Error::<S::Error>::SolverInconclusive,
    {
        let ghost path = solver_models(*solver);
        let ghost gas = execution.gas_remaining;
        let mut outcomes = OutcomeBuffer::new();
        let short = execution.gas_remaining.falls_short_of(GAS_COST);
        let dry = feasible(solver, &short)?;
        proof {
            if satisfiable(path, short) {
                let m = choose|m: Model| #[trigger] path.contains(m) && holds(short, m);
                assert(path.contains(m) && gas.value(m) < GAS_COST);
            }
            if can_run_dry(path, gas, GAS_COST) {
                let m = choose|m: Model| #[trigger] path.contains(m) && gas.value(m) < GAS_COST;
                assert(path.contains(m) && holds(short, m));
            }
        }
        if dry {
            outcomes.push(Outcome::Halt(Halt::OutOfGas));
        }
        let covers = execution.gas_remaining.covers(GAS_COST);
        let affordable = feasible(solver, &covers)?;
        proof {
            if satisfiable(path, covers) {
                let m = choose|m: Model| #[trigger] path.contains(m) && holds(covers, m);
                assert(path.contains(m) && gas.value(m) >= GAS_COST);
            }
            if can_afford(path, gas, GAS_COST) {
                let m = choose|m: Model| #[trigger] path.contains(m) && gas.value(m) >= GAS_COST;
                assert(path.contains(m) && holds(covers, m));
            }
        }
        if affordable {
            outcomes.push(Outcome::Run(Run::Advance));
        }
        proof {
            assert(outcomes@ =~= offered(path, gas));
        }
        Ok(outcomes)
    }

    /// Commits the fall-through: charges the cost and moves on to the next
    /// instruction. Nothing is asserted.
    pub fn execute<S: Storage>(&self, execution: &mut Execution<S>) -> (result: Result<
        (),
        Error<S::Error>,
    >)
        requires
            old(execution).pc.0 < u64::MAX,
        ensures
            result == Ok::<(), Error<S::Error>>(()),
            final(execution).stack == old(execution).stack,
            forall|m: Model| #[trigger]
                final(execution).gas_remaining.value(m) == old(execution).gas_remaining.value(m)
                    - GAS_COST,
            final(execution).pc == Offset((old(execution).pc.0 + 1) as u64),
            final(execution).halted == old(execution).halted,
            final(execution).storage == old(execution).storage,
    {
        execution.gas_remaining.deduct(GAS_COST);
        execution.pc = Offset(execution.pc.0 + 1);
        Ok(())
    }
}

} // verus!
