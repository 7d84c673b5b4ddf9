//! The two-phase protocol of the instructions: `outcomes` enumerates, without
//! committing anything, what attempting the instruction can lead to, and
//! `execute` commits one of the runs that were offered. The set of
//! instructions is closed, and both phases dispatch over it.

pub mod jumpdest;
pub mod jumpi;
pub mod stop;

use crate::error::Error;
use crate::execution::Execution;
use crate::ops::jumpdest::JumpDest;
use crate::ops::jumpi::JumpI;
use crate::ops::stop::Stop;
use crate::outcome::{Halt, Offset, Outcome, OutcomeBuffer, Run};
use crate::program::{JumpDestinations, Op};
use crate::smt::{solver_models, solver_saved, Model};
use crate::storage::Storage;
use crate::word::{GasRemaining, Word};
use vstd::prelude::*;

verus! {

/// Whether the gas is short of `cost` under some model of `path`.
pub open spec fn can_run_dry(path: Set<Model>, gas: GasRemaining, cost: u64) -> bool {
    exists|m: Model| #[trigger] path.contains(m) && gas.value(m) < cost
}

/// Whether the gas covers `cost` under some model of `path`.
pub open spec fn can_afford(path: Set<Model>, gas: GasRemaining, cost: u64) -> bool {
    exists|m: Model| #[trigger] path.contains(m) && gas.value(m) >= cost
}

/// `outcome` alone if `offered` holds, else nothing.
pub open spec fn offer_if(offered: bool, outcome: Outcome) -> Seq<Outcome> {
    if offered {
        seq![outcome]
    } else {
        Seq::empty()
    }
}

/// Where a run leaves the program counter: a jump at its target, the
/// fall-through at the next instruction.
pub open spec fn successor(run: Run, pc: Offset) -> Offset {
    match run {
        Run::Jump(target) => target,
        Run::Advance => Offset((pc.0 + 1) as u64),
    }
}

impl Op {
    /// The outcomes that the instruction offers, in order, on a path whose
    /// models are `path`.
    pub open spec fn offered(
        self,
        path: Set<Model>,
        gas: GasRemaining,
        stack: Seq<Word>,
        table: Seq<Offset>,
    ) -> Seq<Outcome> {
        match self {
            Op::JumpI => jumpi::offered(path, gas, stack, table),
            Op::JumpDest => jumpdest::offered(path, gas),
            Op::Stop => stop::offered(),
        }
    }

    /// The gas that the instruction costs.
    pub open spec fn cost(self) -> u64 {
        match self {
            Op::JumpI => jumpi::GAS_COST,
            Op::JumpDest => jumpdest::GAS_COST,
            Op::Stop => 0,
        }
    }

    /// The number of words that the instruction takes off the stack.
    pub open spec fn pops(self) -> nat {
        match self {
            Op::JumpI => 2,
            Op::JumpDest => 0,
            Op::Stop => 0,
        }
    }

    /// Whether enumerating the instruction's outcomes on `stack` takes a
    /// query to the solver.
    pub open spec fn asks_solver(self, stack: Seq<Word>) -> bool {
        match self {
            Op::JumpI => stack.len() >= 2,
            Op::JumpDest => true,
            Op::Stop => false,
        }
    }

    /// Whether the instruction can be committed as `run` on `stack`.
    pub open spec fn accepts(self, run: Run, stack: Seq<Word>) -> bool {
        match self {
            Op::JumpI => stack.len() >= 2,
            Op::JumpDest => run == Run::Advance,
            Op::Stop => false,
        }
    }

    /// What committing `run` asserts of the models.
    pub open spec fn commitment(self, run: Run, stack: Seq<Word>, m: Model) -> bool {
        match self {
            Op::JumpI => jumpi::commitment(run, stack, m),
            Op::JumpDest => true,
            Op::Stop => true,
        }
    }

    /// The models for which `outcome` stands: the concrete instantiations of
    /// the symbolic inputs under which attempting the instruction leads to
    /// it.
    pub open spec fn region(
        self,
        outcome: Outcome,
        gas: GasRemaining,
        stack: Seq<Word>,
        table: Seq<Offset>,
        m: Model,
    ) -> bool {
        match self {
            Op::JumpI => jumpi::region(outcome, gas, stack, table, m),
            Op::JumpDest => jumpdest::region(outcome, gas, m),
            Op::Stop => outcome == Outcome::Halt(Halt::Stop),
        }
    }

    /// Enumerates what attempting the instruction can lead to on the path
    /// that `solver` holds. Nothing is committed: the solver ends with the
    /// assertions and the backtracking points that it came with, also where
    /// the enumeration fails. It fails only where the solver leaves a query
    /// undecided, and so never where it takes no query.
    pub fn outcomes<S: Storage>(
        &self,
        solver: &mut z3::Solver,
        execution: &Execution<S>,
        destinations: &JumpDestinations,
    ) -> (result: Result<OutcomeBuffer, Error<S::Error>>)
        ensures
            solver_models(*final(solver)) == solver_models(*old(solver)),
            solver_saved(*final(solver)) == solver_saved(*old(solver)),
            result matches Ok(buffer) ==> buffer@ == self.offered(
                solver_models(*old(solver)),
                execution.gas_remaining,
                execution.stack@,
                destinations@,
            ),
            result matches Err(error) ==> error == Error::<S::Error>::SolverInconclusive,
            !self.asks_solver(execution.stack@) ==> result is Ok,
    {
        match self {
            Op::JumpI => JumpI.outcomes(solver, execution, destinations),
            Op::JumpDest => JumpDest.outcomes(solver, execution),
            Op::Stop => Ok(Stop.outcomes()),
        }
    }

    /// Commits a run that was offered: takes the instruction's operands off
    /// the stack, charges its cost, asserts what the run says, and moves the
    /// program counter. It trusts that the run was found feasible and asks
    /// the solver nothing.
    pub fn execute<S: Storage>(
        &self,
        solver: &mut z3::Solver,
        run: Run,
        execution: &mut Execution<S>,
    ) -> (result: Result<(), Error<S::Error>>)
        requires
            old(execution).wf(),
            self.accepts(run, old(execution).stack@),
            old(execution).pc.0 < u64::MAX,
        ensures
            result == Ok::<(), Error<S::Error>>(()),
            final(execution).wf(),
            final(execution).stack@ == old(execution).stack@.take(
                old(execution).stack@.len() - self.pops(),
            ),
            forall|m: Model| #[trigger]
                final(execution).gas_remaining.value(m) == old(execution).gas_remaining.value(m)
                    - self.cost(),
            final(execution).pc == successor(run, old(execution).pc),
            final(execution).halted == old(execution).halted,
            final(execution).storage == old(execution).storage,
            solver_models(*final(solver)) == Set::new(
                |m: Model|
                    solver_models(*old(solver)).contains(m) && self.commitment(
                        run,
                        old(execution).stack@,
                        m,
                    ),
            ),
            solver_saved(*final(solver)) == solver_saved(*old(solver)),
            forall|m: Model| #[trigger]
                solver_models(*final(solver)).contains(m) ==> self.commitment(
                    run,
                    old(execution).stack@,
                    m,
                ),
    {
        let ghost path = solver_models(*solver);
        let ghost stack = execution.stack@;
        match self {
            Op::JumpI => JumpI.execute(solver, run, execution),
            Op::JumpDest => {
                proof {
                    assert(stack.take(stack.len() - 0) =~= stack);
                    assert(path =~= Set::new(
                        |m: Model| path.contains(m) && self.commitment(run, stack, m),
                    ));
                }
                JumpDest.execute(execution)
            },
            Op::Stop => Ok(()),
        }
    }
}

} // verus!
