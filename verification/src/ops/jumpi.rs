//! The conditional jump. It takes the condition from the top of the stack and
//! the destination from below it, and jumps to the destination unless the
//! condition is zero.

use crate::error::Error;
use crate::execution::Execution;
use crate::ops::{can_afford, can_run_dry, offer_if};
use crate::outcome::{Halt, Offset, Outcome, OutcomeBuffer, Run};
use crate::program::JumpDestinations;
use crate::query::{consistent, feasible, inhabited, satisfiable};
use crate::smt::{
    bool_and, bool_literal, bool_not, holds, narrowed, solver_assert, solver_models, solver_pop,
    solver_push, solver_saved, Model,
};
use crate::storage::Storage;
use crate::word::{GasRemaining, Word};
use vstd::prelude::*;

verus! {

/// The conditional jump instruction.
#[derive(Clone, Copy, PartialEq, Eq, Debug)]
pub struct JumpI;

/// The gas that a conditional jump costs.
pub const GAS_COST: u64 = 10;

/// The condition: the word on top of the stack.
pub open spec fn condition(stack: Seq<Word>) -> Word
    recommends
        stack.len() >= 2,
{
    stack[stack.len() - 1]
}

/// The destination: the word below the condition.
pub open spec fn destination(stack: Seq<Word>) -> Word
    recommends
        stack.len() >= 2,
{
    stack[stack.len() - 2]
}

/// Whether, under `m`, the condition is zero, so that no jump is taken.
pub open spec fn falls_through(stack: Seq<Word>, m: Model) -> bool {
    condition(stack).value(m) == 0
}

/// Whether, under `m`, the word `destination` is the offset `target`.
pub open spec fn lands_on(destination: Word, target: Offset, m: Model) -> bool {
    destination.value(m) == target.0
}

/// Whether, under `m`, the word `destination` is none of `targets`.
pub open spec fn misses(destination: Word, targets: Seq<Offset>, m: Model) -> bool {
    forall|i: int| 0 <= i < targets.len() ==> !lands_on(destination, #[trigger] targets[i], m)
}

/// The models of `path` under which the jump is taken.
pub open spec fn jumping(path: Set<Model>, stack: Seq<Word>) -> Set<Model> {
    Set::new(|m: Model| path.contains(m) && !falls_through(stack, m))
}

/// Whether `destination` is `target` under some model of `scope`.
pub open spec fn can_land(scope: Set<Model>, destination: Word, target: Offset) -> bool {
    exists|m: Model| #[trigger] scope.contains(m) && lands_on(destination, target, m)
}

/// Whether `destination` is none of `targets` under some model of `scope`.
pub open spec fn can_miss(scope: Set<Model>, destination: Word, targets: Seq<Offset>) -> bool {
    exists|m: Model| #[trigger] scope.contains(m) && misses(destination, targets, m)
}

/// Whether the condition is zero under some model of `path`.
pub open spec fn can_fall_through(path: Set<Model>, stack: Seq<Word>) -> bool {
    exists|m: Model| #[trigger] path.contains(m) && falls_through(stack, m)
}

/// Those of `table` that `destination` can be under a model of `scope`, in
/// the order of `table`.
pub open spec fn reachable_targets(
    scope: Set<Model>,
    destination: Word,
    table: Seq<Offset>,
) -> Seq<Offset>
    decreases table.len(),
{
    if table.len() == 0 {
        Seq::empty()
    } else if can_land(scope, destination, table.last()) {
        reachable_targets(scope, destination, table.drop_last()).push(table.last())
    } else {
        reachable_targets(scope, destination, table.drop_last())
    }
}

/// A jump to each of `targets`, in their order.
pub open spec fn jumps(targets: Seq<Offset>) -> Seq<Outcome> {
    Seq::new(targets.len(), |i: int| Outcome::Run(Run::Jump(targets[i])))
}

/// The outcomes of a conditional jump where the gas covers its cost: an
/// invalid destination if the jump can miss every valid target, then a jump
/// to each valid target that the destination can be, ascending, then the
/// fall-through if the condition can be zero.
pub open spec fn branches(path: Set<Model>, stack: Seq<Word>, table: Seq<Offset>) -> Seq<
    Outcome,
> {
    let scope = jumping(path, stack);
    let target = destination(stack);
    offer_if(can_miss(scope, target, table), Outcome::Halt(Halt::InvalidJumpDest)) + jumps(
        reachable_targets(scope, target, table),
    ) + offer_if(can_fall_through(path, stack), Outcome::Run(Run::Advance))
}

/// The outcomes that a conditional jump offers on a path whose models are
/// `path`, in order. A stack of fewer than two words underflows, and nothing
/// else is looked at. Otherwise running out of gas is offered if the gas can
/// be short of the cost, and the branches are offered if it can cover it:
/// the two are independent.
pub open spec fn offered(
    path: Set<Model>,
    gas: GasRemaining,
    stack: Seq<Word>,
    table: Seq<Offset>,
) -> Seq<Outcome> {
    if stack.len() < 2 {
        seq![Outcome::Halt(Halt::StackUnderflow)]
    } else {
        offer_if(can_run_dry(path, gas, GAS_COST), Outcome::Halt(Halt::OutOfGas)) + (if can_afford(
            path,
            gas,
            GAS_COST,
        ) {
            branches(path, stack, table)
        } else {
            Seq::empty()
        })
    }
}

/// What committing `run` asserts of the models: for a jump, that the
/// condition is not zero and the destination is the target; for the
/// fall-through, that the condition is zero.
pub open spec fn commitment(run: Run, stack: Seq<Word>, m: Model) -> bool {
    match run {
        Run::Jump(target) => !falls_through(stack, m) && lands_on(destination(stack), target, m),
        Run::Advance => falls_through(stack, m),
    }
}

/// The models for which `outcome` stands: the concrete instantiations of the
/// symbolic inputs under which attempting the jump leads to it.
pub open spec fn region(
    outcome: Outcome,
    gas: GasRemaining,
    stack: Seq<Word>,
    table: Seq<Offset>,
    m: Model,
) -> bool {
    match outcome {
        Outcome::Halt(Halt::StackUnderflow) => stack.len() < 2,
        Outcome::Halt(Halt::OutOfGas) => stack.len() >= 2 && gas.value(m) < GAS_COST,
        Outcome::Halt(Halt::InvalidJumpDest) => {
            &&& stack.len() >= 2
            &&& gas.value(m) >= GAS_COST
            &&& !falls_through(stack, m)
            &&& misses(destination(stack), table, m)
        },
        Outcome::Run(Run::Jump(target)) => {
            &&& stack.len() >= 2
            &&& gas.value(m) >= GAS_COST
            &&& !falls_through(stack, m)
            &&& table.contains(target)
            &&& lands_on(destination(stack), target, m)
        },
        Outcome::Run(Run::Advance) => {
            &&& stack.len() >= 2
            &&& gas.value(m) >= GAS_COST
            &&& falls_through(stack, m)
        },
        _ => false,
    }
}

/// A target is reachable exactly if it is in the table and the destination
/// can be it.
pub proof fn lemma_reachable_targets(scope: Set<Model>, destination: Word, table: Seq<Offset>)
    ensures
        forall|target: Offset| #[trigger]
            reachable_targets(scope, destination, table).contains(target) <==> table.contains(
                target,
            ) && can_land(scope, destination, target),
    decreases table.len(),
{
    let reached = reachable_targets(scope, destination, table);
    if table.len() > 0 {
        let shorter = table.drop_last();
        let before = reachable_targets(scope, destination, shorter);
        lemma_reachable_targets(scope, destination, shorter);
        assert forall|target: Offset| #[trigger]
            reached.contains(target) <==> table.contains(target) && can_land(
                scope,
                destination,
                target,
            ) by {
            let known = before.contains(target) <==> shorter.contains(target) && can_land(
                scope,
                destination,
                target,
            );
            assert(known);
            if reached.contains(target) {
                let i = choose|i: int| 0 <= i < reached.len() && reached[i] == target;
                if i < before.len() {
                    assert(before[i] == target);
                    assert(before.contains(target));
                    let j = choose|j: int| 0 <= j < shorter.len() && shorter[j] == target;
                    assert(table[j] == target);
                } else {
                    assert(target == table.last());
                    assert(table[table.len() - 1] == target);
                }
            }
            if table.contains(target) && can_land(scope, destination, target) {
                let j = choose|j: int| 0 <= j < table.len() && table[j] == target;
                if j < shorter.len() {
                    assert(shorter[j] == target);
                    assert(shorter.contains(target));
                    assert(before.contains(target));
                    let i = choose|i: int| 0 <= i < before.len() && before[i] == target;
                    assert(reached[i] == target);
                } else {
                    assert(reached[reached.len() - 1] == target);
                }
            }
        }
    }
}

/// Without a model in scope no target is reachable.
proof fn lemma_nothing_reachable(scope: Set<Model>, destination: Word, table: Seq<Offset>)
    requires
        !inhabited(scope),
    ensures
        reachable_targets(scope, destination, table) == Seq::<Offset>::empty(),
        !can_miss(scope, destination, table),
    decreases table.len(),
{
    if table.len() > 0 {
        lemma_nothing_reachable(scope, destination, table.drop_last());
    }
}

/// Under a model of `scope`, missing the reachable targets is missing the
/// whole table.
proof fn lemma_misses_reachable(
    scope: Set<Model>,
    destination: Word,
    table: Seq<Offset>,
    m: Model,
)
    requires
        scope.contains(m),
    ensures
        misses(destination, reachable_targets(scope, destination, table), m) <==> misses(
            destination,
            table,
            m,
        ),
{
    let reached = reachable_targets(scope, destination, table);
    lemma_reachable_targets(scope, destination, table);
    if misses(destination, reached, m) {
        assert forall|i: int| 0 <= i < table.len() implies !lands_on(
            destination,
            #[trigger] table[i],
            m,
        ) by {
            if lands_on(destination, table[i], m) {
                assert(table.contains(table[i]));
                assert(can_land(scope, destination, table[i]));
                assert(reached.contains(table[i]));
                let j = choose|j: int| 0 <= j < reached.len() && reached[j] == table[i];
                assert(!lands_on(destination, reached[j], m));
            }
        }
    }
    if misses(destination, table, m) {
        assert forall|i: int| 0 <= i < reached.len() implies !lands_on(
            destination,
            #[trigger] reached[i],
            m,
        ) by {
            assert(reached.contains(reached[i]));
            assert(table.contains(reached[i]));
            let j = choose|j: int| 0 <= j < table.len() && table[j] == reached[i];
            assert(!lands_on(destination, table[j], m));
        }
    }
}

/// Within the models that the solver holds, finds the valid targets that
/// `destination` can be, and whether it can be none of them.
fn scan_targets<E>(
    solver: &z3::Solver,
    destination: &Word,
    destinations: &JumpDestinations,
) -> (result: Result<(bool, Vec<Offset>), Error<E>>)
    ensures
        result matches Ok(scan) ==> scan.0 == can_miss(
            solver_models(*solver),
            *destination,
            destinations@,
        ) && scan.1@ == reachable_targets(solver_models(*solver), *destination, destinations@),
        result matches Err(error) ==> error == Error::<E>::SolverInconclusive,
{
    let ghost scope = solver_models(*solver);
    let ghost table = destinations@;
    let mut targets: Vec<Offset> = Vec::new();
    if !consistent(solver)? {
        proof {
            lemma_nothing_reachable(scope, *destination, table);
        }
        return Ok((false, targets));
    }
    let mut none = bool_literal(true);
    let len = destinations.len();
    let mut index: usize = 0;
    while index < len
        invariant
            scope == solver_models(*solver),
            table == destinations@,
            len == table.len(),
            index <= len,
            targets@ == reachable_targets(scope, *destination, table.take(index as int)),
            forall|m: Model| #[trigger] holds(none, m) == misses(*destination, targets@, m),
        decreases len - index,
    {
        let target = destinations.at(index);
        let literal = Word::from_u64(target.0);
        let lands = destination.equals(&literal);
        let found = feasible(solver, &lands)?;
        proof {
            assert(table.take(index + 1).drop_last() =~= table.take(index as int));
            assert(table.take(index + 1).last() == target);
            if satisfiable(scope, lands) {
                let m = choose|m: Model| #[trigger] scope.contains(m) && holds(lands, m);
                assert(scope.contains(m) && lands_on(*destination, target, m));
            }
            if can_land(scope, *destination, target) {
                let m = choose|m: Model| #[trigger]
                    scope.contains(m) && lands_on(*destination, target, m);
                assert(scope.contains(m) && holds(lands, m));
            }
        }
        if found {
            let differs = bool_not(&lands);
            let ghost before = targets@;
            none = bool_and(&none, &differs);
            targets.push(target);
            proof {
                assert forall|m: Model| #[trigger]
                    holds(none, m) == misses(*destination, targets@, m) by {
                    if misses(*destination, before, m) && !lands_on(*destination, target, m) {
                        assert forall|i: int| 0 <= i < targets@.len() implies !lands_on(
                            *destination,
                            #[trigger] targets@[i],
                            m,
                        ) by {
                            if i < before.len() {
                                assert(targets@[i] == before[i]);
                            }
                        }
                    }
                    if misses(*destination, targets@, m) {
                        assert(targets@[before.len() as int] == target);
                        assert forall|i: int| 0 <= i < before.len() implies !lands_on(
                            *destination,
                            #[trigger] before[i],
                            m,
                        ) by {
                            assert(targets@[i] == before[i]);
                        }
                    }
                }
            }
        }
        index += 1;
    }
    let invalid = feasible(solver, &none)?;
    proof {
        assert(table.take(len as int) =~= table);
        if satisfiable(scope, none) {
            let m = choose|m: Model| #[trigger] scope.contains(m) && holds(none, m);
            lemma_misses_reachable(scope, *destination, table, m);
            assert(scope.contains(m) && misses(*destination, table, m));
        }
        if can_miss(scope, *destination, table) {
            let m = choose|m: Model| #[trigger]
                scope.contains(m) && misses(*destination, table, m);
            lemma_misses_reachable(scope, *destination, table, m);
            assert(scope.contains(m) && holds(none, m));
        }
    }
    Ok((invalid, targets))
}

impl JumpI {
    /// Enumerates what attempting the jump can lead to on the path that
    /// `solver` holds. Nothing is committed: the solver ends with the
    /// assertions and the backtracking points that it came with, also where
    /// the enumeration fails. It fails only where the solver leaves a query
    /// undecided, and never on a stack of fewer than two words.
    pub fn outcomes<S: Storage>(
        &self,
        solver: &mut z3::Solver,
        execution: &Execution<S>,
        destinations: &JumpDestinations,
    ) -> (result: Result<OutcomeBuffer, Error<S::Error>>)
        ensures
            solver_models(*final(solver)) == solver_models(*old(solver)),
            solver_saved(*final(solver)) == solver_saved(*old(solver)),
            execution.stack@.len() < 2 ==> result is Ok,
            result matches Ok(buffer) ==> buffer@ == offered(
                solver_models(*old(solver)),
                execution.gas_remaining,
                execution.stack@,
                destinations@,
            ),
            result matches Err(error) ==> error == Error::<S::Error>::SolverInconclusive,
    {
        let ghost path = solver_models(*solver);
        let ghost stack = execution.stack@;
        let ghost gas = execution.gas_remaining;
        let mut outcomes = OutcomeBuffer::new();
        if execution.stack.len() < 2 {
            outcomes.push(Outcome::Halt(Halt::StackUnderflow));
            return Ok(outcomes);
        }
        let short = execution.gas_remaining.falls_short_of(GAS_COST);
        let dry = feasible(solver, &short)?;
        proof {
            if satisfiable(path, short) {
                let m = choose|m: Model| #[trigger] path.contains(m) && holds(short, m);
                assert(path.contains(m) && gas.value(m) < GAS_COST);
            }
            if can_run_dry(path, gas, GAS_COST) {
                let m = choose|m: Model| #[trigger] path.contains(m) && gas.value(m) < GAS_COST;
                assert(path.contains(m) && holds(short, m));
            }
        }
        if dry {
            outcomes.push(Outcome::Halt(Halt::OutOfGas));
        }
        let covers = execution.gas_remaining.covers(GAS_COST);
        let affordable = feasible(solver, &covers)?;
        proof {
            if satisfiable(path, covers) {
                let m = choose|m: Model| #[trigger] path.contains(m) && holds(covers, m);
                assert(path.contains(m) && gas.value(m) >= GAS_COST);
            }
            if can_afford(path, gas, GAS_COST) {
                let m = choose|m: Model| #[trigger] path.contains(m) && gas.value(m) >= GAS_COST;
                assert(path.contains(m) && holds(covers, m));
            }
            assert(outcomes@ =~= offer_if(dry, Outcome::Halt(Halt::OutOfGas)));
        }
        if affordable {
            let zero = Word::from_u64(0);
            let advance = execution.stack.at(0).equals(&zero);
            let jump = bool_not(&advance);
            let ghost saved = solver_saved(*solver);

            solver_push(solver);
            solver_assert(solver, &jump);
            let scanned = scan_targets::<S::Error>(solver, execution.stack.at(1), destinations);
            solver_pop(solver);
            proof {
                assert(saved.push(path).drop_last() =~= saved);
                assert(narrowed(path, jump) =~= jumping(path, stack));
            }
            let (invalid, targets) = scanned?;

            if invalid {
                outcomes.push(Outcome::Halt(Halt::InvalidJumpDest));
            }
            let ghost head = outcomes@;
            let count = targets.len();
            let mut index: usize = 0;
            while index < count
                invariant
                    count == targets@.len(),
                    index <= count,
                    outcomes@ == head + jumps(targets@.take(index as int)),
                decreases count - index,
            {
                outcomes.push(Outcome::Run(Run::Jump(targets[index])));
                proof {
                    assert(outcomes@ =~= head + jumps(targets@.take(index + 1)));
                }
                index += 1;
            }
            let falls = feasible(solver, &advance)?;
            proof {
                assert(targets@.take(count as int) =~= targets@);
                if satisfiable(path, advance) {
                    let m = choose|m: Model| #[trigger] path.contains(m) && holds(advance, m);
                    assert(path.contains(m) && falls_through(stack, m));
                }
                if can_fall_through(path, stack) {
                    let m = choose|m: Model| #[trigger]
                        path.contains(m) && falls_through(stack, m);
                    assert(path.contains(m) && holds(advance, m));
                }
            }
            if falls {
                outcomes.push(Outcome::Run(Run::Advance));
            }
            proof {
                assert(outcomes@ =~= offer_if(dry, Outcome::Halt(Halt::OutOfGas)) + branches(
                    path,
                    stack,
                    destinations@,
                ));
            }
        }
        proof {
            assert(outcomes@ =~= offered(path, gas, stack, destinations@));
        }
        Ok(outcomes)
    }

    /// Commits a run that was offered: takes the condition and the
    /// destination off the stack, charges the cost, asserts what the run
    /// says of the condition and the destination, and moves the program
    /// counter. It trusts that the run was found feasible and asks the solver
    /// nothing.
    pub fn execute<S: Storage>(
        &self,
        solver: &mut z3::Solver,
        run: Run,
        execution: &mut Execution<S>,
    ) -> (result: Result<(), Error<S::Error>>)
        requires
            old(execution).wf(),
            old(execution).stack@.len() >= 2,
            old(execution).pc.0 < u64::MAX,
        ensures
            result == Ok::<(), Error<S::Error>>(()),
            final(execution).wf(),
            final(execution).stack@ == old(execution).stack@.take(
                old(execution).stack@.len() - 2,
            ),
            forall|m: Model| #[trigger]
                final(execution).gas_remaining.value(m) == old(execution).gas_remaining.value(m)
                    - GAS_COST,
            final(execution).pc == match run {
                Run::Jump(target) => target,
                Run::Advance => Offset((old(execution).pc.0 + 1) as u64),
            },
            final(execution).halted == old(execution).halted,
            final(execution).storage == old(execution).storage,
            solver_models(*final(solver)) == Set::new(
                |m: Model|
                    solver_models(*old(solver)).contains(m) && commitment(
                        run,
                        old(execution).stack@,
                        m,
                    ),
            ),
            solver_saved(*final(solver)) == solver_saved(*old(solver)),
    {
        let ghost path = solver_models(*solver);
        let ghost stack = execution.stack@;
        execution.gas_remaining.deduct(GAS_COST);

        let condition = execution.stack.pop().unwrap();
        let destination = execution.stack.pop().unwrap();
        proof {
            assert(execution.stack@ =~= stack.take(stack.len() - 2));
        }
        let zero = Word::from_u64(0);
        let will_advance = condition.equals(&zero);

        match run {
            Run::Jump(target) => {
                let will_jump = bool_not(&will_advance);
                solver_assert(solver, &will_jump);
                let literal = Word::from_u64(target.0);
                let lands = destination.equals(&literal);
                solver_assert(solver, &lands);
                execution.pc = target;
                proof {
                    assert(narrowed(narrowed(path, will_jump), lands) =~= Set::new(
                        |m: Model| path.contains(m) && commitment(run, stack, m),
                    ));
                }
            },
            Run::Advance => {
                solver_assert(solver, &will_advance);
                execution.pc = Offset(execution.pc.0 + 1);
                proof {
                    assert(narrowed(path, will_advance) =~= Set::new(
                        |m: Model| path.contains(m) && commitment(run, stack, m),
                    ));
                }
            },
        }
        Ok(())
    }
}

} // verus!
