use z3::ast::{Int, BV};
use z3::{SatResult, Solver};
use zevm::execution::Execution;
use zevm::ops::jumpdest::JumpDest;
use zevm::ops::jumpi::JumpI;
use zevm::ops::stop::Stop;
use zevm::program::{JumpDestinations, Op};
use zevm::storage::Storage;
use zevm::word::{GasRemaining, Word};
use zevm::{Halt, Offset, Outcome, Run};

/// A backend that no instruction of these tests touches.
#[derive(Clone)]
struct NoStorage;

impl Storage for NoStorage {
    type Error = ();

    fn read(&self, _key: &Word) -> Result<Word, ()> {
        Err(())
    }

    fn write(&mut self, _key: Word, _value: Word) -> Result<(), ()> {
        Err(())
    }
}

fn execution(gas: GasRemaining, stack: Vec<Word>) -> Execution<NoStorage> {
    let mut execution = Execution::new(gas, NoStorage);
    for word in stack {
        execution.stack.push(word).unwrap();
    }
    execution
}

fn table(program: Vec<Op>) -> JumpDestinations {
    JumpDestinations::from_program(&program)
}

#[test]
fn jumpi_offers_only_the_targets_that_the_path_allows() {
    let mut solver = Solver::new();
    let destination = BV::fresh_const("destination", 256);
    solver.assert(destination.bvuge(BV::from_u64(2, 256)));
    solver.assert(destination.bvule(BV::from_u64(3, 256)));
    let state = execution(
        GasRemaining::fixed(10),
        vec![Word::from_bv(destination).unwrap(), Word::from_u64(1)],
    );
    let targets = table(vec![
        Op::JumpI,
        Op::JumpDest,
        Op::JumpDest,
        Op::JumpDest,
        Op::JumpDest,
    ]);

    let outcomes = JumpI.outcomes(&mut solver, &state, &targets).unwrap();

    assert_eq!(
        outcomes.to_vec(),
        vec![
            Outcome::Run(Run::Jump(Offset(2))),
            Outcome::Run(Run::Jump(Offset(3))),
        ]
    );
}

#[test]
fn jumpi_offers_an_invalid_destination_between_the_targets() {
    let mut solver = Solver::new();
    let destination = BV::fresh_const("destination", 256);
    solver.assert(destination.bvule(BV::from_u64(3, 256)));
    let state = execution(
        GasRemaining::fixed(10),
        vec![Word::from_bv(destination).unwrap(), Word::from_u64(1)],
    );
    let targets = table(vec![Op::JumpI, Op::JumpDest, Op::Stop, Op::JumpDest]);

    let outcomes = JumpI.outcomes(&mut solver, &state, &targets).unwrap();

    assert_eq!(
        outcomes.to_vec(),
        vec![
            Outcome::Halt(Halt::InvalidJumpDest),
            Outcome::Run(Run::Jump(Offset(1))),
            Outcome::Run(Run::Jump(Offset(3))),
        ]
    );
}

#[test]
fn jumpi_offers_no_invalid_destination_where_every_value_is_a_target() {
    let mut solver = Solver::new();
    let destination = BV::fresh_const("destination", 256);
    solver.assert(destination.bvuge(BV::from_u64(1, 256)));
    solver.assert(destination.bvule(BV::from_u64(2, 256)));
    let condition = BV::fresh_const("condition", 256);
    let state = execution(
        GasRemaining::fixed(10),
        vec![
            Word::from_bv(destination).unwrap(),
            Word::from_bv(condition).unwrap(),
        ],
    );
    let targets = table(vec![Op::JumpI, Op::JumpDest, Op::JumpDest]);

    let outcomes = JumpI.outcomes(&mut solver, &state, &targets).unwrap();

    assert_eq!(
        outcomes.to_vec(),
        vec![
            Outcome::Run(Run::Jump(Offset(1))),
            Outcome::Run(Run::Jump(Offset(2))),
            Outcome::Run(Run::Advance),
        ]
    );
}

#[test]
fn jumpi_offers_running_out_of_gas_beside_the_branches() {
    let mut solver = Solver::new();
    let state = execution(
        GasRemaining::unconstrained(),
        vec![Word::from_u64(1), Word::from_u64(0)],
    );

    let outcomes = JumpI
        .outcomes(&mut solver, &state, &table(vec![Op::JumpI, Op::JumpDest]))
        .unwrap();

    assert_eq!(
        outcomes.to_vec(),
        vec![Outcome::Halt(Halt::OutOfGas), Outcome::Run(Run::Advance)]
    );
}

#[test]
fn jumpi_takes_the_condition_from_the_top() {
    let mut solver = Solver::new();
    let state = execution(
        GasRemaining::fixed(10),
        vec![Word::from_u64(0), Word::from_u64(1), Word::from_u64(2)],
    );

    let outcomes = JumpI
        .outcomes(&mut solver, &state, &table(vec![Op::JumpI, Op::JumpDest]))
        .unwrap();

    assert_eq!(outcomes.to_vec(), vec![Outcome::Run(Run::Jump(Offset(1)))]);
}

#[test]
fn jumpi_offers_nothing_on_a_path_that_cannot_be() {
    let mut solver = Solver::new();
    let x = Int::fresh_const("x");
    solver.assert(x.lt(Int::from_u64(0)));
    solver.assert(x.gt(Int::from_u64(0)));
    let state = execution(
        GasRemaining::unconstrained(),
        vec![Word::from_u64(1), Word::from_u64(1)],
    );

    let outcomes = JumpI
        .outcomes(&mut solver, &state, &table(vec![Op::JumpI, Op::JumpDest]))
        .unwrap();

    assert_eq!(outcomes.len(), 0);
}

#[test]
fn jumpi_outcomes_leave_the_solver_as_it_was() {
    let mut solver = Solver::new();
    let condition = BV::fresh_const("condition", 256);
    let state = execution(
        GasRemaining::unconstrained(),
        vec![
            Word::from_bv(BV::fresh_const("destination", 256)).unwrap(),
            Word::from_bv(condition.clone()).unwrap(),
        ],
    );
    let targets = table(vec![Op::JumpI, Op::JumpDest]);

    let first = JumpI.outcomes(&mut solver, &state, &targets).unwrap();
    let second = JumpI.outcomes(&mut solver, &state, &targets).unwrap();

    assert_eq!(first.len(), 4);
    assert_eq!(first.to_vec(), second.to_vec());
    assert_eq!(solver.get_assertions().len(), 0);
    let zero = condition.eq(BV::from_u64(0, 256));
    assert_eq!(solver.check_assumptions(&[zero]), SatResult::Sat);
    solver.push();
    solver.pop(1);
}

#[test]
fn jumpi_execute_of_the_fall_through() {
    let mut solver = Solver::new();
    let condition = BV::fresh_const("condition", 256);
    let mut state = execution(
        GasRemaining::fixed(30),
        vec![
            Word::from_u64(9),
            Word::from_u64(1),
            Word::from_bv(condition.clone()).unwrap(),
        ],
    );
    state.pc = Offset(4);

    assert_eq!(JumpI.execute(&mut solver, Run::Advance, &mut state), Ok(()));

    assert_eq!(state.pc, Offset(5));
    assert_eq!(state.stack.len(), 1);
    assert_eq!(state.stack.peek(0).unwrap().as_bv().as_u64(), Some(9));
    assert!(!state.halted);
    let gas = state.gas_remaining.as_int();
    assert_eq!(
        solver.check_assumptions(&[gas.eq(Int::from_u64(20)).not()]),
        SatResult::Unsat
    );
    let zero = condition.eq(BV::from_u64(0, 256));
    assert_eq!(solver.check_assumptions(&[zero.not()]), SatResult::Unsat);
    assert_eq!(solver.check(), SatResult::Sat);
}

#[test]
fn jumpi_execute_of_a_jump() {
    let mut solver = Solver::new();
    let destination = BV::fresh_const("destination", 256);
    let condition = BV::fresh_const("condition", 256);
    let mut state = execution(
        GasRemaining::fixed(10),
        vec![
            Word::from_bv(destination.clone()).unwrap(),
            Word::from_bv(condition.clone()).unwrap(),
        ],
    );

    assert_eq!(
        JumpI.execute(&mut solver, Run::Jump(Offset(6)), &mut state),
        Ok(())
    );

    assert_eq!(state.pc, Offset(6));
    assert_eq!(state.stack.len(), 0);
    let six = destination.eq(BV::from_u64(6, 256));
    assert_eq!(solver.check_assumptions(&[six.not()]), SatResult::Unsat);
    let zero = condition.eq(BV::from_u64(0, 256));
    assert_eq!(solver.check_assumptions(&[zero]), SatResult::Unsat);
    assert_eq!(solver.check(), SatResult::Sat);
    assert_eq!(solver.get_assertions().len(), 2);
}

#[test]
fn jumpdest_costs_one_gas() {
    let solver = Solver::new();

    let broke = execution(GasRemaining::fixed(0), vec![]);
    assert_eq!(
        JumpDest.outcomes(&solver, &broke).unwrap().to_vec(),
        vec![Outcome::Halt(Halt::OutOfGas)]
    );
    let funded = execution(GasRemaining::fixed(1), vec![]);
    assert_eq!(
        JumpDest.outcomes(&solver, &funded).unwrap().to_vec(),
        vec![Outcome::Run(Run::Advance)]
    );
    let open = execution(GasRemaining::unconstrained(), vec![]);
    assert_eq!(
        JumpDest.outcomes(&solver, &open).unwrap().to_vec(),
        vec![Outcome::Halt(Halt::OutOfGas), Outcome::Run(Run::Advance)]
    );
}

#[test]
fn jumpdest_execute_moves_on() {
    let mut state = execution(GasRemaining::fixed(5), vec![Word::from_u64(3)]);
    state.pc = Offset(7);

    assert_eq!(JumpDest.execute(&mut state), Ok(()));

    assert_eq!(state.pc, Offset(8));
    assert_eq!(state.stack.len(), 1);
    let gas = state.gas_remaining.as_int();
    assert_eq!(
        Solver::new().check_assumptions(&[gas.eq(Int::from_u64(4)).not()]),
        SatResult::Unsat
    );
}

#[test]
fn stop_offers_the_stop() {
    assert_eq!(Stop.outcomes().to_vec(), vec![Outcome::Halt(Halt::Stop)]);
}

#[test]
fn op_dispatches_on_the_instruction() {
    let mut solver = Solver::new();
    let state = execution(GasRemaining::fixed(1), vec![]);
    let targets = table(vec![]);

    assert_eq!(
        Op::JumpI
            .outcomes(&mut solver, &state, &targets)
            .unwrap()
            .to_vec(),
        vec![Outcome::Halt(Halt::StackUnderflow)]
    );
    assert_eq!(
        Op::JumpDest
            .outcomes(&mut solver, &state, &targets)
            .unwrap()
            .to_vec(),
        vec![Outcome::Run(Run::Advance)]
    );
    assert_eq!(
        Op::Stop
            .outcomes(&mut solver, &state, &targets)
            .unwrap()
            .to_vec(),
        vec![Outcome::Halt(Halt::Stop)]
    );
}

#[test]
fn op_execute_dispatches_on_the_instruction() {
    let mut solver = Solver::new();
    let mut state = execution(
        GasRemaining::fixed(11),
        vec![Word::from_u64(1), Word::from_u64(0)],
    );

    assert_eq!(
        Op::JumpDest.execute(&mut solver, Run::Advance, &mut state),
        Ok(())
    );
    assert_eq!(state.pc, Offset(1));
    assert_eq!(state.stack.len(), 2);
    assert_eq!(
        Op::JumpI.execute(&mut solver, Run::Advance, &mut state),
        Ok(())
    );
    assert_eq!(state.pc, Offset(2));
    assert_eq!(state.stack.len(), 0);
    let gas = state.gas_remaining.as_int();
    assert_eq!(
        solver.check_assumptions(&[gas.eq(Int::from_u64(0)).not()]),
        SatResult::Unsat
    );
}

#[test]
fn execution_duplicate_is_in_the_same_state() {
    let mut state = execution(
        GasRemaining::fixed(3),
        vec![Word::from_u64(1), Word::from_u64(2)],
    );
    state.pc = Offset(9);
    state.halted = true;

    let copy = state.duplicate();

    assert_eq!(copy.pc, Offset(9));
    assert!(copy.halted);
    assert_eq!(copy.stack.len(), 2);
    assert_eq!(copy.stack.peek(0).unwrap().as_bv().as_u64(), Some(2));
    assert_eq!(copy.gas_remaining.as_int().as_u64(), Some(3));
}
