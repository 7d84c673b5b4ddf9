use z3::ast::{Int, BV};
use z3::{Params, SatResult};
use zevm::error::Error;
use zevm::program::Op;
use zevm::storage::Storage;
use zevm::word::Word;
use zevm::{Builder, Halt, Offset, Outcome, Run, ZEvm};

/// A backend that no instruction of these tests touches.
#[derive(Clone)]
struct NoStorage;

impl Storage for NoStorage {
    type Error = ();

    fn read(&self, _key: &Word) -> Result<Word, ()> {
        Err(())
    }

    fn write(&mut self, _key: Word, _value: Word) -> Result<(), ()> {
        Err(())
    }
}

fn symbolic_jump(program: Vec<Op>) -> (ZEvm<NoStorage>, BV, BV) {
    let mut evm = Builder::new(program, NoStorage).build();
    let destination = BV::fresh_const("destination", 256);
    let condition = BV::fresh_const("condition", 256);
    evm.push(0, Word::from_bv(destination.clone()).unwrap())
        .unwrap();
    evm.push(0, Word::from_bv(condition.clone()).unwrap())
        .unwrap();
    (evm, destination, condition)
}

#[test]
fn build_starts_one_execution_at_the_first_instruction() {
    let evm = Builder::new(vec![Op::JumpI, Op::JumpDest], NoStorage)
        .set_gas(7)
        .build();

    assert_eq!(evm.len(), 1);
    let execution = evm.execution(0).unwrap();
    assert_eq!(execution.pc, Offset(0));
    assert_eq!(execution.stack.len(), 0);
    assert!(!execution.halted);
    assert_eq!(evm.offered(0).unwrap().len(), 0);
    assert!(evm.execution(1).is_none());
    assert!(evm.solver(1).is_none());
    assert!(evm.offered(1).is_none());
    assert_eq!(evm.solver(0).unwrap().check(), SatResult::Sat);
}

#[test]
fn build_fixes_the_gas() {
    let evm = Builder::new(vec![Op::Stop], NoStorage).set_gas(7).build();

    let gas = evm.execution(0).unwrap().gas_remaining.as_int();
    let solver = evm.solver(0).unwrap();
    assert_eq!(
        solver.check_assumptions(&[gas.eq(Int::from_u64(7))]),
        SatResult::Sat
    );
    assert_eq!(
        solver.check_assumptions(&[gas.eq(Int::from_u64(7)).not()]),
        SatResult::Unsat
    );
}

#[test]
fn build_leaves_the_gas_open_unless_fixed() {
    let evm = Builder::new(vec![Op::Stop], NoStorage).build();

    let gas = evm.execution(0).unwrap().gas_remaining.as_int();
    let solver = evm.solver(0).unwrap();
    assert_eq!(
        solver.check_assumptions(&[gas.eq(Int::from_u64(3))]),
        SatResult::Sat
    );
    assert_eq!(
        solver.check_assumptions(&[gas.lt(Int::from_i64(-5))]),
        SatResult::Sat
    );
}

#[test]
fn build_computes_the_jump_destinations() {
    let evm = Builder::new(
        vec![Op::JumpDest, Op::JumpI, Op::Stop, Op::JumpDest],
        NoStorage,
    )
    .build();

    let table = evm.destinations();
    assert_eq!(table.len(), 2);
    assert_eq!(table.get(0), Some(Offset(0)));
    assert_eq!(table.get(1), Some(Offset(3)));
    assert!(table.contains(Offset(3)));
    assert!(!table.contains(Offset(1)));
}

#[test]
fn step_puts_the_outcomes_on_offer() {
    let (mut evm, _, _) = symbolic_jump(vec![Op::JumpI, Op::JumpDest]);

    let listed = evm.step().unwrap();

    let expected = vec![
        Outcome::Halt(Halt::OutOfGas),
        Outcome::Halt(Halt::InvalidJumpDest),
        Outcome::Run(Run::Jump(Offset(1))),
        Outcome::Run(Run::Advance),
    ];
    assert_eq!(
        listed,
        expected.iter().map(|outcome| (0, *outcome)).collect::<Vec<_>>()
    );
    assert_eq!(evm.offered(0).unwrap().to_vec(), expected);
}

#[test]
fn step_commits_nothing() {
    let (mut evm, _, condition) = symbolic_jump(vec![Op::JumpI, Op::JumpDest]);

    evm.step().unwrap();

    let execution = evm.execution(0).unwrap();
    assert_eq!(execution.pc, Offset(0));
    assert_eq!(execution.stack.len(), 2);
    assert!(!execution.halted);
    let solver = evm.solver(0).unwrap();
    let zero = condition.eq(BV::from_u64(0, 256));
    assert_eq!(solver.check_assumptions(&[zero.clone()]), SatResult::Sat);
    assert_eq!(solver.check_assumptions(&[zero.not()]), SatResult::Sat);
    assert_eq!(solver.get_assertions().len(), 0);
}

#[test]
fn step_twice_lists_the_same_outcomes() {
    let (mut evm, _, _) = symbolic_jump(vec![Op::JumpI, Op::JumpDest, Op::JumpDest]);

    let first = evm.step().unwrap();
    let second = evm.step().unwrap();

    assert_eq!(first.len(), 5);
    assert_eq!(first, second);
}

#[test]
fn step_skips_halted_executions() {
    let mut evm = Builder::new(vec![Op::JumpI], NoStorage).set_gas(10).build();
    evm.step().unwrap();
    evm.apply(0, Outcome::Halt(Halt::StackUnderflow)).unwrap();

    let listed = evm.step().unwrap();

    assert!(listed.is_empty());
    assert_eq!(evm.offered(0).unwrap().len(), 0);
}

#[test]
fn step_lists_every_live_execution_in_order() {
    let mut evm = Builder::new(vec![Op::JumpI, Op::JumpDest], NoStorage)
        .set_gas(10)
        .build();
    evm.push(0, Word::from_u64(1)).unwrap();
    evm.push(0, Word::from_u64(0)).unwrap();
    assert_eq!(evm.fork(0), Some(1));
    evm.push(1, Word::from_u64(7)).unwrap();

    let listed = evm.step().unwrap();

    assert_eq!(
        listed,
        vec![
            (0, Outcome::Run(Run::Advance)),
            (1, Outcome::Halt(Halt::InvalidJumpDest)),
        ]
    );
}

#[test]
fn apply_refuses_what_was_not_offered() {
    let mut evm = Builder::new(vec![Op::JumpI, Op::JumpDest], NoStorage)
        .set_gas(10)
        .build();
    evm.push(0, Word::from_u64(1)).unwrap();
    evm.push(0, Word::from_u64(0)).unwrap();
    evm.step().unwrap();

    let refused = evm.apply(0, Outcome::Run(Run::Jump(Offset(1))));

    assert_eq!(refused, Err(Error::AppliedOutcomeNotOffered));
    let execution = evm.execution(0).unwrap();
    assert_eq!(execution.pc, Offset(0));
    assert_eq!(execution.stack.len(), 2);
    assert!(!execution.halted);
    assert_eq!(
        evm.offered(0).unwrap().to_vec(),
        vec![Outcome::Run(Run::Advance)]
    );
    assert_eq!(evm.apply(0, Outcome::Run(Run::Advance)), Ok(()));
}

#[test]
fn apply_refuses_before_any_step() {
    let mut evm = Builder::new(vec![Op::Stop], NoStorage).build();

    assert_eq!(
        evm.apply(0, Outcome::Halt(Halt::Stop)),
        Err(Error::AppliedOutcomeNotOffered)
    );
}

#[test]
fn apply_refuses_an_execution_that_does_not_exist() {
    let mut evm = Builder::new(vec![Op::Stop], NoStorage).build();
    evm.step().unwrap();

    assert_eq!(
        evm.apply(1, Outcome::Halt(Halt::Stop)),
        Err(Error::AppliedOutcomeNotOffered)
    );
}

#[test]
fn apply_refuses_a_halted_execution() {
    let mut evm = Builder::new(vec![Op::Stop], NoStorage).build();
    evm.step().unwrap();
    assert_eq!(evm.apply(0, Outcome::Halt(Halt::Stop)), Ok(()));
    assert!(evm.execution(0).unwrap().halted);

    assert_eq!(
        evm.apply(0, Outcome::Halt(Halt::Stop)),
        Err(Error::AlreadyHalted)
    );
    assert_eq!(
        evm.apply(0, Outcome::Run(Run::Advance)),
        Err(Error::AlreadyHalted)
    );
}

#[test]
fn apply_succeeds_once_per_step() {
    let (mut evm, _, _) = symbolic_jump(vec![Op::JumpI, Op::JumpDest]);
    evm.step().unwrap();

    assert_eq!(evm.apply(0, Outcome::Run(Run::Advance)), Ok(()));

    assert_eq!(
        evm.apply(0, Outcome::Run(Run::Advance)),
        Err(Error::AppliedOutcomeNotOffered)
    );
    assert_eq!(evm.offered(0).unwrap().len(), 0);
}

#[test]
fn apply_of_a_halt_changes_only_the_flag() {
    let (mut evm, _, condition) = symbolic_jump(vec![Op::JumpI, Op::JumpDest]);
    evm.step().unwrap();

    assert_eq!(evm.apply(0, Outcome::Halt(Halt::OutOfGas)), Ok(()));

    let execution = evm.execution(0).unwrap();
    assert!(execution.halted);
    assert_eq!(execution.pc, Offset(0));
    assert_eq!(execution.stack.len(), 2);
    let solver = evm.solver(0).unwrap();
    let zero = condition.eq(BV::from_u64(0, 256));
    assert_eq!(solver.check_assumptions(&[zero.clone()]), SatResult::Sat);
    assert_eq!(solver.check_assumptions(&[zero.not()]), SatResult::Sat);
}

#[test]
fn apply_of_a_jump_pops_charges_and_constrains() {
    let mut evm = Builder::new(vec![Op::JumpI, Op::Stop, Op::JumpDest], NoStorage)
        .set_gas(25)
        .build();
    let destination = BV::fresh_const("destination", 256);
    let condition = BV::fresh_const("condition", 256);
    evm.push(0, Word::from_u64(77)).unwrap();
    evm.push(0, Word::from_bv(destination.clone()).unwrap())
        .unwrap();
    evm.push(0, Word::from_bv(condition.clone()).unwrap())
        .unwrap();
    evm.step().unwrap();

    assert_eq!(evm.apply(0, Outcome::Run(Run::Jump(Offset(2)))), Ok(()));

    let execution = evm.execution(0).unwrap();
    assert_eq!(execution.pc, Offset(2));
    assert_eq!(execution.stack.len(), 1);
    assert!(!execution.halted);
    let solver = evm.solver(0).unwrap();
    let left = execution.stack.peek(0).unwrap().as_bv();
    assert_eq!(
        solver.check_assumptions(&[left.eq(BV::from_u64(77, 256)).not()]),
        SatResult::Unsat
    );
    let gas = execution.gas_remaining.as_int();
    assert_eq!(
        solver.check_assumptions(&[gas.eq(Int::from_u64(15))]),
        SatResult::Sat
    );
    assert_eq!(
        solver.check_assumptions(&[gas.eq(Int::from_u64(15)).not()]),
        SatResult::Unsat
    );
    assert_eq!(
        solver.check_assumptions(&[destination.eq(BV::from_u64(2, 256)).not()]),
        SatResult::Unsat
    );
    assert_eq!(
        solver.check_assumptions(&[condition.eq(BV::from_u64(0, 256))]),
        SatResult::Unsat
    );
    assert_eq!(solver.check(), SatResult::Sat);
}

#[test]
fn apply_of_the_fall_through_leaves_the_destination_open() {
    let (mut evm, destination, _) = symbolic_jump(vec![Op::JumpI, Op::JumpDest]);
    evm.step().unwrap();

    assert_eq!(evm.apply(0, Outcome::Run(Run::Advance)), Ok(()));

    let solver = evm.solver(0).unwrap();
    let one = destination.eq(BV::from_u64(1, 256));
    assert_eq!(solver.check_assumptions(&[one.clone()]), SatResult::Sat);
    assert_eq!(solver.check_assumptions(&[one.not()]), SatResult::Sat);
}

#[test]
fn gas_may_go_below_zero() {
    let (mut evm, _, _) = symbolic_jump(vec![Op::JumpI, Op::JumpDest]);
    evm.step().unwrap();
    evm.apply(0, Outcome::Run(Run::Advance)).unwrap();

    let gas = evm.execution(0).unwrap().gas_remaining.as_int();
    let solver = evm.solver(0).unwrap();
    assert_eq!(
        solver.check_assumptions(&[gas.lt(Int::from_u64(0))]),
        SatResult::Sat
    );
}

#[test]
fn fork_gives_each_branch_a_path_of_its_own() {
    let (mut evm, _, condition) = symbolic_jump(vec![Op::JumpI, Op::JumpDest]);
    evm.step().unwrap();

    assert_eq!(evm.fork(0), Some(1));
    assert_eq!(evm.len(), 2);
    assert_eq!(
        evm.offered(1).unwrap().to_vec(),
        evm.offered(0).unwrap().to_vec()
    );
    assert_eq!(evm.apply(0, Outcome::Run(Run::Advance)), Ok(()));
    assert_eq!(evm.apply(1, Outcome::Run(Run::Jump(Offset(1)))), Ok(()));

    let zero = condition.eq(BV::from_u64(0, 256));
    let advanced = evm.solver(0).unwrap();
    assert_eq!(advanced.check_assumptions(&[zero.clone()]), SatResult::Sat);
    assert_eq!(
        advanced.check_assumptions(&[zero.not()]),
        SatResult::Unsat
    );
    let jumped = evm.solver(1).unwrap();
    assert_eq!(jumped.check_assumptions(&[zero.clone()]), SatResult::Unsat);
    assert_eq!(jumped.check_assumptions(&[zero.not()]), SatResult::Sat);
    assert_eq!(evm.execution(0).unwrap().pc, Offset(1));
    assert_eq!(evm.execution(1).unwrap().pc, Offset(1));
    assert_eq!(evm.execution(0).unwrap().stack.len(), 0);
    assert_eq!(evm.execution(1).unwrap().stack.len(), 0);
}

#[test]
fn fork_copies_the_constraints_committed_so_far() {
    let (mut evm, _, condition) = symbolic_jump(vec![Op::JumpI, Op::JumpDest]);
    evm.step().unwrap();
    evm.apply(0, Outcome::Run(Run::Advance)).unwrap();

    assert_eq!(evm.fork(0), Some(1));

    let zero = condition.eq(BV::from_u64(0, 256));
    let twin = evm.solver(1).unwrap();
    assert_eq!(twin.check_assumptions(&[zero.not()]), SatResult::Unsat);
    assert_eq!(evm.execution(1).unwrap().pc, Offset(1));
    assert!(!evm.execution(1).unwrap().halted);
}

#[test]
fn fork_of_an_execution_that_does_not_exist() {
    let mut evm = Builder::new(vec![Op::Stop], NoStorage).build();

    assert_eq!(evm.fork(3), None);
    assert_eq!(evm.len(), 1);
}

#[test]
fn push_withdraws_what_was_on_offer() {
    let mut evm = Builder::new(vec![Op::JumpI], NoStorage).set_gas(10).build();
    evm.step().unwrap();
    assert_eq!(evm.offered(0).unwrap().len(), 1);

    assert_eq!(evm.push(0, Word::from_u64(5)), Ok(()));

    assert_eq!(evm.offered(0).unwrap().len(), 0);
    assert_eq!(
        evm.apply(0, Outcome::Halt(Halt::StackUnderflow)),
        Err(Error::AppliedOutcomeNotOffered)
    );
}

#[test]
fn push_stops_at_the_stack_limit() {
    let mut evm = Builder::new(vec![Op::Stop], NoStorage).build();
    for value in 0..1024 {
        assert_eq!(evm.push(0, Word::from_u64(value)), Ok(()));
    }
    evm.step().unwrap();

    assert_eq!(evm.push(0, Word::from_u64(0)), Err(Halt::StackOverflow));

    assert_eq!(evm.execution(0).unwrap().stack.len(), 1024);
    assert_eq!(evm.offered(0).unwrap().len(), 1);
}

#[test]
fn running_to_the_end_of_the_program() {
    let mut evm = Builder::new(vec![Op::JumpI, Op::Stop, Op::JumpDest], NoStorage)
        .set_gas(11)
        .build();
    evm.push(0, Word::from_u64(2)).unwrap();
    evm.push(0, Word::from_u64(1)).unwrap();

    assert_eq!(
        evm.step().unwrap(),
        vec![(0, Outcome::Run(Run::Jump(Offset(2))))]
    );
    evm.apply(0, Outcome::Run(Run::Jump(Offset(2)))).unwrap();
    assert_eq!(evm.step().unwrap(), vec![(0, Outcome::Run(Run::Advance))]);
    evm.apply(0, Outcome::Run(Run::Advance)).unwrap();
    assert_eq!(evm.execution(0).unwrap().pc, Offset(3));
    assert_eq!(evm.step().unwrap(), vec![(0, Outcome::Halt(Halt::Stop))]);
    evm.apply(0, Outcome::Halt(Halt::Stop)).unwrap();

    assert!(evm.execution(0).unwrap().halted);
    assert!(evm.step().unwrap().is_empty());
}

#[test]
fn every_gas_value_is_covered_by_one_outcome() {
    for gas in [0, 9, 10, 11] {
        let mut evm = Builder::new(vec![Op::JumpI, Op::JumpDest], NoStorage)
            .set_gas(gas)
            .build();
        evm.push(0, Word::from_u64(1)).unwrap();
        evm.push(0, Word::from_u64(5)).unwrap();

        let listed = evm.step().unwrap();

        let expected = if gas < 10 {
            Outcome::Halt(Halt::OutOfGas)
        } else {
            Outcome::Run(Run::Jump(Offset(1)))
        };
        assert_eq!(listed, vec![(0, expected)]);
    }
}

#[test]
fn step_fails_where_the_solver_gives_up() {
    let (mut evm, _, condition) = symbolic_jump(vec![Op::JumpI, Op::JumpDest]);
    {
        let solver = evm.solver(0).unwrap();
        let mut params = Params::new();
        params.set_u32("rlimit", 1);
        solver.set_params(&params);
        let a = BV::fresh_const("a", 256);
        let b = BV::fresh_const("b", 256);
        let limit = BV::from_u64(u64::MAX, 256);
        solver.assert(a.bvugt(BV::from_u64(1, 256)));
        solver.assert(b.bvugt(BV::from_u64(1, 256)));
        solver.assert(a.bvule(&limit));
        solver.assert(b.bvule(&limit));
        let product = BV::from_str(256, "170141183460469231602560095199828576739").unwrap();
        solver.assert(a.bvmul(&b).eq(&product));
        solver.assert(condition.eq(a.bvxor(&b)));
    }

    assert_eq!(evm.step(), Err(Error::SolverInconclusive));

    assert_eq!(evm.offered(0).unwrap().len(), 0);
    assert_eq!(evm.execution(0).unwrap().stack.len(), 2);
    assert_eq!(evm.solver(0).unwrap().get_assertions().len(), 6);
    assert_eq!(
        evm.apply(0, Outcome::Run(Run::Advance)),
        Err(Error::AppliedOutcomeNotOffered)
    );
}
