use z3::ast::BV;
use z3::SatResult;
use zevm::engine::Builder;
use zevm::outcome::{Halt, Offset, Outcome, Run};
use zevm::program::Op;
use zevm::storage::Storage;
use zevm::word::Word;

/// A backend that no instruction of these tests touches.
struct InMemory;

impl Storage for InMemory {
    type Error = ();

    fn read(&self, _key: &Word) -> Result<Word, ()> {
        Err(())
    }

    fn write(&mut self, _key: Word, _value: Word) -> Result<(), ()> {
        Err(())
    }
}

fn word(term: BV) -> Word {
    Word::from_bv(term).unwrap()
}

#[test]
fn underflow() {
    let mut evm = Builder::new(vec![Op::JumpI], InMemory)
        .set_gas(10)
        .build();

    let step = evm.step().unwrap();
    assert_eq!(step.len(), 1);

    let outcomes: Vec<_> = step.iter().map(|(_, outcome)| *outcome).collect();

    assert_eq!(outcomes[0], Outcome::Halt(Halt::StackUnderflow));
}

#[test]
fn underflow_with_one_word() {
    let mut evm = Builder::new(vec![Op::JumpI], InMemory)
        .set_gas(10)
        .build();
    evm.push(0, word(BV::from_u64(29, 256))).unwrap();

    let step = evm.step().unwrap();

    assert_eq!(step, vec![(0, Outcome::Halt(Halt::StackUnderflow))]);
}

#[test]
fn not_enough_gas() {
    let mut evm = Builder::new(vec![Op::JumpI], InMemory)
        .set_gas(9)
        .build();

    evm.push(0, word(BV::from_u64(29, 256))).unwrap();
    evm.push(0, word(BV::from_u64(0, 256))).unwrap();

    let step = evm.step().unwrap();
    assert_eq!(step.len(), 1);

    let outcomes: Vec<_> = step.iter().map(|(_, outcome)| *outcome).collect();

    assert_eq!(outcomes[0], Outcome::Halt(Halt::OutOfGas));
}

#[test]
fn advance_only() {
    let mut evm = Builder::new(vec![Op::JumpI], InMemory)
        .set_gas(10)
        .build();

    evm.push(0, word(BV::from_u64(29, 256))).unwrap();
    evm.push(0, word(BV::from_u64(0, 256))).unwrap();

    let step = evm.step().unwrap();
    assert_eq!(step.len(), 1);

    let outcomes: Vec<_> = step.iter().map(|(_, outcome)| *outcome).collect();

    assert_eq!(outcomes[0], Outcome::Run(Run::Advance));
}

#[test]
fn invalid_jump_only() {
    let mut evm = Builder::new(vec![Op::JumpI], InMemory)
        .set_gas(10)
        .build();

    evm.push(0, word(BV::from_u64(29, 256))).unwrap();
    evm.push(0, word(BV::from_u64(1, 256))).unwrap();

    let step = evm.step().unwrap();
    assert_eq!(step.len(), 1);

    let outcomes: Vec<_> = step.iter().map(|(_, outcome)| *outcome).collect();

    assert_eq!(outcomes[0], Outcome::Halt(Halt::InvalidJumpDest));
}

#[test]
fn unrestricted() {
    let mut evm = Builder::new(vec![Op::JumpI, Op::JumpDest, Op::JumpDest], InMemory).build();

    evm.push(0, word(BV::fresh_const("destination", 256)))
        .unwrap();
    evm.push(0, word(BV::fresh_const("condition", 256)))
        .unwrap();

    let step = evm.step().unwrap();
    assert_eq!(step.len(), 5);

    let outcomes: Vec<_> = step.iter().map(|(_, outcome)| *outcome).collect();

    assert_eq!(outcomes[0], Outcome::Halt(Halt::OutOfGas));
    assert_eq!(outcomes[1], Outcome::Halt(Halt::InvalidJumpDest));
    assert_eq!(outcomes[2], Outcome::Run(Run::Jump(Offset(1))));
    assert_eq!(outcomes[3], Outcome::Run(Run::Jump(Offset(2))));
    assert_eq!(outcomes[4], Outcome::Run(Run::Advance));
}

#[test]
fn asserts_when_jump() {
    let mut evm = Builder::new(vec![Op::JumpI, Op::Stop, Op::JumpDest], InMemory).build();

    let condition = BV::fresh_const("condition", 256);

    evm.push(0, word(BV::fresh_const("destination", 256)))
        .unwrap();
    evm.push(0, word(condition.clone())).unwrap();

    evm.step().unwrap();
    evm.apply(0, Outcome::Run(Run::Jump(Offset(2)))).unwrap();

    let eq_zero = condition.eq(BV::from_u64(0, 256));
    let solver = evm.solver(0).unwrap();

    assert_eq!(
        SatResult::Sat,
        solver.check_assumptions(&[eq_zero.not()])
    );
    assert_eq!(SatResult::Unsat, solver.check_assumptions(&[eq_zero]));

    assert_eq!(evm.execution(0).unwrap().pc, Offset(2));
}

#[test]
fn asserts_when_advance() {
    let mut evm = Builder::new(vec![Op::JumpI, Op::Stop, Op::JumpDest], InMemory).build();

    let condition = BV::fresh_const("condition", 256);

    evm.push(0, word(BV::fresh_const("destination", 256)))
        .unwrap();
    evm.push(0, word(condition.clone())).unwrap();

    evm.step().unwrap();
    evm.apply(0, Outcome::Run(Run::Advance)).unwrap();

    let eq_zero = condition.eq(BV::from_u64(0, 256));
    let solver = evm.solver(0).unwrap();

    assert_eq!(
        SatResult::Unsat,
        solver.check_assumptions(&[eq_zero.not()])
    );
    assert_eq!(SatResult::Sat, solver.check_assumptions(&[eq_zero]));

    assert_eq!(evm.execution(0).unwrap().pc, Offset(1));
}
