//! The state of one path through the program.

use crate::outcome::Offset;
use crate::smt::Model;
use crate::stack::{same_values, Stack};
use crate::word::{GasRemaining, Word};
use vstd::prelude::*;

verus! {

/// The machine state of one candidate path.
pub struct Execution<S> {
    /// The offset of the instruction to attempt next.
    pub pc: Offset,
    /// The gas that is left.
    pub gas_remaining: GasRemaining,
    /// The stack.
    pub stack: Stack,
    /// The storage backend.
    pub storage: S,
    /// Whether the execution has ended. Once set, it stays set.
    pub halted: bool,
}

impl<S> Execution<S> {
    /// The stack keeps to its limit.
    pub open spec fn wf(&self) -> bool {
        self.stack.wf()
    }

    /// Whether `other` is at the same place, with the same flag, and with gas
    /// and stack that have the same values under every model.
    pub open spec fn same_state(&self, other: &Execution<S>) -> bool {
        &&& self.pc == other.pc
        &&& self.halted == other.halted
        &&& same_values(self.stack@, other.stack@)
        &&& forall|m: Model| #[trigger]
            self.gas_remaining.value(m) == other.gas_remaining.value(m)
    }

    /// An execution at the start of a program, with an empty stack.
    pub fn new(gas_remaining: GasRemaining, storage: S) -> (execution: Execution<S>)
        ensures
            execution.wf(),
            execution.pc == Offset(0),
            execution.gas_remaining == gas_remaining,
            execution.stack@ == Seq::<Word>::empty(),
            execution.storage == storage,
            !execution.halted,
    {
        Execution { pc: Offset(0), gas_remaining, stack: Stack::new(), storage, halted: false }
    }
}

impl<S: Clone> Execution<S> {
    /// A second execution in the same state, for a path that forks.
    pub fn duplicate(&self) -> (copy: Execution<S>)
        requires
            self.wf(),
        ensures
            copy.wf(),
            copy.same_state(self),
    {
        Execution {
            pc: self.pc,
            gas_remaining: self.gas_remaining.duplicate(),
            stack: self.stack.duplicate(),
            storage: self.storage.clone(),
            halted: self.halted,
        }
    }
}

} // verus!
