//! The instruction that ends the execution.

use crate::outcome::{Halt, Outcome, OutcomeBuffer};
use vstd::prelude::*;

verus! {

/// The stop instruction.
#[derive(Clone, Copy, PartialEq, Eq, Debug)]
pub struct Stop;

/// The one outcome that a stop offers.
pub open spec fn offered() -> Seq<Outcome> {
    seq![Outcome::Halt(Halt::Stop)]
}

impl Stop {
    /// Enumerates what attempting the instruction leads to: the execution
    /// stops, whatever the path.
    pub fn outcomes(&self) -> (buffer: OutcomeBuffer)
        ensures
            buffer@ == offered(),
    {
        let mut outcomes = OutcomeBuffer::new();
        outcomes.push(Outcome::Halt(Halt::Stop));
        outcomes
    }
}

} // verus!
