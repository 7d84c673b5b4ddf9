//! What attempting one instruction can lead to.

use vstd::prelude::*;

verus! {

/// A byte position in the program. Offsets are ordered as their numbers are.
#[derive(Clone, Copy, PartialEq, Eq, PartialOrd, Ord, Debug, Hash, Structural)]
pub struct Offset(pub u64);

/// Why an execution ends.
#[derive(Clone, Copy, PartialEq, Eq, Debug, Hash, Structural)]
pub enum Halt {
    /// The instruction needs more stack elements than there are.
    StackUnderflow,
    /// The instruction would grow the stack beyond its limit.
    StackOverflow,
    /// The remaining gas does not cover the instruction's cost.
    OutOfGas,
    /// A jump is taken to an offset that is no valid target.
    InvalidJumpDest,
    /// The program stops of its own accord.
    Stop,
}

/// How an execution goes on.
#[derive(Clone, Copy, PartialEq, Eq, Debug, Hash, Structural)]
pub enum Run {
    /// Control falls through to the next instruction.
    Advance,
    /// Control moves to the given offset.
    Jump(Offset),
}

/// The result of attempting the current instruction.
#[derive(Clone, Copy, PartialEq, Eq, Debug, Hash, Structural)]
pub enum Outcome {
    /// The execution ends.
    Halt(Halt),
    /// The execution goes on.
    Run(Run),
}

/// An ordered, growable sequence of outcomes that keeps its first two items
/// inline, held in a `smallvec::SmallVec`.
#[verifier::external_body]
pub struct OutcomeBuffer {
    items: smallvec::SmallVec<[Outcome; 2]>,
}

/// The outcomes that a buffer holds, in the order in which they were pushed.
pub uninterp spec fn buffer_items(buffer: OutcomeBuffer) -> Seq<Outcome>;

/// `SmallVec::new`: an empty buffer.
#[verifier::external_body]
fn buffer_new() -> (buffer: OutcomeBuffer)
    ensures
        buffer_items(buffer) == Seq::<Outcome>::empty(),
{
    OutcomeBuffer { items: smallvec::SmallVec::new() }
}

/// `SmallVec::push`: appends one item.
#[verifier::external_body]
fn buffer_push(buffer: &mut OutcomeBuffer, outcome: Outcome)
    ensures
        buffer_items(*final(buffer)) == buffer_items(*old(buffer)).push(outcome),
{
    buffer.items.push(outcome)
}

/// `SmallVec::len`: the number of items.
#[verifier::external_body]
fn buffer_len(buffer: &OutcomeBuffer) -> (len: usize)
    ensures
        len == buffer_items(*buffer).len(),
{
    buffer.items.len()
}

/// Indexing a `SmallVec` through its `Deref` to a slice: the item at
/// `index`. It panics past the end, which the precondition leaves out.
#[verifier::external_body]
fn buffer_get(buffer: &OutcomeBuffer, index: usize) -> (outcome: Outcome)
    requires
        index < buffer_items(*buffer).len(),
    ensures
        outcome == buffer_items(*buffer)[index as int],
{
    buffer.items[index]
}

impl View for OutcomeBuffer {
    type V = Seq<Outcome>;

    open spec fn view(&self) -> Seq<Outcome> {
        buffer_items(*self)
    }
}

impl OutcomeBuffer {
    /// An empty buffer.
    pub fn new() -> (buffer: OutcomeBuffer)
        ensures
            buffer@ == Seq::<Outcome>::empty(),
    {
        buffer_new()
    }

    /// Appends `outcome`.
    pub fn push(&mut self, outcome: Outcome)
        ensures
            final(self)@ == old(self)@.push(outcome),
    {
        buffer_push(self, outcome)
    }

    /// The number of outcomes.
    pub fn len(&self) -> (len: usize)
        ensures
            len == self@.len(),
    {
        buffer_len(self)
    }

    /// The outcome at `index`, if there is one.
    pub fn get(&self, index: usize) -> (outcome: Option<Outcome>)
        ensures
            outcome == if index < self@.len() {
                Some(self@[index as int])
            } else {
                None
            },
    {
        if index < buffer_len(self) {
            Some(buffer_get(self, index))
        } else {
            None
        }
    }

    /// Whether `outcome` is among the outcomes.
    pub fn contains(&self, outcome: Outcome) -> (found: bool)
        ensures
            found == self@.contains(outcome),
    {
        let len = buffer_len(self);
        let mut index: usize = 0;
        while index < len
            invariant
                len == self@.len(),
                index <= len,
                forall|i: int| 0 <= i < index ==> self@[i] != outcome,
            decreases len - index,
        {
            if buffer_get(self, index) == outcome {
                return true;
            }
            index += 1;
        }
        false
    }

    /// A second buffer with the same outcomes.
    pub fn duplicate(&self) -> (copy: OutcomeBuffer)
        ensures
            copy@ == self@,
    {
        let len = buffer_len(self);
        let mut copy = buffer_new();
        let mut index: usize = 0;
        while index < len
            invariant
                len == self@.len(),
                index <= len,
                copy@ == self@.take(index as int),
            decreases len - index,
        {
            buffer_push(&mut copy, buffer_get(self, index));
            assert(self@.take(index + 1) =~= self@.take(index as int).push(self@[index as int]));
            index += 1;
        }
        assert(self@.take(len as int) =~= self@);
        copy
    }

    /// The outcomes as a vector, in order.
    pub fn to_vec(&self) -> (items: Vec<Outcome>)
        ensures
            items@ == self@,
    {
        let len = buffer_len(self);
        let mut items: Vec<Outcome> = Vec::new();
        let mut index: usize = 0;
        while index < len
            invariant
                len == self@.len(),
                index <= len,
                items@ == self@.take(index as int),
            decreases len - index,
        {
            items.push(buffer_get(self, index));
            assert(self@.take(index + 1) =~= self@.take(index as int).push(self@[index as int]));
            index += 1;
        }
        assert(self@.take(len as int) =~= self@);
        items
    }
}

} // verus!
