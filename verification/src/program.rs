//! Programs and their table of jump destinations.

use crate::outcome::Offset;
use vstd::prelude::*;

verus! {

/// The instructions of the machine. Each occupies one byte, so the offset of
/// an instruction is its index in the program.
#[derive(Clone, Copy, PartialEq, Eq, Debug, Hash, Structural)]
pub enum Op {
    /// The conditional jump.
    JumpI,
    /// The marker of a valid jump target.
    JumpDest,
    /// The end of the execution.
    Stop,
}

/// Whether `offset` is marked as a jump target in `program`.
pub open spec fn is_jump_target(program: Seq<Op>, offset: Offset) -> bool {
    offset.0 < program.len() && program[offset.0 as int] == Op::JumpDest
}

/// The offsets that `program` marks as jump targets, ascending.
pub open spec fn destinations_of(program: Seq<Op>) -> Seq<Offset>
    decreases program.len(),
{
    if program.len() == 0 {
        Seq::empty()
    } else if program.last() == Op::JumpDest {
        destinations_of(program.drop_last()).push(Offset((program.len() - 1) as u64))
    } else {
        destinations_of(program.drop_last())
    }
}

/// Whether the offsets grow strictly from each place to the next.
pub open spec fn strictly_ascending(offsets: Seq<Offset>) -> bool {
    forall|i: int, j: int| 0 <= i < j < offsets.len() ==> offsets[i].0 < offsets[j].0
}

/// The offsets of a program's jump targets are strictly ascending, and an
/// offset is among them exactly if the program marks it.
pub proof fn lemma_destinations_of(program: Seq<Op>)
    requires
        program.len() <= u64::MAX,
    ensures
        strictly_ascending(destinations_of(program)),
        forall|offset: Offset| #[trigger]
            destinations_of(program).contains(offset) <==> is_jump_target(program, offset),
    decreases program.len(),
{
    let table = destinations_of(program);
    if program.len() == 0 {
    } else {
        let shorter = program.drop_last();
        let before = destinations_of(shorter);
        let last = Offset((program.len() - 1) as u64);
        lemma_destinations_of(shorter);
        assert forall|i: int| 0 <= i < before.len() implies (#[trigger] before[i]).0
            < shorter.len() by {
            assert(before.contains(before[i]));
        }
        assert forall|offset: Offset| #[trigger]
            table.contains(offset) <==> is_jump_target(program, offset) by {
            let marked = before.contains(offset) <==> is_jump_target(shorter, offset);
            assert(marked);
            if table.contains(offset) {
                let i = choose|i: int| 0 <= i < table.len() && table[i] == offset;
                if i < before.len() {
                    assert(before[i] == offset);
                    assert(before.contains(offset));
                } else {
                    assert(offset == last);
                }
            }
            if is_jump_target(program, offset) {
                if offset.0 < shorter.len() {
                    assert(is_jump_target(shorter, offset));
                    assert(before.contains(offset));
                    let i = choose|i: int| 0 <= i < before.len() && before[i] == offset;
                    assert(table[i] == offset);
                } else {
                    assert(offset == last);
                    assert(table[table.len() - 1] == offset);
                }
            }
        }
    }
}

/// The valid jump targets of a program, computed once.
pub struct JumpDestinations {
    offsets: Vec<Offset>,
}

impl View for JumpDestinations {
    type V = Seq<Offset>;

    closed spec fn view(&self) -> Seq<Offset> {
        self.offsets@
    }
}

impl JumpDestinations {
    /// The table lists its offsets in strictly ascending order.
    pub open spec fn wf(&self) -> bool {
        strictly_ascending(self@)
    }

    /// The table of `program`.
    pub fn from_program(program: &Vec<Op>) -> (table: JumpDestinations)
        ensures
            table.wf(),
            table@ == destinations_of(program@),
            forall|offset: Offset| #[trigger]
                table@.contains(offset) <==> is_jump_target(program@, offset),
    {
        let len = program.len();
        let mut offsets: Vec<Offset> = Vec::new();
        let mut index: usize = 0;
        while index < len
            invariant
                len == program@.len(),
                index <= len,
                offsets@ == destinations_of(program@.take(index as int)),
            decreases len - index,
        {
            assert(program@.take(index + 1).drop_last() =~= program@.take(index as int));
            if program[index] == Op::JumpDest {
                offsets.push(Offset(index as u64));
            }
            index += 1;
        }
        proof {
            assert(program@.take(len as int) =~= program@);
            lemma_destinations_of(program@);
        }
        JumpDestinations { offsets }
    }

    /// The number of valid targets.
    pub fn len(&self) -> (len: usize)
        ensures
            len == self@.len(),
    {
        self.offsets.len()
    }

    /// The valid target at place `index` of a table that is longer than
    /// `index`.
    pub fn at(&self, index: usize) -> (offset: Offset)
        requires
            index < self@.len(),
        ensures
            offset == self@[index as int],
    {
        self.offsets[index]
    }

    /// The valid target at place `index`, counting from the lowest.
    pub fn get(&self, index: usize) -> (offset: Option<Offset>)
        ensures
            offset == if index < self@.len() {
                Some(self@[index as int])
            } else {
                None
            },
    {
        if index < self.offsets.len() {
            Some(self.offsets[index])
        } else {
            None
        }
    }

    /// Whether `offset` is a valid target.
    pub fn contains(&self, offset: Offset) -> (found: bool)
        ensures
            found == self@.contains(offset),
    {
        let len = self.offsets.len();
        let mut index: usize = 0;
        while index < len
            invariant
                len == self@.len(),
                index <= len,
                forall|i: int| 0 <= i < index ==> self@[i] != offset,
            decreases len - index,
        {
            if self.offsets[index] == offset {
                return true;
            }
            index += 1;
        }
        false
    }
}

} // verus!
