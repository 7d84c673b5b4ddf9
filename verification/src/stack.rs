//! The machine's stack of words.

use crate::outcome::Halt;
use crate::smt::Model;
use crate::word::Word;
use vstd::prelude::*;

verus! {

/// The greatest number of words that a stack holds.
pub const STACK_LIMIT: usize = 1024;

/// A bounded stack of words. Its view lists the words from the bottom to the
/// top.
pub struct Stack {
    words: Vec<Word>,
}

impl View for Stack {
    type V = Seq<Word>;

    closed spec fn view(&self) -> Seq<Word> {
        self.words@
    }
}

impl Stack {
    /// A stack never holds more than `STACK_LIMIT` words.
    pub open spec fn wf(&self) -> bool {
        self@.len() <= STACK_LIMIT
    }

    /// The word that lies `depth` words below the top.
    pub open spec fn at_depth(&self, depth: int) -> Word
        recommends
            0 <= depth < self@.len(),
    {
        self@[self@.len() - 1 - depth]
    }

    /// An empty stack.
    pub fn new() -> (stack: Stack)
        ensures
            stack.wf(),
            stack@ == Seq::<Word>::empty(),
    {
        Stack { words: Vec::new() }
    }

    /// The number of words on the stack.
    pub fn len(&self) -> (len: usize)
        ensures
            len == self@.len(),
    {
        self.words.len()
    }

    /// Puts `word` on top, unless the stack is full.
    pub fn push(&mut self, word: Word) -> (result: Result<(), Halt>)
        requires
            old(self).wf(),
        ensures
            final(self).wf(),
            old(self)@.len() < STACK_LIMIT ==> result == Ok::<(), Halt>(()) && final(self)@
                == old(self)@.push(word),
            old(self)@.len() >= STACK_LIMIT ==> result == Err::<(), Halt>(Halt::StackOverflow)
                && final(self)@ == old(self)@,
    {
        if self.words.len() >= STACK_LIMIT {
            return Err(Halt::StackOverflow);
        }
        self.words.push(word);
        Ok(())
    }

    /// Takes the top word off, unless the stack is empty.
    pub fn pop(&mut self) -> (result: Result<Word, Halt>)
        requires
            old(self).wf(),
        ensures
            final(self).wf(),
            old(self)@.len() > 0 ==> result == Ok::<Word, Halt>(old(self)@.last()) && final(self)@
                == old(self)@.drop_last(),
            old(self)@.len() == 0 ==> result == Err::<Word, Halt>(Halt::StackUnderflow)
                && final(self)@ == old(self)@,
    {
        match self.words.pop() {
            Some(word) => Ok(word),
            None => Err(Halt::StackUnderflow),
        }
    }

    /// The word that lies `depth` words below the top of a stack that is
    /// deeper than `depth`.
    pub fn at(&self, depth: usize) -> (word: &Word)
        requires
            depth < self@.len(),
        ensures
            *word == self.at_depth(depth as int),
    {
        let len = self.words.len();
        &self.words[len - 1 - depth]
    }

    /// The word that lies `depth` words below the top, if the stack is that
    /// deep.
    pub fn peek(&self, depth: usize) -> (result: Result<&Word, Halt>)
        ensures
            depth < self@.len() ==> result == Ok::<&Word, Halt>(&self.at_depth(depth as int)),
            depth >= self@.len() ==> result == Err::<&Word, Halt>(Halt::StackUnderflow),
    {
        if depth < self.words.len() {
            Ok(self.at(depth))
        } else {
            Err(Halt::StackUnderflow)
        }
    }

    /// A stack of second handles to the same words.
    pub fn duplicate(&self) -> (copy: Stack)
        requires
            self.wf(),
        ensures
            copy.wf(),
            same_values(copy@, self@),
    {
        let len = self.words.len();
        let mut words: Vec<Word> = Vec::new();
        let mut index: usize = 0;
        while index < len
            invariant
                len == self.words@.len(),
                index <= len,
                words@.len() == index,
                forall|i: int, m: Model|
                    0 <= i < index ==> #[trigger] words@[i].value(m) == self.words@[i].value(m),
            decreases len - index,
        {
            words.push(self.words[index].duplicate());
            index += 1;
        }
        Stack { words }
    }
}

/// Two sequences of words of one length whose words agree, place by place,
/// under every model.
pub open spec fn same_values(left: Seq<Word>, right: Seq<Word>) -> bool {
    &&& left.len() == right.len()
    &&& forall|i: int, m: Model|
        0 <= i < left.len() ==> #[trigger] left[i].value(m) == right[i].value(m)
}

} // verus!
