//! The symbolic values of the machine: 256-bit words and the gas budget.

use crate::smt::{
    bool_not, bv_clone, bv_eq, bv_literal, bv_width, holds, int_clone, int_fresh, int_ge,
    int_literal, int_sub, int_takes, int_value, word_value, word_width, Model,
};
use vstd::prelude::*;

verus! {

/// The number of bits of a machine word.
pub const WORD_BITS: u32 = 256;

/// A machine word, possibly symbolic: a bit-vector term of 256 bits.
pub struct Word {
    term: z3::ast::BV,
}

impl Word {
    #[verifier::type_invariant]
    spec fn well_formed(&self) -> bool {
        word_width(self.term) == WORD_BITS
    }

    /// The term that stands for this word.
    pub closed spec fn term(&self) -> z3::ast::BV {
        self.term
    }

    /// The value of this word under a model.
    pub open spec fn value(&self, m: Model) -> nat {
        word_value(self.term(), m)
    }

    /// The word that is `value` under every model.
    pub fn from_u64(value: u64) -> (word: Word)
        ensures
            forall|m: Model| #[trigger] word.value(m) == value,
    {
        Word { term: bv_literal(value) }
    }

    /// The word that `term` stands for, where `term` has 256 bits.
    pub fn from_bv(term: z3::ast::BV) -> (word: Option<Word>)
        ensures
            word is Some <==> word_width(term) == WORD_BITS,
            word is Some ==> word.unwrap().term() == term,
    {
        if bv_width(&term) == WORD_BITS {
            Some(Word { term })
        } else {
            None
        }
    }

    /// The term that stands for this word.
    pub fn as_bv(&self) -> (term: &z3::ast::BV)
        ensures
            *term == self.term(),
            word_width(*term) == WORD_BITS,
    {
        proof {
            use_type_invariant(self);
        }
        &self.term
    }

    /// A second handle to the same word.
    pub fn duplicate(&self) -> (copy: Word)
        ensures
            forall|m: Model| #[trigger] copy.value(m) == self.value(m),
    {
        proof {
            use_type_invariant(self);
        }
        Word { term: bv_clone(&self.term) }
    }

    /// The formula that says that this word equals `other`.
    pub fn equals(&self, other: &Word) -> (formula: z3::ast::Bool)
        ensures
            forall|m: Model| #[trigger] holds(formula, m) == (self.value(m) == other.value(m)),
    {
        proof {
            use_type_invariant(self);
            use_type_invariant(other);
        }
        bv_eq(&self.term, &other.term)
    }
}

/// The gas that an execution has left: an integer term, which may be
/// negative under some models.
pub struct GasRemaining {
    term: z3::ast::Int,
}

impl GasRemaining {
    /// The term that stands for this budget.
    pub closed spec fn term(&self) -> z3::ast::Int {
        self.term
    }

    /// The gas left under a model.
    pub open spec fn value(&self, m: Model) -> int {
        int_value(self.term(), m)
    }

    /// The term that stands for this budget.
    pub fn as_int(&self) -> (term: &z3::ast::Int)
        ensures
            *term == self.term(),
    {
        &self.term
    }

    /// A budget of `amount` under every model.
    pub fn fixed(amount: u64) -> (gas: GasRemaining)
        ensures
            forall|m: Model| #[trigger] gas.value(m) == amount,
    {
        GasRemaining { term: int_literal(amount) }
    }

    /// A budget that is a symbolic input of its own: it can be any amount.
    pub fn unconstrained() -> (gas: GasRemaining)
        ensures
            forall|amount: int| #[trigger] gas.can_be(amount),
    {
        let gas = GasRemaining { term: int_fresh() };
        proof {
            assert forall|amount: int| #[trigger] gas.can_be(amount) by {
                assert(int_takes(gas.term, amount));
                let m = choose|m: Model| #[trigger] int_value(gas.term, m) == amount;
                assert(gas.value(m) == amount);
            }
        }
        gas
    }

    /// Whether the budget is `amount` under some model.
    pub open spec fn can_be(&self, amount: int) -> bool {
        exists|m: Model| #[trigger] self.value(m) == amount
    }

    /// A second handle to the same budget.
    pub fn duplicate(&self) -> (copy: GasRemaining)
        ensures
            forall|m: Model| #[trigger] copy.value(m) == self.value(m),
    {
        GasRemaining { term: int_clone(&self.term) }
    }

    /// Takes `cost` off the budget.
    pub fn deduct(&mut self, cost: u64)
        ensures
            forall|m: Model| #[trigger] final(self).value(m) == old(self).value(m) - cost,
    {
        let charge = int_literal(cost);
        self.term = int_sub(&self.term, &charge);
    }

    /// The formula that says that the budget covers `cost`.
    pub fn covers(&self, cost: u64) -> (formula: z3::ast::Bool)
        ensures
            forall|m: Model| #[trigger] holds(formula, m) == (self.value(m) >= cost),
    {
        let charge = int_literal(cost);
        int_ge(&self.term, &charge)
    }

    /// The formula that says that the budget does not cover `cost`.
    pub fn falls_short_of(&self, cost: u64) -> (formula: z3::ast::Bool)
        ensures
            forall|m: Model| #[trigger] holds(formula, m) == (self.value(m) < cost),
    {
        let covers = self.covers(cost);
        bool_not(&covers)
    }
}

} // verus!
