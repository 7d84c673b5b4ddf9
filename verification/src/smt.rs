//! The boundary to the SMT solver.
//!
//! Terms and solver sessions are values of the `z3` crate, which Verus cannot
//! look into. This module declares those types, names what each of them
//! denotes, and wraps every `z3` function that the library calls. Nothing in
//! this module is proved: each contract restates what the solver's interface
//! promises, over the names below.

use vstd::prelude::*;

verus! {

#[verifier::external_type_specification]
#[verifier::external_body]
pub struct ExBool(z3::ast::Bool);

#[verifier::external_type_specification]
#[verifier::external_body]
pub struct ExBV(z3::ast::BV);

#[verifier::external_type_specification]
#[verifier::external_body]
pub struct ExInt(z3::ast::Int);

#[verifier::external_type_specification]
#[verifier::external_body]
pub struct ExSolver(z3::Solver);

/// A concrete instantiation of the symbolic inputs: the value of every
/// uninterpreted constant, by its name.
pub ghost struct Model {
    pub constants: Map<Seq<char>, int>,
}

/// The unsigned value that a bit-vector term takes under a model.
pub uninterp spec fn word_value(term: z3::ast::BV, m: Model) -> nat;

/// The number of bits of a bit-vector term's sort.
pub uninterp spec fn word_width(term: z3::ast::BV) -> nat;

/// The value that an integer term takes under a model.
pub uninterp spec fn int_value(term: z3::ast::Int, m: Model) -> int;

/// Whether a Boolean term is true under a model.
pub uninterp spec fn holds(term: z3::ast::Bool, m: Model) -> bool;

/// The models that satisfy every assertion a solver currently holds.
pub uninterp spec fn solver_models(solver: z3::Solver) -> Set<Model>;

/// For each backtracking point of a solver that is still open, oldest first,
/// the models that satisfied its assertions when the point was created.
pub uninterp spec fn solver_saved(solver: z3::Solver) -> Seq<Set<Model>>;

/// The answer of a satisfiability query.
#[derive(Clone, Copy, PartialEq, Eq, Debug, Structural)]
pub enum Answer {
    /// Some model satisfies the query.
    Sat,
    /// No model satisfies the query.
    Unsat,
    /// The solver gave up: nothing is known.
    Unknown,
}

/// The models of `models` under which `term` is true.
pub open spec fn narrowed(models: Set<Model>, term: z3::ast::Bool) -> Set<Model> {
    Set::new(|m: Model| models.contains(m) && holds(term, m))
}

/// `z3::ast::BV::from_u64` at 256 bits: a numeral, whose value is `value`
/// under every model.
#[verifier::external_body]
pub(crate) fn bv_literal(value: u64) -> (term: z3::ast::BV)
    ensures
        word_width(term) == 256,
        forall|m: Model| #[trigger] word_value(term, m) == value,
{
    z3::ast::BV::from_u64(value, 256)
}

/// `z3::ast::BV::get_size`: the width of the term's sort.
#[verifier::external_body]
pub(crate) fn bv_width(term: &z3::ast::BV) -> (bits: u32)
    ensures
        bits == word_width(*term),
{
    term.get_size()
}

/// `Clone` of `z3::ast::BV`: a second handle to the same term.
#[verifier::external_body]
pub(crate) fn bv_clone(term: &z3::ast::BV) -> (copy: z3::ast::BV)
    ensures
        word_width(copy) == word_width(*term),
        forall|m: Model| #[trigger] word_value(copy, m) == word_value(*term, m),
{
    term.clone()
}

/// `z3::ast::BV::eq`: the equation of two terms of one sort. It panics where
/// the sorts differ, which the precondition leaves out.
#[verifier::external_body]
pub(crate) fn bv_eq(left: &z3::ast::BV, right: &z3::ast::BV) -> (term: z3::ast::Bool)
    requires
        word_width(*left) == word_width(*right),
    ensures
        forall|m: Model| #[trigger]
            holds(term, m) == (word_value(*left, m) == word_value(*right, m)),
{
    left.eq(right)
}

/// `z3::ast::Bool::from_bool`: the constant `true` or `false`.
#[verifier::external_body]
pub(crate) fn bool_literal(value: bool) -> (term: z3::ast::Bool)
    ensures
        forall|m: Model| #[trigger] holds(term, m) == value,
{
    z3::ast::Bool::from_bool(value)
}

/// `z3::ast::Bool::not`: the negation.
#[verifier::external_body]
pub(crate) fn bool_not(operand: &z3::ast::Bool) -> (term: z3::ast::Bool)
    ensures
        forall|m: Model| #[trigger] holds(term, m) == !holds(*operand, m),
{
    operand.not()
}

/// `z3::ast::Bool::and` of two terms: the conjunction.
#[verifier::external_body]
pub(crate) fn bool_and(left: &z3::ast::Bool, right: &z3::ast::Bool) -> (term: z3::ast::Bool)
    ensures
        forall|m: Model| #[trigger] holds(term, m) == (holds(*left, m) && holds(*right, m)),
{
    z3::ast::Bool::and(&[left, right])
}

/// `z3::ast::Int::from_u64`: a numeral, whose value is `value` under every
/// model.
#[verifier::external_body]
pub(crate) fn int_literal(value: u64) -> (term: z3::ast::Int)
    ensures
        forall|m: Model| #[trigger] int_value(term, m) == value,
{
    z3::ast::Int::from_u64(value)
}

/// Whether an integer term takes `value` under some model.
pub open spec fn int_takes(term: z3::ast::Int, value: int) -> bool {
    exists|m: Model| #[trigger] int_value(term, m) == value
}

/// `z3::ast::Int::fresh_const`: a new uninterpreted constant. A model is free
/// to give such a constant any value, so the term takes every integer under
/// some model. Which constant it is depends on what was made before, and
/// nothing is promised of that.
#[verifier::external_body]
pub(crate) fn int_fresh() -> (term: z3::ast::Int)
    ensures
        forall|value: int| #[trigger] int_takes(term, value),
{
    z3::ast::Int::fresh_const("gas")
}

/// `Clone` of `z3::ast::Int`: a second handle to the same term.
#[verifier::external_body]
pub(crate) fn int_clone(term: &z3::ast::Int) -> (copy: z3::ast::Int)
    ensures
        forall|m: Model| #[trigger] int_value(copy, m) == int_value(*term, m),
{
    term.clone()
}

/// `z3::ast::Int::ge`: the comparison `left >= right`.
#[verifier::external_body]
pub(crate) fn int_ge(left: &z3::ast::Int, right: &z3::ast::Int) -> (term: z3::ast::Bool)
    ensures
        forall|m: Model| #[trigger]
            holds(term, m) == (int_value(*left, m) >= int_value(*right, m)),
{
    left.ge(right)
}

/// `z3::ast::Int::sub` of two terms: the difference `left - right`.
#[verifier::external_body]
pub(crate) fn int_sub(left: &z3::ast::Int, right: &z3::ast::Int) -> (term: z3::ast::Int)
    ensures
        forall|m: Model| #[trigger]
            int_value(term, m) == int_value(*left, m) - int_value(*right, m),
{
    z3::ast::Int::sub(&[left, right])
}

/// `z3::Solver::new`: a solver without assertions and without open
/// backtracking points.
#[verifier::external_body]
pub(crate) fn solver_new() -> (solver: z3::Solver)
    ensures
        solver_models(solver) == Set::<Model>::full(),
        solver_saved(solver) == Seq::<Set<Model>>::empty(),
{
    z3::Solver::new()
}

/// `Clone` of `z3::Solver`: an independent solver with the same assertions.
/// Z3 refuses to copy a solver inside an open backtracking point, which the
/// precondition leaves out.
#[verifier::external_body]
pub(crate) fn solver_clone(solver: &z3::Solver) -> (copy: z3::Solver)
    requires
        solver_saved(*solver).len() == 0,
    ensures
        solver_models(copy) == solver_models(*solver),
        solver_saved(copy) == solver_saved(*solver),
{
    solver.clone()
}

/// `z3::Solver::assert`: adds one assertion at the current level.
#[verifier::external_body]
pub(crate) fn solver_assert(solver: &mut z3::Solver, term: &z3::ast::Bool)
    ensures
        solver_models(*final(solver)) == narrowed(solver_models(*old(solver)), *term),
        solver_saved(*final(solver)) == solver_saved(*old(solver)),
{
    solver.assert(term)
}

/// `z3::Solver::push`: opens a backtracking point.
#[verifier::external_body]
pub(crate) fn solver_push(solver: &mut z3::Solver)
    ensures
        solver_models(*final(solver)) == solver_models(*old(solver)),
        solver_saved(*final(solver)) == solver_saved(*old(solver)).push(
            solver_models(*old(solver)),
        ),
{
    solver.push()
}

/// `z3::Solver::pop` of one level: drops what was asserted since the newest
/// open backtracking point, and closes it.
#[verifier::external_body]
pub(crate) fn solver_pop(solver: &mut z3::Solver)
    requires
        solver_saved(*old(solver)).len() > 0,
    ensures
        solver_models(*final(solver)) == solver_saved(*old(solver)).last(),
        solver_saved(*final(solver)) == solver_saved(*old(solver)).drop_last(),
{
    solver.pop(1)
}

/// `z3::Solver::check`: `Sat` only if some model satisfies the assertions,
/// `Unsat` only if none does.
#[verifier::external_body]
pub(crate) fn solver_check(solver: &z3::Solver) -> (answer: Answer)
    ensures
        answer == Answer::Sat ==> exists|m: Model| #[trigger] solver_models(*solver).contains(m),
        answer == Answer::Unsat ==> forall|m: Model| !#[trigger] solver_models(*solver).contains(m),
{
    match solver.check() {
        z3::SatResult::Sat => Answer::Sat,
        z3::SatResult::Unsat => Answer::Unsat,
        z3::SatResult::Unknown => Answer::Unknown,
    }
}

/// `z3::Solver::check_assumptions` with one assumption: `Sat` only if some
/// model satisfies the assertions and the assumption, `Unsat` only if none
/// does. The assertions stay as they were.
#[verifier::external_body]
pub(crate) fn solver_check_assuming(solver: &z3::Solver, assumption: &z3::ast::Bool) -> (answer:
    Answer)
    ensures
        answer == Answer::Sat ==> exists|m: Model| #[trigger]
            solver_models(*solver).contains(m) && holds(*assumption, m),
        answer == Answer::Unsat ==> forall|m: Model| #[trigger]
            solver_models(*solver).contains(m) ==> !holds(*assumption, m),
{
    match solver.check_assumptions(std::slice::from_ref(assumption)) {
        z3::SatResult::Sat => Answer::Sat,
        z3::SatResult::Unsat => Answer::Unsat,
        z3::SatResult::Unknown => Answer::Unknown,
    }
}

} // verus!
