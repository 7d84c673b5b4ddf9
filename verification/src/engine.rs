//! The driver: it owns the program, its table of jump destinations, and the
//! live executions, each with the solver session of its path.

use crate::error::Error;
use crate::execution::Execution;
use crate::laws::{lemma_offered_respects_values, lemma_offered_run_is_feasible};
use crate::ops::successor;
use crate::outcome::{Halt, Offset, Outcome, OutcomeBuffer, Run};
use crate::program::{
    destinations_of, is_jump_target, lemma_destinations_of, JumpDestinations, Op,
};
use crate::query::inhabited;
use crate::smt::{solver_clone, solver_models, solver_new, solver_saved, Model};
use crate::stack::STACK_LIMIT;
use crate::storage::Storage;
use crate::word::{GasRemaining, Word};
use vstd::prelude::*;

verus! {

/// The instruction at `pc`. Past the end of the program the machine stops.
pub open spec fn op_at(program: Seq<Op>, pc: Offset) -> Op {
    if pc.0 < program.len() {
        program[pc.0 as int]
    } else {
        Op::Stop
    }
}

/// The outcomes of one execution, each with the execution's number.
pub open spec fn tagged(id: int, outcomes: Seq<Outcome>) -> Seq<(usize, Outcome)> {
    Seq::new(outcomes.len(), |i: int| (id as usize, outcomes[i]))
}

/// One path: an execution, the solver session that holds the path's
/// constraints, and the outcomes that were last offered for the execution
/// in its present state.
struct Path<S> {
    execution: Execution<S>,
    solver: z3::Solver,
    offered: OutcomeBuffer,
}

/// The engine.
pub struct ZEvm<S> {
    program: Vec<Op>,
    destinations: JumpDestinations,
    paths: Vec<Path<S>>,
}

impl<S> ZEvm<S> {
    /// The program.
    pub closed spec fn program(&self) -> Seq<Op> {
        self.program@
    }

    /// The valid jump targets, ascending.
    pub closed spec fn table(&self) -> Seq<Offset> {
        self.destinations@
    }

    /// The number of executions.
    pub closed spec fn count(&self) -> nat {
        self.paths@.len()
    }

    /// The execution with number `id`.
    pub closed spec fn execution_at(&self, id: int) -> Execution<S> {
        self.paths@[id].execution
    }

    /// The solver session of the execution with number `id`.
    pub closed spec fn solver_at(&self, id: int) -> z3::Solver {
        self.paths@[id].solver
    }

    /// The models that the path of execution `id` admits: those that satisfy
    /// every constraint committed on it.
    pub open spec fn models_at(&self, id: int) -> Set<Model> {
        solver_models(self.solver_at(id))
    }

    /// The outcomes that may be applied to execution `id`: those of the last
    /// enumeration, if the execution has not changed since.
    pub closed spec fn offered_at(&self, id: int) -> Seq<Outcome> {
        self.paths@[id].offered@
    }

    /// The instruction that execution `id` attempts next.
    pub open spec fn current_op(&self, id: int) -> Op {
        op_at(self.program(), self.execution_at(id).pc)
    }

    /// The outcomes that an enumeration finds for execution `id`.
    pub open spec fn enumerable(&self, id: int) -> Seq<Outcome> {
        self.current_op(id).offered(
            self.models_at(id),
            self.execution_at(id).gas_remaining,
            self.execution_at(id).stack@,
            self.table(),
        )
    }

    /// The outcomes that an enumeration finds for the executions below
    /// `upto` that have not halted, by execution and then in the order in
    /// which the instruction offers them.
    pub open spec fn listing(&self, upto: int) -> Seq<(usize, Outcome)>
        decreases upto,
    {
        if upto <= 0 {
            Seq::empty()
        } else if self.execution_at(upto - 1).halted {
            self.listing(upto - 1)
        } else {
            self.listing(upto - 1) + tagged(upto - 1, self.enumerable(upto - 1))
        }
    }

    /// Whether execution `id` is in order: it keeps within the program, its
    /// solver has no backtracking point open, and what is on offer for it is
    /// nothing or what an enumeration finds for it now.
    pub open spec fn path_wf(&self, id: int) -> bool {
        &&& self.execution_at(id).wf()
        &&& self.execution_at(id).pc.0 <= self.program().len()
        &&& solver_saved(self.solver_at(id)).len() == 0
        &&& (self.offered_at(id).len() == 0 || (!self.execution_at(id).halted
            && self.offered_at(id) == self.enumerable(id)))
    }

    /// The engine's invariant: the table is that of the program, and every
    /// execution is in order.
    pub open spec fn wf(&self) -> bool {
        &&& self.table() == destinations_of(self.program())
        &&& forall|id: int| 0 <= id < self.count() ==> self.path_wf(id)
    }

    /// The number of executions.
    pub fn len(&self) -> (count: usize)
        ensures
            count == self.count(),
    {
        self.paths.len()
    }

    /// The execution with number `id`, if there is one.
    pub fn execution(&self, id: usize) -> (execution: Option<&Execution<S>>)
        ensures
            id < self.count() ==> execution == Some(&self.execution_at(id as int)),
            id >= self.count() ==> execution is None,
    {
        if id < self.paths.len() {
            Some(&self.paths[id].execution)
        } else {
            None
        }
    }

    /// The solver session of the execution with number `id`, if there is one.
    pub fn solver(&self, id: usize) -> (solver: Option<&z3::Solver>)
        ensures
            id < self.count() ==> solver == Some(&self.solver_at(id as int)),
            id >= self.count() ==> solver is None,
    {
        if id < self.paths.len() {
            Some(&self.paths[id].solver)
        } else {
            None
        }
    }

    /// The outcomes on offer for the execution with number `id`, if there is
    /// one.
    pub fn offered(&self, id: usize) -> (offered: Option<&OutcomeBuffer>)
        ensures
            id < self.count() ==> offered is Some && offered.unwrap()@ == self.offered_at(
                id as int,
            ),
            id >= self.count() ==> offered is None,
    {
        if id < self.paths.len() {
            Some(&self.paths[id].offered)
        } else {
            None
        }
    }

    /// The table of valid jump targets.
    pub fn destinations(&self) -> (table: &JumpDestinations)
        ensures
            table@ == self.table(),
    {
        &self.destinations
    }

    /// The instruction at `pc`.
    fn instruction(&self, pc: Offset) -> (op: Op)
        ensures
            op == op_at(self.program(), pc),
    {
        if pc.0 < self.program.len() as u64 {
            self.program[pc.0 as usize]
        } else {
            Op::Stop
        }
    }
}

impl<S> ZEvm<S> {
    /// Whether execution `id` is in `after` as it is in `self`: the same
    /// execution, the same models, the same outcomes on offer.
    pub open spec fn same_path(&self, after: &ZEvm<S>, id: int) -> bool {
        &&& after.execution_at(id) == self.execution_at(id)
        &&& after.models_at(id) == self.models_at(id)
        &&& after.offered_at(id) == self.offered_at(id)
    }

    /// Whether `after` has the program, the table and the number of
    /// executions of `self`.
    pub open spec fn same_frame(&self, after: &ZEvm<S>) -> bool {
        &&& after.program() == self.program()
        &&& after.table() == self.table()
        &&& after.count() == self.count()
    }

    /// Puts `word` on the stack of execution `id`, unless that stack is
    /// full. What was on offer for the execution is withdrawn, since its
    /// state has changed.
    pub fn push(&mut self, id: usize, word: Word) -> (result: Result<(), Halt>)
        requires
            old(self).wf(),
            id < old(self).count(),
        ensures
            final(self).wf(),
            old(self).same_frame(final(self)),
            forall|other: int|
                0 <= other < old(self).count() && other != id ==> old(self).same_path(
                    final(self),
                    other,
                ),
            final(self).models_at(id as int) == old(self).models_at(id as int),
            final(self).execution_at(id as int).pc == old(self).execution_at(id as int).pc,
            final(self).execution_at(id as int).gas_remaining == old(self).execution_at(
                id as int,
            ).gas_remaining,
            final(self).execution_at(id as int).halted == old(self).execution_at(id as int).halted,
            final(self).execution_at(id as int).storage == old(self).execution_at(
                id as int,
            ).storage,
            old(self).execution_at(id as int).stack@.len() < STACK_LIMIT ==> {
                &&& result == Ok::<(), Halt>(())
                &&& final(self).execution_at(id as int).stack@ == old(self).execution_at(
                    id as int,
                ).stack@.push(word)
                &&& final(self).offered_at(id as int) == Seq::<Outcome>::empty()
            },
            old(self).execution_at(id as int).stack@.len() >= STACK_LIMIT ==> {
                &&& result == Err::<(), Halt>(Halt::StackOverflow)
                &&& old(self).same_path(final(self), id as int)
            },
    {
        assert(old(self).path_wf(id as int));
        if self.paths[id].execution.stack.len() >= STACK_LIMIT {
            return Err(Halt::StackOverflow);
        }
        let path = &mut self.paths[id];
        let result = path.execution.stack.push(word);
        path.offered = OutcomeBuffer::new();
        proof {
            assert forall|other: int| 0 <= other < self.count() implies self.path_wf(other) by {
                assert(old(self).path_wf(other));
            }
        }
        result
    }
}

impl<S: Storage> ZEvm<S> {
    /// Enumerates, for every execution that has not halted, what attempting
    /// its current instruction can lead to, and puts those outcomes on offer.
    /// No execution and no path constraint changes. Where the solver leaves
    /// a query undecided the enumeration fails as a whole, and what was on
    /// offer before stays on offer. It succeeds where no instruction takes a
    /// query.
    pub fn step(&mut self) -> (result: Result<Vec<(usize, Outcome)>, Error<S::Error>>)
        requires
            old(self).wf(),
        ensures
            final(self).wf(),
            old(self).same_frame(final(self)),
            forall|id: int|
                0 <= id < old(self).count() ==> {
                    &&& final(self).execution_at(id) == old(self).execution_at(id)
                    &&& final(self).models_at(id) == old(self).models_at(id)
                },
            result matches Ok(list) ==> {
                &&& list@ == old(self).listing(old(self).count() as int)
                &&& forall|id: int|
                    0 <= id < old(self).count() ==> final(self).offered_at(id) == (if old(
                        self,
                    ).execution_at(id).halted {
                        Seq::<Outcome>::empty()
                    } else {
                        old(self).enumerable(id)
                    })
            },
            result matches Err(error) ==> {
                &&& error == Error::<S::Error>::SolverInconclusive
                &&& forall|id: int|
                    0 <= id < old(self).count() ==> final(self).offered_at(id) == old(
                        self,
                    ).offered_at(id)
            },
            (forall|id: int|
                0 <= id < old(self).count() ==> old(self).execution_at(id).halted || !old(
                    self,
                ).current_op(id).asks_solver(#[trigger] old(self).execution_at(id).stack@))
                ==> result is Ok,
    {
        let count = self.paths.len();
        let mut list: Vec<(usize, Outcome)> = Vec::new();
        let mut found: Vec<OutcomeBuffer> = Vec::new();
        let mut id: usize = 0;
        proof {
            assert forall|other: int| 0 <= other < count implies solver_saved(
                self.solver_at(other),
            ).len() == 0 by {
                assert(old(self).path_wf(other));
            }
        }
        while id < count
            invariant
                count == old(self).count(),
                id <= count,
                old(self).wf(),
                old(self).same_frame(self),
                forall|other: int|
                    0 <= other < count ==> {
                        &&& self.execution_at(other) == old(self).execution_at(other)
                        &&& self.models_at(other) == old(self).models_at(other)
                        &&& self.offered_at(other) == old(self).offered_at(other)
                        &&& solver_saved(self.solver_at(other)).len() == 0
                    },
                list@ == old(self).listing(id as int),
                found@.len() == id,
                forall|other: int|
                    0 <= other < id ==> (#[trigger] found@[other])@ == (if old(self).execution_at(
                        other,
                    ).halted {
                        Seq::<Outcome>::empty()
                    } else {
                        old(self).enumerable(other)
                    }),
            decreases count - id,
        {
            assert(old(self).path_wf(id as int));
            if self.paths[id].execution.halted {
                found.push(OutcomeBuffer::new());
            } else {
                let op = self.instruction(self.paths[id].execution.pc);
                let path = &mut self.paths[id];
                let attempt = op.outcomes(&mut path.solver, &path.execution, &self.destinations);
                proof {
                    assert(solver_saved(self.solver_at(id as int)) =~= Seq::<
                        Set<Model>,
                    >::empty());
                }
                let buffer = match attempt {
                    Ok(buffer) => buffer,
                    Err(error) => {
                        proof {
                            assert forall|other: int|
                                0 <= other < self.count() implies self.path_wf(other) by {
                                assert(old(self).path_wf(other));
                            }
                        }
                        return Err(error);
                    },
                };
                let ghost before = list@;
                let len = buffer.len();
                let mut index: usize = 0;
                while index < len
                    invariant
                        len == buffer@.len(),
                        index <= len,
                        list@ == before + tagged(id as int, buffer@.take(index as int)),
                    decreases len - index,
                {
                    let outcome = buffer.get(index).unwrap();
                    list.push((id, outcome));
                    proof {
                        assert(list@ =~= before + tagged(id as int, buffer@.take(index + 1)));
                    }
                    index += 1;
                }
                proof {
                    assert(buffer@.take(len as int) =~= buffer@);
                }
                found.push(buffer);
            }
            id += 1;
        }
        while id > 0
            invariant
                count == old(self).count(),
                id <= count,
                old(self).wf(),
                old(self).same_frame(self),
                found@.len() == id,
                forall|other: int|
                    0 <= other < id ==> (#[trigger] found@[other])@ == (if old(self).execution_at(
                        other,
                    ).halted {
                        Seq::<Outcome>::empty()
                    } else {
                        old(self).enumerable(other)
                    }),
                forall|other: int|
                    0 <= other < count ==> {
                        &&& self.execution_at(other) == old(self).execution_at(other)
                        &&& self.models_at(other) == old(self).models_at(other)
                        &&& solver_saved(self.solver_at(other)).len() == 0
                    },
                forall|other: int|
                    0 <= other < id ==> self.offered_at(other) == old(self).offered_at(other),
                forall|other: int|
                    id <= other < count ==> self.offered_at(other) == (if old(self).execution_at(
                        other,
                    ).halted {
                        Seq::<Outcome>::empty()
                    } else {
                        old(self).enumerable(other)
                    }),
            decreases id,
        {
            id -= 1;
            let ghost installed = found@[id as int]@;
            let ghost earlier = *self;
            let buffer = found.pop().unwrap();
            let path = &mut self.paths[id];
            path.offered = buffer;
            proof {
                assert(self.offered_at(id as int) == installed);
                assert forall|other: int| id <= other < count implies self.offered_at(other) == (
                if old(self).execution_at(other).halted {
                    Seq::<Outcome>::empty()
                } else {
                    old(self).enumerable(other)
                }) by {
                    if other > id {
                        assert(self.paths@[other] == earlier.paths@[other]);
                        assert(self.offered_at(other) == earlier.offered_at(other));
                    } else {
                        assert(self.offered_at(other) == installed);
                    }
                }
            }
        }
        proof {
            assert forall|other: int| 0 <= other < self.count() implies self.path_wf(other) by {
                assert(old(self).path_wf(other));
            }
        }
        Ok(list)
    }
}

impl<S: Storage> ZEvm<S> {
    /// Why `outcome` cannot be applied to execution `id`, if it cannot: the
    /// execution has halted, or the outcome is not on offer for it. Nothing
    /// is on offer for an execution that does not exist.
    pub open spec fn refusal(&self, id: int, outcome: Outcome) -> Option<Error<S::Error>> {
        if !(0 <= id < self.count()) {
            Some(Error::AppliedOutcomeNotOffered)
        } else if self.execution_at(id).halted {
            Some(Error::AlreadyHalted)
        } else if !self.offered_at(id).contains(outcome) {
            Some(Error::AppliedOutcomeNotOffered)
        } else {
            None
        }
    }

    /// Whether `after` is what committing `outcome` makes of execution `id`.
    /// A halt sets the flag and changes nothing else. A run takes the
    /// instruction's operands off the stack, charges its cost, moves the
    /// program counter, and leaves on the path the models that meet what the
    /// run asserts.
    pub open spec fn committed(&self, after: &ZEvm<S>, id: int, outcome: Outcome) -> bool {
        let before = self.execution_at(id);
        let now = after.execution_at(id);
        let op = self.current_op(id);
        &&& now.storage == before.storage
        &&& after.offered_at(id) == Seq::<Outcome>::empty()
        &&& match outcome {
            Outcome::Halt(_) => {
                &&& now.halted
                &&& now.pc == before.pc
                &&& now.stack == before.stack
                &&& now.gas_remaining == before.gas_remaining
                &&& after.models_at(id) == self.models_at(id)
            },
            Outcome::Run(run) => {
                &&& !now.halted
                &&& now.pc == successor(run, before.pc)
                &&& now.stack@ == before.stack@.take(before.stack@.len() - op.pops())
                &&& forall|m: Model| #[trigger]
                    now.gas_remaining.value(m) == before.gas_remaining.value(m) - op.cost()
                &&& after.models_at(id) == Set::new(
                    |m: Model| self.models_at(id).contains(m) && op.commitment(run, before.stack@, m),
                )
            },
        }
    }

    /// Commits `outcome` for execution `id`. It is refused, and nothing
    /// changes, where the execution has halted or the outcome is not among
    /// those on offer for it. Otherwise the outcome is committed, and
    /// nothing stays on offer for the execution: of the outcomes of one
    /// enumeration only one can be applied to it. After a run, no model of
    /// the path contradicts what the run asserts.
    pub fn apply(&mut self, id: usize, outcome: Outcome) -> (result: Result<(), Error<S::Error>>)
        requires
            old(self).wf(),
        ensures
            final(self).wf(),
            old(self).same_frame(final(self)),
            forall|other: int|
                0 <= other < old(self).count() && other != id ==> old(self).same_path(
                    final(self),
                    other,
                ),
            old(self).refusal(id as int, outcome) matches Some(error) ==> {
                &&& result == Err::<(), Error<S::Error>>(error)
                &&& id < old(self).count() ==> old(self).same_path(final(self), id as int)
            },
            old(self).refusal(id as int, outcome) is None ==> {
                &&& result == Ok::<(), Error<S::Error>>(())
                &&& old(self).committed(final(self), id as int, outcome)
            },
            result is Ok ==> (outcome matches Outcome::Run(run) ==> forall|m: Model| #[trigger]
                final(self).models_at(id as int).contains(m) ==> old(self).current_op(
                    id as int,
                ).commitment(run, old(self).execution_at(id as int).stack@, m)),
            result is Ok ==> (outcome is Run ==> inhabited(final(self).models_at(id as int))),
    {
        if id >= self.paths.len() {
            return Err(Error::AppliedOutcomeNotOffered);
        }
        assert(old(self).path_wf(id as int));
        if self.paths[id].execution.halted {
            return Err(Error::AlreadyHalted);
        }
        if !self.paths[id].offered.contains(outcome) {
            return Err(Error::AppliedOutcomeNotOffered);
        }
        let op = self.instruction(self.paths[id].execution.pc);
        let size = self.program.len();
        let ghost before = self.execution_at(id as int);
        proof {
            assert(self.program().len() == size);
            lemma_destinations_of(self.program());
            if let Outcome::Run(run) = outcome {
                lemma_offered_run_is_feasible(
                    op,
                    self.models_at(id as int),
                    before.gas_remaining,
                    before.stack@,
                    self.table(),
                    run,
                );
                if let Run::Jump(target) = run {
                    assert(is_jump_target(self.program(), target));
                }
            }
        }
        let ghost witness = choose|m: Model| #[trigger]
            self.models_at(id as int).contains(m) && (outcome matches Outcome::Run(run)
                ==> op.commitment(run, before.stack@, m));
        let path = &mut self.paths[id];
        let result = match outcome {
            Outcome::Halt(_) => {
                path.execution.halted = true;
                Ok(())
            },
            Outcome::Run(run) => op.execute(&mut path.solver, run, &mut path.execution),
        };
        path.offered = OutcomeBuffer::new();
        proof {
            assert forall|other: int| 0 <= other < self.count() implies self.path_wf(other) by {
                assert(old(self).path_wf(other));
            }
            if outcome is Run {
                assert(self.models_at(id as int).contains(witness));
            }
        }
        result
    }
}

impl<S: Storage + Clone> ZEvm<S> {
    /// Forks execution `id`: a second execution is added that is in the same
    /// state, on a path with the same constraints, held in a solver session
    /// of its own, and with the same outcomes on offer. What is then
    /// committed on one of the two leaves the other as it is. The result is
    /// the number of the new execution, or nothing where there is no
    /// execution `id`.
    pub fn fork(&mut self, id: usize) -> (twin: Option<usize>)
        requires
            old(self).wf(),
        ensures
            final(self).wf(),
            final(self).program() == old(self).program(),
            final(self).table() == old(self).table(),
            forall|other: int|
                0 <= other < old(self).count() ==> old(self).same_path(final(self), other),
            id >= old(self).count() ==> twin is None && final(self).count() == old(self).count(),
            id < old(self).count() ==> {
                &&& twin == Some(old(self).count() as usize)
                &&& final(self).count() == old(self).count() + 1
                &&& final(self).execution_at(old(self).count() as int).same_state(
                    &old(self).execution_at(id as int),
                )
                &&& final(self).models_at(old(self).count() as int) == old(self).models_at(
                    id as int,
                )
                &&& final(self).offered_at(old(self).count() as int) == old(self).offered_at(
                    id as int,
                )
            },
    {
        let count = self.paths.len();
        if id >= count {
            return None;
        }
        assert(old(self).path_wf(id as int));
        let path = &self.paths[id];
        let twin = Path {
            execution: path.execution.duplicate(),
            solver: solver_clone(&path.solver),
            offered: path.offered.duplicate(),
        };
        self.paths.push(twin);
        proof {
            let from = old(self).execution_at(id as int);
            let to = self.execution_at(count as int);
            lemma_offered_respects_values(
                op_at(self.program(), from.pc),
                self.models_at(count as int),
                to.gas_remaining,
                from.gas_remaining,
                to.stack@,
                from.stack@,
                self.table(),
            );
            assert forall|other: int| 0 <= other < self.count() implies self.path_wf(other) by {
                if other < count {
                    assert(old(self).path_wf(other));
                    assert(self.paths@[other] == old(self).paths@[other]);
                }
            }
        }
        Some(count)
    }
}

/// What an engine is built from.
pub struct Builder<S> {
    program: Vec<Op>,
    gas: Option<u64>,
    storage: S,
}

impl<S> Builder<S> {
    /// The program that the engine will run.
    pub closed spec fn program(&self) -> Seq<Op> {
        self.program@
    }

    /// The gas that the execution starts with, if it is fixed.
    pub closed spec fn gas(&self) -> Option<u64> {
        self.gas
    }

    /// The storage backend that the execution starts with.
    pub closed spec fn storage(&self) -> S {
        self.storage
    }

    /// A builder for `program` over `storage`, with gas that is a symbolic
    /// input.
    pub fn new(program: Vec<Op>, storage: S) -> (builder: Builder<S>)
        ensures
            builder.program() == program@,
            builder.gas() == None::<u64>,
            builder.storage() == storage,
    {
        Builder { program, gas: None, storage }
    }

    /// Fixes the gas that the execution starts with.
    pub fn set_gas(self, gas: u64) -> (builder: Builder<S>)
        ensures
            builder.program() == self.program(),
            builder.gas() == Some(gas),
            builder.storage() == self.storage(),
    {
        Builder { program: self.program, gas: Some(gas), storage: self.storage }
    }

    /// The engine: the table of jump destinations is computed, and one
    /// execution stands at the start of the program, with an empty stack
    /// and a path that admits every model. Its gas is the amount that was
    /// fixed, or else a symbolic input that can be any amount.
    pub fn build(self) -> (evm: ZEvm<S>)
        ensures
            evm.wf(),
            evm.program() == self.program(),
            evm.table() == destinations_of(self.program()),
            evm.count() == 1,
            evm.execution_at(0).pc == Offset(0),
            evm.execution_at(0).stack@ == Seq::<Word>::empty(),
            evm.execution_at(0).storage == self.storage(),
            !evm.execution_at(0).halted,
            self.gas() matches Some(gas) ==> forall|m: Model| #[trigger]
                evm.execution_at(0).gas_remaining.value(m) == gas,
            self.gas() is None ==> forall|amount: int| #[trigger]
                evm.execution_at(0).gas_remaining.can_be(amount),
            evm.models_at(0) == Set::<Model>::full(),
            evm.offered_at(0) == Seq::<Outcome>::empty(),
    {
        let destinations = JumpDestinations::from_program(&self.program);
        let gas_remaining = match self.gas {
            Some(gas) => GasRemaining::fixed(gas),
            None => GasRemaining::unconstrained(),
        };
        let execution = Execution::new(gas_remaining, self.storage);
        let path = Path { execution, solver: solver_new(), offered: OutcomeBuffer::new() };
        let mut paths: Vec<Path<S>> = Vec::new();
        paths.push(path);
        ZEvm { program: self.program, destinations, paths }
    }
}

} // verus!
