//! What holds of every enumeration and of every commit.

use crate::engine::ZEvm;
use crate::ops::jumpi::{
    can_fall_through, can_land, can_miss, destination, falls_through, jumping, jumps, lands_on,
    lemma_reachable_targets, misses, reachable_targets,
};
use crate::ops::{can_afford, can_run_dry, jumpdest, jumpi};
use crate::outcome::{Offset, Outcome, Run};
use crate::program::{strictly_ascending, Op};
use crate::query::satisfiable;
use crate::smt::{holds, Model};
use crate::stack::same_values;
use crate::word::{GasRemaining, Word};
use vstd::prelude::*;

verus! {

/// Coverage: whatever model the path admits, one of the outcomes that the
/// instruction offers stands for it.
pub proof fn lemma_outcomes_cover(
    op: Op,
    path: Set<Model>,
    gas: GasRemaining,
    stack: Seq<Word>,
    table: Seq<Offset>,
    m: Model,
)
    requires
        path.contains(m),
    ensures
        exists|i: int|
            0 <= i < op.offered(path, gas, stack, table).len() && op.region(
                #[trigger] op.offered(path, gas, stack, table)[i],
                gas,
                stack,
                table,
                m,
            ),
{
    let offered = op.offered(path, gas, stack, table);
    match op {
        Op::Stop => {
            assert(op.region(offered[0], gas, stack, table, m));
        },
        Op::JumpDest => {
            if gas.value(m) < jumpdest::GAS_COST {
                assert(can_run_dry(path, gas, jumpdest::GAS_COST));
                assert(op.region(offered[0], gas, stack, table, m));
            } else {
                assert(can_afford(path, gas, jumpdest::GAS_COST));
                assert(op.region(offered[offered.len() - 1], gas, stack, table, m));
            }
        },
        Op::JumpI => {
            if stack.len() < 2 {
                assert(op.region(offered[0], gas, stack, table, m));
            } else if gas.value(m) < jumpi::GAS_COST {
                assert(can_run_dry(path, gas, jumpi::GAS_COST));
                assert(op.region(offered[0], gas, stack, table, m));
            } else {
                assert(can_afford(path, gas, jumpi::GAS_COST));
                let scope = jumping(path, stack);
                let dry = offered.len() - jumpi::branches(path, stack, table).len();
                let word = destination(stack);
                let reached = reachable_targets(scope, word, table);
                let invalid: int = if can_miss(scope, word, table) {
                    1
                } else {
                    0
                };
                if falls_through(stack, m) {
                    assert(can_fall_through(path, stack));
                    assert(op.region(offered[offered.len() - 1], gas, stack, table, m));
                } else {
                    assert(scope.contains(m));
                    if misses(word, table, m) {
                        assert(can_miss(scope, word, table));
                        assert(op.region(offered[dry], gas, stack, table, m));
                    } else {
                        let k = choose|k: int| 0 <= k < table.len() && lands_on(word, table[k], m);
                        assert(table.contains(table[k]));
                        assert(can_land(scope, word, table[k]));
                        lemma_reachable_targets(scope, word, table);
                        assert(reached.contains(table[k]));
                        let j = choose|j: int| 0 <= j < reached.len() && reached[j] == table[k];
                        assert(jumps(reached)[j] == Outcome::Run(Run::Jump(table[k])));
                        assert(offered[dry + invalid + j] == Outcome::Run(Run::Jump(table[k])));
                        assert(op.region(offered[dry + invalid + j], gas, stack, table, m));
                    }
                }
            }
        },
    }
}

/// Coverage of a step: for every execution that has not halted, and for
/// whatever model its path admits, the step lists under the execution's
/// number an outcome that stands for that model.
pub proof fn lemma_listing_covers<S>(evm: ZEvm<S>, upto: int, id: int, m: Model)
    requires
        0 <= id < upto <= evm.count(),
        upto <= usize::MAX,
        !evm.execution_at(id).halted,
        evm.models_at(id).contains(m),
    ensures
        exists|k: int|
            0 <= k < evm.listing(upto).len() && (#[trigger] evm.listing(upto)[k]).0 == id
                && evm.current_op(id).region(
                evm.listing(upto)[k].1,
                evm.execution_at(id).gas_remaining,
                evm.execution_at(id).stack@,
                evm.table(),
                m,
            ),
    decreases upto,
{
    let gas = evm.execution_at(id).gas_remaining;
    let stack = evm.execution_at(id).stack@;
    let before = evm.listing(upto - 1);
    if id == upto - 1 {
        let found = evm.enumerable(id);
        lemma_outcomes_cover(evm.current_op(id), evm.models_at(id), gas, stack, evm.table(), m);
        let i = choose|i: int|
            0 <= i < found.len() && evm.current_op(id).region(
                #[trigger] found[i],
                gas,
                stack,
                evm.table(),
                m,
            );
        assert(evm.listing(upto)[before.len() + i] == (id as usize, found[i]));
    } else {
        lemma_listing_covers(evm, upto - 1, id, m);
        let k = choose|k: int|
            0 <= k < before.len() && (#[trigger] before[k]).0 == id && evm.current_op(id).region(
                before[k].1,
                gas,
                stack,
                evm.table(),
                m,
            );
        assert(evm.listing(upto)[k] == before[k]);
    }
}

/// Two different outcomes never stand for the same model.
pub proof fn lemma_regions_disjoint(
    op: Op,
    first: Outcome,
    second: Outcome,
    gas: GasRemaining,
    stack: Seq<Word>,
    table: Seq<Offset>,
    m: Model,
)
    requires
        first != second,
    ensures
        !(op.region(first, gas, stack, table, m) && op.region(second, gas, stack, table, m)),
{
    if op.region(first, gas, stack, table, m) && op.region(second, gas, stack, table, m) {
        if op == Op::JumpI {
            let word = destination(stack);
            if let Outcome::Run(Run::Jump(target)) = first {
                let k = choose|k: int| 0 <= k < table.len() && table[k] == target;
                assert(lands_on(word, table[k], m));
            }
            if let Outcome::Run(Run::Jump(target)) = second {
                let k = choose|k: int| 0 <= k < table.len() && table[k] == target;
                assert(lands_on(word, table[k], m));
            }
        }
    }
}

/// The reachable targets of a strictly ascending table are strictly
/// ascending.
pub proof fn lemma_reachable_targets_ascending(
    scope: Set<Model>,
    word: Word,
    table: Seq<Offset>,
)
    requires
        strictly_ascending(table),
    ensures
        strictly_ascending(reachable_targets(scope, word, table)),
    decreases table.len(),
{
    if table.len() > 0 {
        let shorter = table.drop_last();
        let before = reachable_targets(scope, word, shorter);
        lemma_reachable_targets_ascending(scope, word, shorter);
        lemma_reachable_targets(scope, word, shorter);
        assert forall|i: int| 0 <= i < before.len() implies (#[trigger] before[i]).0
            < table.last().0 by {
            assert(before.contains(before[i]));
            assert(shorter.contains(before[i]));
            let j = choose|j: int| 0 <= j < shorter.len() && shorter[j] == before[i];
            assert(table[j] == before[i]);
        }
    }
}

/// No outcome is offered twice, where the table of jump targets is strictly
/// ascending.
pub proof fn lemma_offered_once(
    op: Op,
    path: Set<Model>,
    gas: GasRemaining,
    stack: Seq<Word>,
    table: Seq<Offset>,
)
    requires
        strictly_ascending(table),
    ensures
        op.offered(path, gas, stack, table).no_duplicates(),
{
    let offered = op.offered(path, gas, stack, table);
    if op == Op::JumpI && stack.len() >= 2 {
        let scope = jumping(path, stack);
        let word = destination(stack);
        let reached = reachable_targets(scope, word, table);
        lemma_reachable_targets_ascending(scope, word, table);
        let dry: int = if can_run_dry(path, gas, jumpi::GAS_COST) {
            1
        } else {
            0
        };
        let invalid: int = if can_miss(scope, word, table) {
            1
        } else {
            0
        };
        if can_afford(path, gas, jumpi::GAS_COST) {
            assert forall|i: int, j: int|
                0 <= i < offered.len() && 0 <= j < offered.len() && i != j implies offered[i]
                != offered[j] by {
                let first = dry + invalid;
                if first <= i < first + reached.len() {
                    assert(offered[i] == Outcome::Run(Run::Jump(reached[i - first])));
                }
                if first <= j < first + reached.len() {
                    assert(offered[j] == Outcome::Run(Run::Jump(reached[j - first])));
                }
            }
        }
    }
}

/// Without overlap: two outcomes offered at different places never stand for
/// the same model, where the table of jump targets is strictly ascending.
pub proof fn lemma_outcomes_do_not_overlap(
    op: Op,
    path: Set<Model>,
    gas: GasRemaining,
    stack: Seq<Word>,
    table: Seq<Offset>,
    m: Model,
    i: int,
    j: int,
)
    requires
        strictly_ascending(table),
        0 <= i < op.offered(path, gas, stack, table).len(),
        0 <= j < op.offered(path, gas, stack, table).len(),
        i != j,
    ensures
        !(op.region(op.offered(path, gas, stack, table)[i], gas, stack, table, m) && op.region(
            op.offered(path, gas, stack, table)[j],
            gas,
            stack,
            table,
            m,
        )),
{
    let offered = op.offered(path, gas, stack, table);
    lemma_offered_once(op, path, gas, stack, table);
    lemma_regions_disjoint(op, offered[i], offered[j], gas, stack, table, m);
}

/// Every run that is offered can be committed: the instruction accepts it, a
/// jump goes to a valid target, and some model of the path meets what
/// committing it asserts.
pub proof fn lemma_offered_run_is_feasible(
    op: Op,
    path: Set<Model>,
    gas: GasRemaining,
    stack: Seq<Word>,
    table: Seq<Offset>,
    run: Run,
)
    requires
        op.offered(path, gas, stack, table).contains(Outcome::Run(run)),
    ensures
        op.accepts(run, stack),
        run matches Run::Jump(target) ==> table.contains(target),
        exists|m: Model| #[trigger] path.contains(m) && op.commitment(run, stack, m),
{
    let offered = op.offered(path, gas, stack, table);
    let at = choose|i: int| 0 <= i < offered.len() && offered[i] == Outcome::Run(run);
    match op {
        Op::Stop => {},
        Op::JumpDest => {
            if can_afford(path, gas, jumpdest::GAS_COST) {
                let m = choose|m: Model| #[trigger] path.contains(m) && gas.value(m) >= jumpdest::GAS_COST;
                assert(path.contains(m) && op.commitment(run, stack, m));
            }
        },
        Op::JumpI => {
            let scope = jumping(path, stack);
            let word = destination(stack);
            let reached = reachable_targets(scope, word, table);
            let dry: int = if can_run_dry(path, gas, jumpi::GAS_COST) {
                1
            } else {
                0
            };
            let invalid: int = if can_miss(scope, word, table) {
                1
            } else {
                0
            };
            let first = dry + invalid;
            if first <= at < first + reached.len() {
                let target = reached[at - first];
                assert(offered[at] == Outcome::Run(Run::Jump(target)));
                lemma_reachable_targets(scope, word, table);
                assert(reached.contains(target));
                let m = choose|m: Model| #[trigger]
                    scope.contains(m) && lands_on(word, target, m);
                assert(path.contains(m) && op.commitment(run, stack, m));
            } else {
                assert(run == Run::Advance);
                let m = choose|m: Model| #[trigger] path.contains(m) && falls_through(stack, m);
                assert(path.contains(m) && op.commitment(run, stack, m));
            }
        },
    }
}

/// The reachable targets depend on the destination only through its values.
proof fn lemma_reachable_targets_respect_values(
    scope: Set<Model>,
    word: Word,
    other: Word,
    table: Seq<Offset>,
)
    requires
        forall|m: Model| #[trigger] word.value(m) == other.value(m),
    ensures
        reachable_targets(scope, word, table) == reachable_targets(scope, other, table),
        can_miss(scope, word, table) == can_miss(scope, other, table),
    decreases table.len(),
{
    if table.len() > 0 {
        lemma_reachable_targets_respect_values(scope, word, other, table.drop_last());
        let target = table.last();
        if can_land(scope, word, target) {
            let m = choose|m: Model| #[trigger] scope.contains(m) && lands_on(word, target, m);
            assert(scope.contains(m) && lands_on(other, target, m));
        }
        if can_land(scope, other, target) {
            let m = choose|m: Model| #[trigger] scope.contains(m) && lands_on(other, target, m);
            assert(scope.contains(m) && lands_on(word, target, m));
        }
    }
    if can_miss(scope, word, table) {
        let m = choose|m: Model| #[trigger] scope.contains(m) && misses(word, table, m);
        assert(scope.contains(m) && misses(other, table, m));
    }
    if can_miss(scope, other, table) {
        let m = choose|m: Model| #[trigger] scope.contains(m) && misses(other, table, m);
        assert(scope.contains(m) && misses(word, table, m));
    }
}

/// What an instruction offers depends on the gas and on the words of the
/// stack only through their values: two states that agree under every model
/// are offered the same outcomes.
pub proof fn lemma_offered_respects_values(
    op: Op,
    path: Set<Model>,
    gas: GasRemaining,
    other_gas: GasRemaining,
    stack: Seq<Word>,
    other_stack: Seq<Word>,
    table: Seq<Offset>,
)
    requires
        same_values(stack, other_stack),
        forall|m: Model| #[trigger] gas.value(m) == other_gas.value(m),
    ensures
        op.offered(path, gas, stack, table) == op.offered(path, other_gas, other_stack, table),
{
    assert forall|cost: u64|
        can_run_dry(path, gas, cost) == can_run_dry(path, other_gas, cost) && can_afford(
            path,
            gas,
            cost,
        ) == can_afford(path, other_gas, cost) by {
        if can_run_dry(path, gas, cost) {
            let m = choose|m: Model| #[trigger] path.contains(m) && gas.value(m) < cost;
            assert(path.contains(m) && other_gas.value(m) < cost);
        }
        if can_run_dry(path, other_gas, cost) {
            let m = choose|m: Model| #[trigger] path.contains(m) && other_gas.value(m) < cost;
            assert(path.contains(m) && gas.value(m) < cost);
        }
        if can_afford(path, gas, cost) {
            let m = choose|m: Model| #[trigger] path.contains(m) && gas.value(m) >= cost;
            assert(path.contains(m) && other_gas.value(m) >= cost);
        }
        if can_afford(path, other_gas, cost) {
            let m = choose|m: Model| #[trigger] path.contains(m) && other_gas.value(m) >= cost;
            assert(path.contains(m) && gas.value(m) >= cost);
        }
    }
    if op == Op::JumpI && stack.len() >= 2 {
        assert(jumping(path, stack) =~= jumping(path, other_stack));
        lemma_reachable_targets_respect_values(
            jumping(path, stack),
            destination(stack),
            destination(other_stack),
            table,
        );
        if can_fall_through(path, stack) {
            let m = choose|m: Model| #[trigger] path.contains(m) && falls_through(stack, m);
            assert(path.contains(m) && falls_through(other_stack, m));
        }
        if can_fall_through(path, other_stack) {
            let m = choose|m: Model| #[trigger]
                path.contains(m) && falls_through(other_stack, m);
            assert(path.contains(m) && falls_through(stack, m));
        }
    }
}

/// Exclusivity of a commit: on the path that committing `run` leaves, a
/// formula that contradicts what the run asserts is unsatisfiable, so a
/// query for it finds nothing.
pub proof fn lemma_commit_excludes_negation(
    op: Op,
    run: Run,
    stack: Seq<Word>,
    before: Set<Model>,
    after: Set<Model>,
    negation: z3::ast::Bool,
)
    requires
        after == Set::new(|m: Model| before.contains(m) && op.commitment(run, stack, m)),
        forall|m: Model| #[trigger] holds(negation, m) == !op.commitment(run, stack, m),
    ensures
        !satisfiable(after, negation),
{
}

/// Determinism of one enumeration: an enumeration leaves the path as it was,
/// so a second one on the same state is offered the same outcomes in the
/// same order. `first` and `second` are what the two return, `between` are
/// the models of the path after the first.
pub proof fn lemma_enumeration_is_deterministic(
    op: Op,
    path: Set<Model>,
    between: Set<Model>,
    gas: GasRemaining,
    stack: Seq<Word>,
    table: Seq<Offset>,
    first: Seq<Outcome>,
    second: Seq<Outcome>,
)
    requires
        first == op.offered(path, gas, stack, table),
        between == path,
        second == op.offered(between, gas, stack, table),
    ensures
        first == second,
{
}

/// Determinism of a step: what a step lists depends on the program, on the
/// executions and on the models of their paths alone, all of which a step
/// leaves as they were. So two steps in a row list the same outcomes in the
/// same order.
pub proof fn lemma_listing_is_deterministic<S>(first: ZEvm<S>, second: ZEvm<S>, upto: int)
    requires
        first.same_frame(&second),
        upto <= first.count(),
        forall|id: int|
            0 <= id < upto ==> {
                &&& second.execution_at(id) == first.execution_at(id)
                &&& second.models_at(id) == first.models_at(id)
            },
    ensures
        first.listing(upto) == second.listing(upto),
    decreases upto,
{
    if upto > 0 {
        lemma_listing_is_deterministic(first, second, upto - 1);
    }
}

} // verus!
