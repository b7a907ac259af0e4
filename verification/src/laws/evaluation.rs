//! The two evaluations: when they can run, and how their results relate.

use vstd::prelude::*;
use crate::event_graph::EventNode;
use crate::event_model::{Events, outcome, runs, single_valued};
use crate::laws::chains::lemma_chains_contained;

verus! {

/// A graph whose operations accept every state can be evaluated from every
/// event on every state.
pub proof fn lemma_total_accepts<T, F: Fn(T) -> T>(graph: Events<F>, n: EventNode, x: T)
    requires
        graph.is_dag(),
        graph.contains(n),
        graph.total::<T>(),
    ensures
        graph.accepts(n, x),
    decreases graph.rank(n),
{
    assert forall|y: T, k: int|
        #![trigger call_ensures(graph.operation(n), (x,), y), graph.followers(n)[k]]
        call_ensures(graph.operation(n), (x,), y) && 0 <= k < graph.followers(
            n,
        ).len() implies graph.accepts(graph.followers(n)[k], y) by {
        lemma_total_accepts(graph, graph.followers(n)[k], y);
    }
}

/// Where the graph can be evaluated from `n` on `x`, every chain from `n`
/// can be applied to `x`.
pub proof fn lemma_accepted_chains_run<T, F: Fn(T) -> T>(graph: Events<F>, n: EventNode, x: T)
    requires
        graph.is_dag(),
        graph.contains(n),
        graph.accepts(n, x),
    ensures
        forall|i: int|
            0 <= i < graph.chains(n).len() ==> runs(
                graph.chain_operations(#[trigger] graph.chains(n)[i]),
                x,
            ),
    decreases graph.rank(n), 1nat, 0nat,
{
    if graph.is_leaf(n) {
        let operations = graph.chain_operations(seq![n]);
        assert forall|y: T| #[trigger] call_ensures(operations[0], (x,), y) implies runs(
            operations.drop_first(),
            y,
        ) by {}
    } else {
        assert(graph.chains(n) == graph.fan_chains(n, graph.followers(n).len()));
        lemma_fan_accepted_chains_run(graph, n, graph.followers(n).len(), x);
    }
}

proof fn lemma_fan_accepted_chains_run<T, F: Fn(T) -> T>(
    graph: Events<F>,
    n: EventNode,
    k: nat,
    x: T,
)
    requires
        graph.is_dag(),
        graph.contains(n),
        graph.accepts(n, x),
        k <= graph.followers(n).len(),
    ensures
        forall|i: int|
            0 <= i < graph.fan_chains(n, k).len() ==> runs(
                graph.chain_operations(#[trigger] graph.fan_chains(n, k)[i]),
                x,
            ),
    decreases graph.rank(n), 0nat, k,
{
    if k > 0 {
        let branch = graph.followers(n)[k - 1];
        lemma_fan_accepted_chains_run(graph, n, (k - 1) as nat, x);
        let before = graph.fan_chains(n, (k - 1) as nat);
        assert forall|i: int| 0 <= i < graph.fan_chains(n, k).len() implies runs(
            graph.chain_operations(#[trigger] graph.fan_chains(n, k)[i]),
            x,
        ) by {
            if i >= before.len() {
                let rest = graph.chains(branch)[i - before.len()];
                let operations = graph.chain_operations(seq![n] + rest);
                assert(operations.drop_first() =~= graph.chain_operations(rest));
                assert forall|y: T| #[trigger]
                    call_ensures(operations[0], (x,), y) implies runs(
                    operations.drop_first(),
                    y,
                ) by {
                    lemma_accepted_chains_run(graph, branch, y);
                }
            }
        }
    }
}

/// Putting an operation in front of a chain of operations: what the chain
/// makes of a state that the operation can return for `x`, the longer chain
/// makes of `x`.
pub proof fn lemma_outcome_prepend<T, F: Fn(T) -> T>(
    operation: F,
    operations: Seq<F>,
    x: T,
    m: T,
    y: T,
)
    requires
        call_ensures(operation, (x,), m),
        outcome(operations, m, y),
    ensures
        outcome(seq![operation] + operations, x, y),
    decreases operations.len(),
{
    let longer = seq![operation] + operations;
    if operations.len() == 0 {
        assert(outcome(longer.drop_last(), x, x));
        assert(call_ensures(longer.last(), (x,), y));
    } else {
        let before = choose|before: T|
            outcome(operations.drop_last(), m, before) && #[trigger] call_ensures(
                operations.last(),
                (before,),
                y,
            );
        lemma_outcome_prepend(operation, operations.drop_last(), x, m, before);
        assert(longer.drop_last() =~= seq![operation] + operations.drop_last());
        assert(call_ensures(longer.last(), (before,), y));
    }
}

/// Applying one chain of operations after another is applying the two as one
/// chain: what `second` makes of a state that `first` can make of `x`, the
/// two in a row make of `x`.
pub proof fn lemma_outcome_join<T, F: Fn(T) -> T>(
    first: Seq<F>,
    second: Seq<F>,
    x: T,
    m: T,
    y: T,
)
    requires
        outcome(first, x, m),
        outcome(second, m, y),
    ensures
        outcome(first + second, x, y),
    decreases second.len(),
{
    if second.len() != 0 {
        let before = choose|before: T|
            outcome(second.drop_last(), m, before) && #[trigger] call_ensures(
                second.last(),
                (before,),
                y,
            );
        lemma_outcome_join(first, second.drop_last(), x, m, before);
        assert((first + second).drop_last() =~= first + second.drop_last());
        assert(call_ensures((first + second).last(), (before,), y));
    }
}

/// What two chains of operations in a row make of `x`, the second makes of
/// some state that the first can make of `x`.
pub proof fn lemma_outcome_split<T, F: Fn(T) -> T>(first: Seq<F>, second: Seq<F>, x: T, y: T)
    requires
        outcome(first + second, x, y),
    ensures
        exists|m: T| #[trigger] outcome(first, x, m) && outcome(second, m, y),
    decreases second.len(),
{
    if second.len() != 0 {
        let both = first + second;
        let before = choose|before: T|
            outcome(both.drop_last(), x, before) && #[trigger] call_ensures(
                both.last(),
                (before,),
                y,
            );
        assert(both.drop_last() =~= first + second.drop_last());
        lemma_outcome_split(first, second.drop_last(), x, before);
        assert(call_ensures(second.last(), (before,), y));
    }
}

/// A chain of single-valued operations makes one state only of each state.
pub proof fn lemma_outcome_unique<T, F: Fn(T) -> T>(operations: Seq<F>, x: T, y: T, z: T)
    requires
        forall|j: int|
            0 <= j < operations.len() ==> single_valued::<T, F>(#[trigger] operations[j]),
        outcome(operations, x, y),
        outcome(operations, x, z),
    ensures
        y == z,
    decreases operations.len(),
{
    if operations.len() > 0 {
        let before_y = choose|m: T|
            outcome(operations.drop_last(), x, m) && #[trigger] call_ensures(
                operations.last(),
                (m,),
                y,
            );
        let before_z = choose|m: T|
            outcome(operations.drop_last(), x, m) && #[trigger] call_ensures(
                operations.last(),
                (m,),
                z,
            );
        lemma_outcome_unique(operations.drop_last(), x, before_y, before_z);
    }
}

/// What a depth-first evaluation returns, a chain-by-chain evaluation can
/// return too: the results stand one for each chain, in the chains' order,
/// and each is an outcome of its chain's operations.
pub proof fn lemma_depth_results_by_chain<T, F: Fn(T) -> T>(
    graph: Events<F>,
    n: EventNode,
    x: T,
    results: Seq<T>,
)
    requires
        graph.is_dag(),
        graph.contains(n),
        graph.evaluates_to(n, x, results),
    ensures
        graph.evaluates_by_chain(n, x, results),
    decreases graph.rank(n), 1nat, 0nat,
{
    let y = choose|y: T| #[trigger]
        call_ensures(graph.operation(n), (x,), y) && if graph.is_leaf(n) {
            results == seq![y]
        } else {
            graph.fan_evaluates_to(n, graph.followers(n).len(), y, results)
        };
    if graph.is_leaf(n) {
        let operations = graph.chain_operations(seq![n]);
        assert(operations =~= seq![graph.operation(n)] + Seq::<F>::empty());
        lemma_outcome_prepend(graph.operation(n), Seq::<F>::empty(), x, y, y);
    } else {
        lemma_fan_depth_results_by_chain(graph, n, graph.followers(n).len(), x, y, results);
    }
}

proof fn lemma_fan_depth_results_by_chain<T, F: Fn(T) -> T>(
    graph: Events<F>,
    n: EventNode,
    k: nat,
    x: T,
    y: T,
    results: Seq<T>,
)
    requires
        graph.is_dag(),
        graph.contains(n),
        k <= graph.followers(n).len(),
        call_ensures(graph.operation(n), (x,), y),
        graph.fan_evaluates_to(n, k, y, results),
    ensures
        results.len() == graph.fan_chains(n, k).len(),
        forall|i: int|
            0 <= i < results.len() ==> outcome(
                graph.chain_operations(graph.fan_chains(n, k)[i]),
                x,
                #[trigger] results[i],
            ),
    decreases graph.rank(n), 0nat, k,
{
    if k > 0 {
        let branch = graph.followers(n)[k - 1];
        let (head, tail) = choose|head: Seq<T>, tail: Seq<T>|
            #![trigger head + tail]
            results == head + tail && graph.fan_evaluates_to(n, (k - 1) as nat, y, head)
                && graph.evaluates_to(graph.followers(n)[k - 1], y, tail);
        lemma_fan_depth_results_by_chain(graph, n, (k - 1) as nat, x, y, head);
        lemma_depth_results_by_chain(graph, branch, y, tail);
        let before = graph.fan_chains(n, (k - 1) as nat);
        assert forall|i: int| 0 <= i < results.len() implies outcome(
            graph.chain_operations(graph.fan_chains(n, k)[i]),
            x,
            #[trigger] results[i],
        ) by {
            if i >= before.len() {
                let rest = graph.chains(branch)[i - before.len()];
                assert(graph.chain_operations(seq![n] + rest) =~= seq![graph.operation(n)]
                    + graph.chain_operations(rest));
                lemma_outcome_prepend(
                    graph.operation(n),
                    graph.chain_operations(rest),
                    x,
                    y,
                    tail[i - before.len()],
                );
            }
        }
    }
}

/// Where every operation is single-valued, the depth-first evaluation and
/// the chain-by-chain evaluation of the same event on the same state return
/// the same states in the same order.
pub proof fn lemma_evaluations_agree<T, F: Fn(T) -> T>(
    graph: Events<F>,
    n: EventNode,
    x: T,
    by_depth: Seq<T>,
    by_chain: Seq<T>,
)
    requires
        graph.is_dag(),
        graph.contains(n),
        graph.deterministic::<T>(),
        graph.evaluates_to(n, x, by_depth),
        graph.evaluates_by_chain(n, x, by_chain),
    ensures
        by_depth == by_chain,
{
    lemma_depth_results_by_chain(graph, n, x, by_depth);
    lemma_chains_contained(graph, n);
    assert forall|i: int| 0 <= i < by_depth.len() implies by_depth[i] == by_chain[i] by {
        let chain = graph.chains(n)[i];
        let operations = graph.chain_operations(chain);
        lemma_outcome_unique(operations, x, by_depth[i], by_chain[i]);
    }
}

/// Where every operation is single-valued, each of the two evaluations can
/// return one sequence of states only for an event and a state.
pub proof fn lemma_results_determined<T, F: Fn(T) -> T>(
    graph: Events<F>,
    n: EventNode,
    x: T,
    one: Seq<T>,
    other: Seq<T>,
)
    requires
        graph.is_dag(),
        graph.contains(n),
        graph.deterministic::<T>(),
    ensures
        graph.evaluates_to(n, x, one) && graph.evaluates_to(n, x, other) ==> one == other,
        graph.evaluates_by_chain(n, x, one) && graph.evaluates_by_chain(n, x, other) ==> one
            == other,
{
    if graph.evaluates_to(n, x, one) && graph.evaluates_to(n, x, other) {
        lemma_depth_results_by_chain(graph, n, x, other);
        lemma_evaluations_agree(graph, n, x, one, other);
    }
    if graph.evaluates_by_chain(n, x, one) && graph.evaluates_by_chain(n, x, other) {
        lemma_chains_contained(graph, n);
        assert forall|i: int| 0 <= i < one.len() implies one[i] == other[i] by {
            let chain = graph.chains(n)[i];
            let operations = graph.chain_operations(chain);
            lemma_outcome_unique(operations, x, one[i], other[i]);
        }
    }
}

} // verus!
