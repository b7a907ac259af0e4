//! Graphs that hold the events of another graph: what the walks and the
//! evaluations of the one are in the other.

use vstd::prelude::*;
use crate::event_graph::EventNode;
use crate::event_model::{Events, prefixed, shifted, shifted_chains};
use crate::laws::acyclic::lemma_absorb_is_dag;
use crate::laws::chains::lemma_chains_contained;

verus! {

/// A graph that takes in another one holds its own events as they were, and
/// the events of the other one behind them.
pub proof fn lemma_absorb_embeds<F>(graph: Events<F>, other: Events<F>)
    requires
        graph.len() + other.len() <= usize::MAX,
    ensures
        graph.kept_in(graph.absorb(other)),
        other.embedded_in(graph.absorb(other), graph.len()),
{
}

/// A graph that gains events without followers holds its own events as
/// they were.
pub proof fn lemma_with_node_keeps<F>(graph: Events<F>, operation: F)
    requires
        graph.len() < usize::MAX,
    ensures
        graph.kept_in(graph.with_node(operation)),
{
}

/// The events of a graph that another graph holds are there what they were,
/// with every handle moved up as the events are: the leaves under such an
/// event, the chains from it, and the operations of those chains.
pub proof fn lemma_embedded_chains<F>(graph: Events<F>, grown: Events<F>, by: nat, n: EventNode)
    requires
        graph.is_dag(),
        grown.is_dag(),
        graph.embedded_in(grown, by),
        graph.contains(n),
    ensures
        ({
            let moved = (n + by) as EventNode;
            &&& grown.contains(moved)
            &&& grown.leaves(moved) == shifted(graph.leaves(n), by)
            &&& grown.chains(moved) == shifted_chains(graph.chains(n), by)
            &&& grown.operation_chains(moved) == graph.operation_chains(n)
        }),
    decreases graph.rank(n), 1nat, 0nat,
{
    let moved = (n + by) as EventNode;
    if graph.is_leaf(n) {
        assert(grown.leaves(moved) =~= shifted(graph.leaves(n), by));
    } else {
        lemma_embedded_fans(graph, grown, by, n, graph.followers(n).len());
    }
    lemma_chains_contained(graph, n);
    let left = grown.operation_chains(moved);
    let right = graph.operation_chains(n);
    assert forall|i: int| 0 <= i < left.len() implies left[i] == right[i] by {}
}

proof fn lemma_embedded_fans<F>(
    graph: Events<F>,
    grown: Events<F>,
    by: nat,
    n: EventNode,
    k: nat,
)
    requires
        graph.is_dag(),
        grown.is_dag(),
        graph.embedded_in(grown, by),
        graph.contains(n),
        k <= graph.followers(n).len(),
    ensures
        ({
            let moved = (n + by) as EventNode;
            &&& grown.fan_leaves(moved, k) == shifted(graph.fan_leaves(n, k), by)
            &&& grown.fan_chains(moved, k) == shifted_chains(graph.fan_chains(n, k), by)
        }),
    decreases graph.rank(n), 0nat, k,
{
    let moved = (n + by) as EventNode;
    if k > 0 {
        let branch = graph.followers(n)[k - 1];
        lemma_embedded_fans(graph, grown, by, n, (k - 1) as nat);
        lemma_embedded_chains(graph, grown, by, branch);
        let left = grown.fan_chains(moved, k);
        let right = shifted_chains(graph.fan_chains(n, k), by);
        assert(graph.fan_chains(n, k) == graph.fan_chains(n, (k - 1) as nat) + prefixed(
            n,
            graph.chains(branch),
        ));
        assert forall|i: int| 0 <= i < left.len() implies left[i] == right[i] by {}
    }
}

/// Where a graph holds the events of another one under their own handles,
/// the leaves under such an event, the chains from it and their operations
/// are what they were.
pub proof fn lemma_kept_events_keep_chains<F>(graph: Events<F>, grown: Events<F>, n: EventNode)
    requires
        graph.is_dag(),
        grown.is_dag(),
        graph.kept_in(grown),
        graph.contains(n),
    ensures
        grown.leaves(n) == graph.leaves(n),
        grown.chains(n) == graph.chains(n),
        grown.operation_chains(n) == graph.operation_chains(n),
{
    lemma_embedded_chains(graph, grown, 0, n);
    let kept = shifted_chains(graph.chains(n), 0);
    assert forall|i: int| 0 <= i < kept.len() implies kept[i] == graph.chains(n)[i] by {}
}

/// The events of a graph that another graph has taken in are there what
/// they were, with every handle moved up by the number of events that the
/// other graph held before.
pub proof fn lemma_absorbed_chains<F>(graph: Events<F>, other: Events<F>, n: EventNode)
    requires
        graph.is_dag(),
        other.is_dag(),
        other.contains(n),
        graph.len() + other.len() <= usize::MAX,
    ensures
        ({
            let merged = graph.absorb(other);
            let moved = (graph.len() + n) as EventNode;
            &&& merged.is_dag()
            &&& merged.contains(moved)
            &&& merged.leaves(moved) == shifted(other.leaves(n), graph.len())
            &&& merged.chains(moved) == shifted_chains(other.chains(n), graph.len())
            &&& merged.operation_chains(moved) == other.operation_chains(n)
        }),
{
    lemma_absorb_is_dag(graph, other);
    lemma_embedded_chains(other, graph.absorb(other), graph.len(), n);
}

/// The events of a graph that another graph holds are evaluated there as
/// they were: on the same states, and to the same results.
pub proof fn lemma_embedded_evaluates<T, F: Fn(T) -> T>(
    graph: Events<F>,
    grown: Events<F>,
    by: nat,
    n: EventNode,
    x: T,
    results: Seq<T>,
)
    requires
        graph.is_dag(),
        grown.is_dag(),
        graph.embedded_in(grown, by),
        graph.contains(n),
    ensures
        grown.accepts((n + by) as EventNode, x) == graph.accepts(n, x),
        grown.evaluates_to((n + by) as EventNode, x, results) == graph.evaluates_to(
            n,
            x,
            results,
        ),
    decreases graph.rank(n), 1nat, 0nat,
{
    let moved = (n + by) as EventNode;
    assert forall|y: T, k: int| 0 <= k < graph.followers(n).len() implies grown.accepts(
        grown.followers(moved)[k],
        y,
    ) == #[trigger] graph.accepts(graph.followers(n)[k], y) by {
        lemma_embedded_evaluates(graph, grown, by, graph.followers(n)[k], y, results);
    }
    assert(grown.accepts(moved, x) == graph.accepts(n, x)) by {
        if graph.accepts(n, x) {
            assert forall|y: T, k: int|
                #![trigger call_ensures(grown.operation(moved), (x,), y), grown.followers(moved)[k]]
                call_ensures(grown.operation(moved), (x,), y) && 0 <= k < grown.followers(
                    moved,
                ).len() implies grown.accepts(grown.followers(moved)[k], y) by {
                assert(graph.accepts(graph.followers(n)[k], y));
            }
        }
        if grown.accepts(moved, x) {
            assert forall|y: T, k: int|
                #![trigger call_ensures(graph.operation(n), (x,), y), graph.followers(n)[k]]
                call_ensures(graph.operation(n), (x,), y) && 0 <= k < graph.followers(
                    n,
                ).len() implies graph.accepts(graph.followers(n)[k], y) by {}
        }
    }
    let count = graph.followers(n).len();
    if grown.evaluates_to(moved, x, results) {
        let y = choose|y: T| #[trigger]
            call_ensures(grown.operation(moved), (x,), y) && if grown.is_leaf(moved) {
                results == seq![y]
            } else {
                grown.fan_evaluates_to(moved, grown.followers(moved).len(), y, results)
            };
        if !graph.is_leaf(n) {
            lemma_embedded_fan_evaluates(graph, grown, by, n, count, y, results);
        }
    }
    if graph.evaluates_to(n, x, results) {
        let y = choose|y: T| #[trigger]
            call_ensures(graph.operation(n), (x,), y) && if graph.is_leaf(n) {
                results == seq![y]
            } else {
                graph.fan_evaluates_to(n, graph.followers(n).len(), y, results)
            };
        if !graph.is_leaf(n) {
            lemma_embedded_fan_evaluates(graph, grown, by, n, count, y, results);
        }
    }
}

proof fn lemma_embedded_fan_evaluates<T, F: Fn(T) -> T>(
    graph: Events<F>,
    grown: Events<F>,
    by: nat,
    n: EventNode,
    k: nat,
    y: T,
    results: Seq<T>,
)
    requires
        graph.is_dag(),
        grown.is_dag(),
        graph.embedded_in(grown, by),
        graph.contains(n),
        k <= graph.followers(n).len(),
    ensures
        grown.fan_evaluates_to((n + by) as EventNode, k, y, results) == graph.fan_evaluates_to(
            n,
            k,
            y,
            results,
        ),
    decreases graph.rank(n), 0nat, k,
{
    let moved = (n + by) as EventNode;
    if k > 0 {
        let branch = graph.followers(n)[k - 1];
        if grown.fan_evaluates_to(moved, k, y, results) {
            let (head, tail) = choose|head: Seq<T>, tail: Seq<T>|
                #![trigger head + tail]
                results == head + tail && grown.fan_evaluates_to(moved, (k - 1) as nat, y, head)
                    && grown.evaluates_to(grown.followers(moved)[k - 1], y, tail);
            lemma_embedded_fan_evaluates(graph, grown, by, n, (k - 1) as nat, y, head);
            lemma_embedded_evaluates(graph, grown, by, branch, y, tail);
        }
        if graph.fan_evaluates_to(n, k, y, results) {
            let (head, tail) = choose|head: Seq<T>, tail: Seq<T>|
                #![trigger head + tail]
                results == head + tail && graph.fan_evaluates_to(n, (k - 1) as nat, y, head)
                    && graph.evaluates_to(graph.followers(n)[k - 1], y, tail);
            lemma_embedded_fan_evaluates(graph, grown, by, n, (k - 1) as nat, y, head);
            lemma_embedded_evaluates(graph, grown, by, branch, y, tail);
        }
    }
}

} // verus!
