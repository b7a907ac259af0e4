//! What holds of every graph to which a sequence was attached.

use vstd::prelude::*;
use crate::event_graph::EventNode;
use crate::event_model::{Events, outcome, prefixed, run_of};
use crate::laws::chains::{lemma_chains_contained, lemma_chains_end_in_leaves};
use crate::laws::fan::{
    lemma_fanned_edges, lemma_fanned_nodes, lemma_fanned_once, lemma_with_linked_edges,
};

verus! {

/// Every chain that ends in an event of `frontier`, with `tail` behind it;
/// the other chains as they are.
pub open spec fn extended(
    chains: Seq<Seq<EventNode>>,
    frontier: Seq<EventNode>,
    tail: Seq<EventNode>,
) -> Seq<Seq<EventNode>> {
    Seq::new(
        chains.len(),
        |i: int|
            if frontier.contains(chains[i].last()) {
                chains[i] + tail
            } else {
                chains[i]
            },
    )
}

/// Every chain of operations whose chain of events ends in an event of
/// `frontier`, with `operations` behind it; the others as they are.
pub open spec fn continued<F>(
    chains: Seq<Seq<EventNode>>,
    operation_chains: Seq<Seq<F>>,
    frontier: Seq<EventNode>,
    operations: Seq<F>,
) -> Seq<Seq<F>> {
    Seq::new(
        chains.len(),
        |i: int|
            if frontier.contains(chains[i].last()) {
                operation_chains[i] + operations
            } else {
                operation_chains[i]
            },
    )
}

/// A sequence leaves a well-formed acyclic graph well-formed and acyclic.
pub proof fn lemma_sequenced_is_dag<F>(
    graph: Events<F>,
    frontier: Seq<EventNode>,
    operations: Seq<F>,
)
    requires
        graph.is_dag(),
        graph.contains_all(frontier),
        graph.len() + operations.len() <= usize::MAX,
    ensures
        graph.sequenced(frontier, operations).is_dag(),
{
    if operations.len() > 0 {
        let count = operations.len();
        let chained = graph.with_chain(operations);
        let target = graph.len() as EventNode;
        let grown = graph.sequenced(frontier, operations);
        lemma_fanned_nodes(chained, frontier, seq![target]);
        let old_rank = choose|rank: Seq<nat>| graph.ranked_by(rank);
        let rank = Seq::new(
            grown.len(),
            |i: int|
                if i < graph.len() {
                    old_rank[i] + count
                } else {
                    (graph.len() + count - 1 - i) as nat
                },
        );
        assert forall|n: EventNode, k: int|
            grown.contains(n) && 0 <= k < grown.followers(n).len() implies grown.contains(
            #[trigger] grown.followers(n)[k],
        ) && rank[grown.followers(n)[k] as int] < rank[n as int] by {
            let follower = grown.followers(n)[k];
            if k < chained.followers(n).len() {
                if graph.contains(n) {
                    assert(follower == graph.followers(n)[k]);
                }
            }
        }
        assert(grown.ranked_by(rank));
    }
}

/// What a sequence attached to leaves makes of a graph, event by event.
pub proof fn lemma_sequenced_nodes<F>(
    graph: Events<F>,
    frontier: Seq<EventNode>,
    operations: Seq<F>,
)
    requires
        graph.contains_all(frontier),
        frontier.no_duplicates(),
        operations.len() > 0,
        graph.len() + operations.len() <= usize::MAX,
    ensures
        ({
            let grown = graph.sequenced(frontier, operations);
            let first = graph.len() as EventNode;
            &&& grown.len() == graph.len() + operations.len()
            &&& forall|n: EventNode|
                graph.contains(n) ==> #[trigger] grown.operation(n) == graph.operation(n)
            &&& forall|n: EventNode|
                graph.contains(n) && frontier.contains(n) ==> #[trigger] grown.followers(n)
                    == graph.followers(n) + seq![first]
            &&& forall|n: EventNode|
                graph.contains(n) && !frontier.contains(n) ==> #[trigger] grown.followers(n)
                    == graph.followers(n)
            &&& forall|j: int|
                0 <= j < operations.len() ==> #[trigger] grown.operation(
                    (graph.len() + j) as EventNode,
                ) == operations[j]
            &&& forall|j: int|
                0 <= j < operations.len() ==> #[trigger] grown.followers(
                    (graph.len() + j) as EventNode,
                ) == if j + 1 < operations.len() {
                    seq![(graph.len() + j + 1) as EventNode]
                } else {
                    Seq::<EventNode>::empty()
                }
        }),
{
    let chained = graph.with_chain(operations);
    let first = graph.len() as EventNode;
    lemma_fanned_nodes(chained, frontier, seq![first]);
    lemma_fanned_once(chained, frontier, seq![first]);
}

/// Where the events `first`, `first + 1`, ..., `first + count - 1` of a
/// graph each have the next one as their only follower, and the last of them
/// has none, one chain leads from each of them: the rest of the run.
pub proof fn lemma_run_chains<F>(graph: Events<F>, first: nat, count: nat, j: nat)
    requires
        graph.is_dag(),
        first + count <= graph.len(),
        graph.len() <= usize::MAX,
        j < count,
        forall|i: int|
            0 <= i < count ==> #[trigger] graph.followers((first + i) as EventNode) == if i + 1
                < count {
                seq![(first + i + 1) as EventNode]
            } else {
                Seq::<EventNode>::empty()
            },
    ensures
        graph.chains((first + j) as EventNode) == seq![run_of(first, count).skip(j as int)],
    decreases count - j,
{
    let n = (first + j) as EventNode;
    let run = run_of(first, count);
    if j + 1 < count {
        lemma_run_chains(graph, first, count, j + 1);
        assert(graph.fan_chains(n, 1) == graph.fan_chains(n, 0) + prefixed(
            n,
            graph.chains(graph.followers(n)[0]),
        ));
        assert(seq![n] + run.skip(j as int + 1) =~= run.skip(j as int));
    } else {
        assert(seq![n] =~= run.skip(j as int));
    }
}

/// Prefixing commutes with extending, for chains that are not empty.
proof fn lemma_prefixed_extended(
    n: EventNode,
    chains: Seq<Seq<EventNode>>,
    frontier: Seq<EventNode>,
    tail: Seq<EventNode>,
)
    requires
        forall|i: int| 0 <= i < chains.len() ==> (#[trigger] chains[i]).len() > 0,
    ensures
        prefixed(n, extended(chains, frontier, tail)) == extended(
            prefixed(n, chains),
            frontier,
            tail,
        ),
{
    let left = prefixed(n, extended(chains, frontier, tail));
    let right = extended(prefixed(n, chains), frontier, tail);
    assert forall|i: int| 0 <= i < left.len() implies left[i] == right[i] by {}
}

/// After a sequence was attached to leaves of the graph, the chains from an
/// event of the graph are its chains of before, each one that ended in the
/// frontier extended by the new events.
proof fn lemma_sequenced_chains<F>(
    graph: Events<F>,
    frontier: Seq<EventNode>,
    operations: Seq<F>,
    n: EventNode,
)
    requires
        graph.is_dag(),
        graph.contains(n),
        graph.contains_all(frontier),
        graph.all_leaves(frontier),
        frontier.no_duplicates(),
        operations.len() > 0,
        graph.len() + operations.len() <= usize::MAX,
    ensures
        graph.sequenced(frontier, operations).chains(n) == extended(
            graph.chains(n),
            frontier,
            run_of(graph.len(), operations.len()),
        ),
    decreases graph.rank(n), 1nat, 0nat,
{
    let grown = graph.sequenced(frontier, operations);
    let tail = run_of(graph.len(), operations.len());
    lemma_sequenced_is_dag(graph, frontier, operations);
    lemma_sequenced_nodes(graph, frontier, operations);
    if graph.is_leaf(n) {
        if frontier.contains(n) {
            lemma_run_chains(grown, graph.len(), operations.len(), 0);
            assert(tail.skip(0) =~= tail);
            assert(grown.fan_chains(n, 1) == grown.fan_chains(n, 0) + prefixed(
                n,
                grown.chains(grown.followers(n)[0]),
            ));
        }
    } else {
        lemma_sequenced_fan_chains(graph, frontier, operations, n, graph.followers(n).len());
    }
}

proof fn lemma_sequenced_fan_chains<F>(
    graph: Events<F>,
    frontier: Seq<EventNode>,
    operations: Seq<F>,
    n: EventNode,
    k: nat,
)
    requires
        graph.is_dag(),
        graph.contains(n),
        graph.contains_all(frontier),
        graph.all_leaves(frontier),
        frontier.no_duplicates(),
        operations.len() > 0,
        graph.len() + operations.len() <= usize::MAX,
        graph.sequenced(frontier, operations).is_dag(),
        graph.sequenced(frontier, operations).contains(n),
        graph.sequenced(frontier, operations).followers(n) == graph.followers(n),
        k <= graph.followers(n).len(),
    ensures
        graph.sequenced(frontier, operations).fan_chains(n, k) == extended(
            graph.fan_chains(n, k),
            frontier,
            run_of(graph.len(), operations.len()),
        ),
    decreases graph.rank(n), 0nat, k,
{
    let tail = run_of(graph.len(), operations.len());
    if k != 0 {
        let branch = graph.followers(n)[k - 1];
        lemma_sequenced_fan_chains(graph, frontier, operations, n, (k - 1) as nat);
        lemma_sequenced_chains(graph, frontier, operations, branch);
        lemma_chains_end_in_leaves(graph, branch);
        lemma_prefixed_extended(n, graph.chains(branch), frontier, tail);
    }
}

/// A sequence attached to leaves continues every chain that ends in one of
/// them. The grown graph is well-formed and acyclic; the chains from an
/// event of the graph are its chains of before, each one that ended in the
/// frontier extended by the new events; and the operations of such a chain
/// are its operations of before, followed by the operations attached.
pub proof fn lemma_sequence_continues_chains<F>(
    graph: Events<F>,
    frontier: Seq<EventNode>,
    operations: Seq<F>,
    root: EventNode,
)
    requires
        graph.is_dag(),
        graph.contains(root),
        graph.contains_all(frontier),
        graph.all_leaves(frontier),
        frontier.no_duplicates(),
        operations.len() > 0,
        graph.len() + operations.len() <= usize::MAX,
    ensures
        ({
            let grown = graph.sequenced(frontier, operations);
            &&& grown.is_dag()
            &&& grown.contains(root)
            &&& grown.chains(root) == extended(
                graph.chains(root),
                frontier,
                run_of(graph.len(), operations.len()),
            )
            &&& grown.operation_chains(root) == continued(
                graph.chains(root),
                graph.operation_chains(root),
                frontier,
                operations,
            )
        }),
{
    let grown = graph.sequenced(frontier, operations);
    lemma_sequenced_is_dag(graph, frontier, operations);
    lemma_sequenced_nodes(graph, frontier, operations);
    lemma_sequenced_chains(graph, frontier, operations, root);
    lemma_chains_contained(graph, root);
    let left = grown.operation_chains(root);
    let right = continued(graph.chains(root), graph.operation_chains(root), frontier, operations);
    assert forall|i: int| 0 <= i < left.len() implies left[i] == right[i] by {
        assert(graph.contains_all(graph.chains(root)[i]));
    }
}

/// Evaluating after a sequence was attached to leaves: the results stand one
/// for each chain that the graph had before. For a chain that ended in the
/// frontier the result is an outcome of that chain's operations followed by
/// the operations attached, in their order; for another chain it is an
/// outcome of that chain's operations, as before.
pub proof fn lemma_sequence_composes<T, F: Fn(T) -> T>(
    graph: Events<F>,
    frontier: Seq<EventNode>,
    operations: Seq<F>,
    root: EventNode,
    x: T,
    results: Seq<T>,
)
    requires
        graph.is_dag(),
        graph.contains(root),
        graph.contains_all(frontier),
        graph.all_leaves(frontier),
        frontier.no_duplicates(),
        operations.len() > 0,
        graph.len() + operations.len() <= usize::MAX,
        graph.sequenced(frontier, operations).evaluates_by_chain(root, x, results),
    ensures
        results.len() == graph.chains(root).len(),
        forall|i: int|
            #![trigger results[i]]
            0 <= i < results.len() ==> outcome(
                if frontier.contains(graph.chains(root)[i].last()) {
                    graph.chain_operations(graph.chains(root)[i]) + operations
                } else {
                    graph.chain_operations(graph.chains(root)[i])
                },
                x,
                results[i],
            ),
{
    let grown = graph.sequenced(frontier, operations);
    lemma_sequence_continues_chains(graph, frontier, operations, root);
    assert forall|i: int| #![trigger results[i]] 0 <= i < results.len() implies outcome(
        if frontier.contains(graph.chains(root)[i].last()) {
            graph.chain_operations(graph.chains(root)[i]) + operations
        } else {
            graph.chain_operations(graph.chains(root)[i])
        },
        x,
        results[i],
    ) by {
        assert(grown.operation_chains(root)[i] == grown.chain_operations(grown.chains(root)[i]));
    }
}

/// A sequence adds one edge from each entry of the frontier to the first
/// new event, one edge from each new event to the next, and no other:
/// `f + k - 1` edges for a frontier of `f` entries and `k` operations.
pub proof fn lemma_sequence_edges<F>(
    graph: Events<F>,
    frontier: Seq<EventNode>,
    operations: Seq<F>,
)
    requires
        graph.contains_all(frontier),
        operations.len() > 0,
        graph.len() + operations.len() <= usize::MAX,
    ensures
        graph.sequenced(frontier, operations).edge_count() == graph.edge_count() + frontier.len()
            + operations.len() - 1,
{
    let chained = graph.with_chain(operations);
    lemma_with_linked_edges(graph, operations, (operations.len() - 1) as nat, chained.len());
    lemma_fanned_edges(chained, frontier, seq![graph.len() as EventNode]);
    assert(frontier.len() * 1 == frontier.len()) by (nonlinear_arith);
}

} // verus!
