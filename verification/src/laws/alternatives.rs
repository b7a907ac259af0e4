//! What holds of every graph to which alternatives were attached.

use vstd::prelude::*;
use crate::event_graph::EventNode;
use crate::event_model::{Events, prefixed, run_of};
use crate::laws::chains::lemma_chains_end_in_leaves;
use crate::laws::fan::{
    lemma_fanned_edges, lemma_fanned_nodes, lemma_fanned_once, lemma_with_nodes_edges,
};

verus! {

/// The chains that `chain` turns into when alternatives are attached: one
/// chain for each target where it ends in an event of `frontier`, else
/// itself alone.
pub open spec fn spread(
    chain: Seq<EventNode>,
    frontier: Seq<EventNode>,
    targets: Seq<EventNode>,
) -> Seq<Seq<EventNode>> {
    if frontier.contains(chain.last()) {
        Seq::new(targets.len(), |j: int| chain.push(targets[j]))
    } else {
        seq![chain]
    }
}

/// What the chains turn into, one after the other, when alternatives are
/// attached.
pub open spec fn branched(
    chains: Seq<Seq<EventNode>>,
    frontier: Seq<EventNode>,
    targets: Seq<EventNode>,
) -> Seq<Seq<EventNode>>
    decreases chains.len(),
{
    if chains.len() == 0 {
        Seq::empty()
    } else {
        branched(chains.drop_last(), frontier, targets) + spread(chains.last(), frontier, targets)
    }
}

/// Alternatives leave a well-formed acyclic graph well-formed and acyclic.
pub proof fn lemma_alternated_is_dag<F>(
    graph: Events<F>,
    frontier: Seq<EventNode>,
    operations: Seq<F>,
)
    requires
        graph.is_dag(),
        graph.contains_all(frontier),
        graph.len() + operations.len() <= usize::MAX,
    ensures
        graph.alternated(frontier, operations).is_dag(),
{
    if operations.len() > 0 {
        let count = operations.len();
        let widened = graph.with_nodes(operations);
        let targets = run_of(graph.len(), count);
        let grown = graph.alternated(frontier, operations);
        lemma_fanned_nodes(widened, frontier, targets);
        let old_rank = choose|rank: Seq<nat>| graph.ranked_by(rank);
        let rank = Seq::new(
            grown.len(),
            |i: int|
                if i < graph.len() {
                    old_rank[i] + 1
                } else {
                    0nat
                },
        );
        assert forall|n: EventNode, k: int|
            grown.contains(n) && 0 <= k < grown.followers(n).len() implies grown.contains(
            #[trigger] grown.followers(n)[k],
        ) && rank[grown.followers(n)[k] as int] < rank[n as int] by {
            let follower = grown.followers(n)[k];
            if k < widened.followers(n).len() {
                assert(follower == graph.followers(n)[k]);
            }
        }
        assert(grown.ranked_by(rank));
    }
}

/// What alternatives make of a graph, event by event.
pub proof fn lemma_alternated_nodes<F>(
    graph: Events<F>,
    frontier: Seq<EventNode>,
    operations: Seq<F>,
)
    requires
        graph.contains_all(frontier),
        frontier.no_duplicates(),
        operations.len() > 0,
        graph.len() + operations.len() <= usize::MAX,
    ensures
        ({
            let grown = graph.alternated(frontier, operations);
            &&& grown.len() == graph.len() + operations.len()
            &&& forall|n: EventNode|
                graph.contains(n) ==> #[trigger] grown.operation(n) == graph.operation(n)
            &&& forall|n: EventNode|
                graph.contains(n) && frontier.contains(n) ==> #[trigger] grown.followers(n)
                    == graph.followers(n) + run_of(graph.len(), operations.len())
            &&& forall|n: EventNode|
                graph.contains(n) && !frontier.contains(n) ==> #[trigger] grown.followers(n)
                    == graph.followers(n)
            &&& forall|j: int|
                0 <= j < operations.len() ==> #[trigger] grown.operation(
                    (graph.len() + j) as EventNode,
                ) == operations[j]
            &&& forall|j: int|
                0 <= j < operations.len() ==> grown.is_leaf(
                    #[trigger] ((graph.len() + j) as EventNode),
                )
        }),
{
    let widened = graph.with_nodes(operations);
    let targets = run_of(graph.len(), operations.len());
    lemma_fanned_nodes(widened, frontier, targets);
    lemma_fanned_once(widened, frontier, targets);
}

proof fn lemma_alternated_fan_chains<F>(
    graph: Events<F>,
    frontier: Seq<EventNode>,
    operations: Seq<F>,
    node: EventNode,
    k: nat,
)
    requires
        graph.contains(node),
        operations.len() > 0,
        graph.len() + operations.len() <= usize::MAX,
        k <= operations.len(),
        ({
            let grown = graph.alternated(frontier, operations);
            &&& grown.is_dag()
            &&& grown.len() == graph.len() + operations.len()
            &&& grown.followers(node) == run_of(graph.len(), operations.len())
            &&& forall|j: int|
                0 <= j < operations.len() ==> grown.is_leaf(
                    #[trigger] ((graph.len() + j) as EventNode),
                )
        }),
    ensures
        graph.alternated(frontier, operations).fan_chains(node, k) == Seq::new(
            k,
            |j: int| seq![node, (graph.len() + j) as EventNode],
        ),
    decreases k,
{
    let grown = graph.alternated(frontier, operations);
    if k != 0 {
        lemma_alternated_fan_chains(graph, frontier, operations, node, (k - 1) as nat);
        let branch = grown.followers(node)[k - 1];
        assert(grown.fan_chains(node, k) == grown.fan_chains(node, (k - 1) as nat) + prefixed(
            node,
            grown.chains(branch),
        ));
        assert(seq![node] + seq![branch] =~= seq![node, branch]);
    }
}

/// Alternatives fan out: from a leaf of the frontier one chain leads to each
/// new event, in the order of the operations, and the operations of that
/// chain are the leaf's own and the one attached. The grown graph is
/// well-formed and acyclic.
pub proof fn lemma_alternatives_fan_out<F>(
    graph: Events<F>,
    frontier: Seq<EventNode>,
    operations: Seq<F>,
    node: EventNode,
)
    requires
        graph.is_dag(),
        graph.contains_all(frontier),
        frontier.no_duplicates(),
        frontier.contains(node),
        graph.is_leaf(node),
        operations.len() > 0,
        graph.len() + operations.len() <= usize::MAX,
    ensures
        ({
            let grown = graph.alternated(frontier, operations);
            &&& grown.is_dag()
            &&& grown.contains(node)
            &&& grown.chains(node) == Seq::new(
                operations.len(),
                |j: int| seq![node, (graph.len() + j) as EventNode],
            )
            &&& grown.operation_chains(node) == Seq::new(
                operations.len(),
                |j: int| seq![graph.operation(node), operations[j]],
            )
        }),
{
    let grown = graph.alternated(frontier, operations);
    lemma_alternated_is_dag(graph, frontier, operations);
    lemma_alternated_nodes(graph, frontier, operations);
    lemma_alternated_fan_chains(graph, frontier, operations, node, operations.len());
    let left = grown.operation_chains(node);
    let right = Seq::new(operations.len(), |j: int| seq![graph.operation(node), operations[j]]);
    assert forall|j: int| 0 <= j < left.len() implies left[j] == right[j] by {}
}

proof fn lemma_branched_concat(
    first: Seq<Seq<EventNode>>,
    second: Seq<Seq<EventNode>>,
    frontier: Seq<EventNode>,
    targets: Seq<EventNode>,
)
    ensures
        branched(first + second, frontier, targets) == branched(first, frontier, targets)
            + branched(second, frontier, targets),
    decreases second.len(),
{
    if second.len() != 0 {
        lemma_branched_concat(first, second.drop_last(), frontier, targets);
        assert((first + second).drop_last() =~= first + second.drop_last());
    }
}

proof fn lemma_branched_prefixed(
    n: EventNode,
    chains: Seq<Seq<EventNode>>,
    frontier: Seq<EventNode>,
    targets: Seq<EventNode>,
)
    requires
        forall|i: int| 0 <= i < chains.len() ==> (#[trigger] chains[i]).len() > 0,
    ensures
        prefixed(n, branched(chains, frontier, targets)) == branched(
            prefixed(n, chains),
            frontier,
            targets,
        ),
    decreases chains.len(),
{
    if chains.len() != 0 {
        lemma_branched_prefixed(n, chains.drop_last(), frontier, targets);
        assert(prefixed(n, chains).drop_last() =~= prefixed(n, chains.drop_last()));
    }
}

/// After alternatives were attached to leaves of the graph, the chains from
/// an event of the graph are its chains of before, each one that ended in
/// the frontier replaced by one chain for each new event.
proof fn lemma_alternated_chains<F>(
    graph: Events<F>,
    frontier: Seq<EventNode>,
    operations: Seq<F>,
    n: EventNode,
)
    requires
        graph.is_dag(),
        graph.contains(n),
        graph.contains_all(frontier),
        graph.all_leaves(frontier),
        frontier.no_duplicates(),
        operations.len() > 0,
        graph.len() + operations.len() <= usize::MAX,
    ensures
        graph.alternated(frontier, operations).chains(n) == branched(
            graph.chains(n),
            frontier,
            run_of(graph.len(), operations.len()),
        ),
    decreases graph.rank(n), 1nat, 0nat,
{
    let targets = run_of(graph.len(), operations.len());
    lemma_alternated_is_dag(graph, frontier, operations);
    lemma_alternated_nodes(graph, frontier, operations);
    if graph.is_leaf(n) {
        let only = seq![seq![n]];
        assert(branched(only.drop_last(), frontier, targets).len() == 0);
        if frontier.contains(n) {
            lemma_alternated_fan_chains(graph, frontier, operations, n, operations.len());
            assert forall|j: int| 0 <= j < targets.len() implies seq![
                n,
                (graph.len() + j) as EventNode,
            ] == seq![n].push(targets[j]) by {}
        }
    } else {
        lemma_alternated_fan_chains_below(
            graph,
            frontier,
            operations,
            n,
            graph.followers(n).len(),
        );
    }
}

proof fn lemma_alternated_fan_chains_below<F>(
    graph: Events<F>,
    frontier: Seq<EventNode>,
    operations: Seq<F>,
    n: EventNode,
    k: nat,
)
    requires
        graph.is_dag(),
        graph.contains(n),
        graph.contains_all(frontier),
        graph.all_leaves(frontier),
        frontier.no_duplicates(),
        operations.len() > 0,
        graph.len() + operations.len() <= usize::MAX,
        graph.alternated(frontier, operations).is_dag(),
        graph.alternated(frontier, operations).contains(n),
        graph.alternated(frontier, operations).followers(n) == graph.followers(n),
        k <= graph.followers(n).len(),
    ensures
        graph.alternated(frontier, operations).fan_chains(n, k) == branched(
            graph.fan_chains(n, k),
            frontier,
            run_of(graph.len(), operations.len()),
        ),
    decreases graph.rank(n), 0nat, k,
{
    let targets = run_of(graph.len(), operations.len());
    if k != 0 {
        let branch = graph.followers(n)[k - 1];
        lemma_alternated_fan_chains_below(graph, frontier, operations, n, (k - 1) as nat);
        lemma_alternated_chains(graph, frontier, operations, branch);
        lemma_chains_end_in_leaves(graph, branch);
        lemma_branched_prefixed(n, graph.chains(branch), frontier, targets);
        lemma_branched_concat(
            graph.fan_chains(n, (k - 1) as nat),
            prefixed(n, graph.chains(branch)),
            frontier,
            targets,
        );
    }
}

/// Alternatives attached to leaves branch every chain that ends in one of
/// them. The grown graph is well-formed and acyclic; the chains from an
/// event of the graph are its chains of before, each one that ended in the
/// frontier replaced by one chain for each new event, in the order of the
/// operations; the new events hold the operations, and the events of before
/// hold what they held.
pub proof fn lemma_alternatives_branch_chains<F>(
    graph: Events<F>,
    frontier: Seq<EventNode>,
    operations: Seq<F>,
    root: EventNode,
)
    requires
        graph.is_dag(),
        graph.contains(root),
        graph.contains_all(frontier),
        graph.all_leaves(frontier),
        frontier.no_duplicates(),
        operations.len() > 0,
        graph.len() + operations.len() <= usize::MAX,
    ensures
        ({
            let grown = graph.alternated(frontier, operations);
            &&& grown.is_dag()
            &&& grown.contains(root)
            &&& grown.chains(root) == branched(
                graph.chains(root),
                frontier,
                run_of(graph.len(), operations.len()),
            )
            &&& grown.chain_operations(run_of(graph.len(), operations.len())) == operations
            &&& forall|n: EventNode|
                graph.contains(n) ==> #[trigger] grown.operation(n) == graph.operation(n)
        }),
{
    lemma_alternated_is_dag(graph, frontier, operations);
    lemma_alternated_nodes(graph, frontier, operations);
    lemma_alternated_chains(graph, frontier, operations, root);
}

/// Alternatives add one edge from each entry of the frontier to each new
/// event, and no other: `f * k` edges for a frontier of `f` entries and `k`
/// operations.
pub proof fn lemma_alternatives_edges<F>(
    graph: Events<F>,
    frontier: Seq<EventNode>,
    operations: Seq<F>,
)
    requires
        graph.contains_all(frontier),
        graph.len() + operations.len() <= usize::MAX,
    ensures
        graph.alternated(frontier, operations).edge_count() == graph.edge_count() + frontier.len()
            * operations.len(),
{
    if operations.len() > 0 {
        let widened = graph.with_nodes(operations);
        lemma_with_nodes_edges(graph, operations, widened.len());
        lemma_fanned_edges(widened, frontier, run_of(graph.len(), operations.len()));
    } else {
        assert(frontier.len() * operations.len() == 0) by (nonlinear_arith)
            requires
                operations.len() == 0,
        ;
    }
}

} // verus!
