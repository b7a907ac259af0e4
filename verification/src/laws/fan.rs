//! Attaching new followers to a frontier: what it does to the events and to
//! the number of edges.

use vstd::prelude::*;
use crate::event_graph::EventNode;
use crate::event_model::Events;

verus! {

/// Fanning out changes the followers of the frontier alone, and adds only
/// targets to them: the graph keeps its events and their operations, an
/// event outside `frontier` keeps its followers, and an event of `frontier`
/// keeps its followers in front of the ones it gains, all of which are
/// entries of `targets`.
pub proof fn lemma_fanned_nodes<F>(
    graph: Events<F>,
    frontier: Seq<EventNode>,
    targets: Seq<EventNode>,
)
    requires
        graph.contains_all(frontier),
    ensures
        ({
            let fanned = graph.fanned(frontier, targets);
            &&& fanned.len() == graph.len()
            &&& forall|n: EventNode|
                graph.contains(n) ==> #[trigger] fanned.operation(n) == graph.operation(n)
            &&& forall|n: EventNode|
                graph.contains(n) && !frontier.contains(n) ==> #[trigger] fanned.followers(n)
                    == graph.followers(n)
            &&& forall|n: EventNode|
                graph.contains(n) ==> graph.followers(n).len() <= (#[trigger] fanned.followers(
                    n,
                )).len()
            &&& forall|n: EventNode, k: int|
                graph.contains(n) && 0 <= k < graph.followers(n).len() ==> (
                #[trigger] fanned.followers(n)[k]) == graph.followers(n)[k]
            &&& forall|n: EventNode, k: int|
                graph.contains(n) && graph.followers(n).len() <= k < fanned.followers(n).len()
                    ==> targets.contains(#[trigger] fanned.followers(n)[k])
        }),
    decreases frontier.len(),
{
    if frontier.len() > 0 {
        let last = frontier.last();
        let rest = frontier.drop_last();
        lemma_fanned_nodes(graph, rest, targets);
        let before = graph.fanned(rest, targets);
        let fanned = graph.fanned(frontier, targets);
        assert forall|n: EventNode| graph.contains(n) && !frontier.contains(n) implies (
        #[trigger] fanned.followers(n)) == graph.followers(n) by {
            assert(fanned.followers(n) == before.followers(n));
        }
        assert forall|n: EventNode| graph.contains(n) implies #[trigger] fanned.operation(n)
            == graph.operation(n) by {
            assert(before.operation(n) == graph.operation(n));
        }
        assert forall|n: EventNode| graph.contains(n) implies graph.followers(n).len() <= (
        #[trigger] fanned.followers(n)).len() by {
            assert(graph.followers(n).len() <= before.followers(n).len());
        }
        assert forall|n: EventNode, k: int|
            graph.contains(n) && 0 <= k < graph.followers(n).len() implies (
        #[trigger] fanned.followers(n)[k]) == graph.followers(n)[k] by {
            assert(before.followers(n)[k] == graph.followers(n)[k]);
        }
        assert forall|n: EventNode, k: int|
            graph.contains(n) && graph.followers(n).len() <= k < fanned.followers(
                n,
            ).len() implies targets.contains(#[trigger] fanned.followers(n)[k]) by {
            if !(n == last && k >= before.followers(n).len()) {
                assert(fanned.followers(n)[k] == before.followers(n)[k]);
            }
        }
    }
}

/// Fanning out from a frontier in which no event occurs twice: every event
/// of the frontier gains `targets` once, behind the followers it has.
pub proof fn lemma_fanned_once<F>(
    graph: Events<F>,
    frontier: Seq<EventNode>,
    targets: Seq<EventNode>,
)
    requires
        graph.contains_all(frontier),
        frontier.no_duplicates(),
    ensures
        forall|n: EventNode|
            frontier.contains(n) ==> (#[trigger] graph.fanned(frontier, targets).followers(n))
                == graph.followers(n) + targets,
    decreases frontier.len(),
{
    if frontier.len() > 0 {
        let last = frontier.last();
        let rest = frontier.drop_last();
        lemma_fanned_once(graph, rest, targets);
        lemma_fanned_nodes(graph, rest, targets);
        let before = graph.fanned(rest, targets);
        let fanned = graph.fanned(frontier, targets);
        assert forall|n: EventNode| frontier.contains(n) implies (#[trigger] fanned.followers(n))
            == graph.followers(n) + targets by {
            if n != last {
                let i = choose|i: int| 0 <= i < frontier.len() && frontier[i] == n;
                assert(rest[i] == n);
                assert(fanned.followers(n) == before.followers(n));
            }
        }
    }
}

/// Appending `targets` to the followers of one event adds as many edges as
/// there are targets.
pub proof fn lemma_with_followers_edges<F>(
    graph: Events<F>,
    node: EventNode,
    targets: Seq<EventNode>,
    n: nat,
)
    requires
        graph.contains(node),
        n <= graph.len(),
        graph.len() <= usize::MAX,
    ensures
        graph.with_followers(node, targets).edges_below(n) == graph.edges_below(n) + if node < n {
            targets.len()
        } else {
            0
        },
    decreases n,
{
    if n > 0 {
        lemma_with_followers_edges(graph, node, targets, (n - 1) as nat);
    }
}

/// Fanning out adds one edge for each entry of the frontier and each target.
pub proof fn lemma_fanned_edges<F>(
    graph: Events<F>,
    frontier: Seq<EventNode>,
    targets: Seq<EventNode>,
)
    requires
        graph.contains_all(frontier),
        graph.len() <= usize::MAX,
    ensures
        graph.fanned(frontier, targets).edge_count() == graph.edge_count() + frontier.len()
            * targets.len(),
    decreases frontier.len(),
{
    if frontier.len() > 0 {
        let rest = frontier.drop_last();
        lemma_fanned_edges(graph, rest, targets);
        lemma_fanned_nodes(graph, rest, targets);
        let before = graph.fanned(rest, targets);
        lemma_with_followers_edges(before, frontier.last(), targets, before.len());
        assert(frontier.len() * targets.len() == rest.len() * targets.len() + targets.len())
            by (nonlinear_arith)
            requires
                frontier.len() == rest.len() + 1,
        ;
    } else {
        assert(frontier.len() * targets.len() == 0) by (nonlinear_arith)
            requires
                frontier.len() == 0,
        ;
    }
}

/// New events without followers add no edge.
pub proof fn lemma_with_nodes_edges<F>(graph: Events<F>, operations: Seq<F>, n: nat)
    requires
        n <= graph.len() + operations.len(),
        graph.len() + operations.len() <= usize::MAX,
    ensures
        graph.with_nodes(operations).edges_below(n) == graph.edges_below(
            if n <= graph.len() {
                n
            } else {
                graph.len()
            },
        ),
    decreases n,
{
    if n > 0 {
        lemma_with_nodes_edges(graph, operations, (n - 1) as nat);
    }
}

/// New events of which the first `links` are followed by the next one add
/// `links` edges.
pub proof fn lemma_with_linked_edges<F>(graph: Events<F>, operations: Seq<F>, links: nat, n: nat)
    requires
        n <= graph.len() + operations.len(),
        links <= operations.len(),
        graph.len() + operations.len() <= usize::MAX,
    ensures
        graph.with_linked(operations, links).edges_below(n) == if n <= graph.len() {
            graph.edges_below(n) as int
        } else if n - graph.len() <= links {
            graph.edges_below(graph.len()) + (n - graph.len())
        } else {
            (graph.edges_below(graph.len()) + links) as int
        },
    decreases n,
{
    if n > 0 {
        lemma_with_linked_edges(graph, operations, links, (n - 1) as nat);
    }
}

} // verus!
