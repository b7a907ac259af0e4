//! Graphs without cycles: what keeps a graph one, and how a cycle shows.

use vstd::prelude::*;
use crate::event_graph::EventNode;
use crate::event_model::Events;

verus! {

/// A graph of one event is well-formed and acyclic.
pub proof fn lemma_single_is_dag<F>(operation: F)
    ensures
        Events::single(operation).is_dag(),
{
    assert(Events::single(operation).ranked_by(seq![0nat]));
}

/// One more event without followers leaves a well-formed acyclic graph
/// well-formed and acyclic.
pub proof fn lemma_with_node_is_dag<F>(graph: Events<F>, operation: F)
    requires
        graph.is_dag(),
    ensures
        graph.with_node(operation).is_dag(),
{
    let rank = choose|rank: Seq<nat>| graph.ranked_by(rank);
    let grown = graph.with_node(operation);
    assert forall|n: EventNode, k: int|
        grown.contains(n) && 0 <= k < grown.followers(n).len() implies grown.contains(
        #[trigger] grown.followers(n)[k],
    ) && rank.push(0)[grown.followers(n)[k] as int] < rank.push(0)[n as int] by {
        assert(graph.contains(graph.followers(n)[k]));
    }
    assert(grown.ranked_by(rank.push(0)));
}

/// New followers that rank below the event they follow leave a well-formed
/// graph well-formed, and its ranking a ranking.
pub proof fn lemma_with_followers_is_dag<F>(
    graph: Events<F>,
    node: EventNode,
    targets: Seq<EventNode>,
    rank: Seq<nat>,
)
    requires
        graph.wf(),
        graph.ranked_by(rank),
        graph.contains(node),
        graph.contains_all(targets),
        forall|i: int|
            0 <= i < targets.len() ==> rank[(#[trigger] targets[i]) as int] < rank[node as int],
    ensures
        graph.with_followers(node, targets).wf(),
        graph.with_followers(node, targets).ranked_by(rank),
        graph.with_followers(node, targets).is_dag(),
{
    let grown = graph.with_followers(node, targets);
    assert forall|n: EventNode, k: int|
        grown.contains(n) && 0 <= k < grown.followers(n).len() implies grown.contains(
        #[trigger] grown.followers(n)[k],
    ) && rank[grown.followers(n)[k] as int] < rank[n as int] by {
        if !(n == node && k >= graph.followers(n).len()) {
            assert(graph.contains(graph.followers(n)[k]));
        }
    }
    assert(grown.ranked_by(rank));
}

/// A number above every entry of `rank`.
pub open spec fn above(rank: Seq<nat>) -> nat
    decreases rank.len(),
{
    if rank.len() == 0 {
        0
    } else {
        above(rank.drop_last()) + rank.last() + 1
    }
}

proof fn lemma_above(rank: Seq<nat>, i: int)
    requires
        0 <= i < rank.len(),
    ensures
        rank[i] < above(rank),
    decreases rank.len(),
{
    if i < rank.len() - 1 {
        lemma_above(rank.drop_last(), i);
    }
}

/// A number above the rank of every entry of `nodes`.
pub open spec fn above_all(rank: Seq<nat>, nodes: Seq<EventNode>) -> nat {
    above(Seq::new(nodes.len(), |k: int| rank[nodes[k] as int]))
}

/// `above_all` is above the rank of every entry.
pub proof fn lemma_above_all(rank: Seq<nat>, nodes: Seq<EventNode>, k: int)
    requires
        0 <= k < nodes.len(),
    ensures
        rank[nodes[k] as int] < above_all(rank, nodes),
{
    lemma_above(Seq::new(nodes.len(), |k: int| rank[nodes[k] as int]), k);
}

/// Taking in another well-formed acyclic graph leaves a well-formed acyclic
/// graph well-formed and acyclic.
pub proof fn lemma_absorb_is_dag<F>(graph: Events<F>, other: Events<F>)
    requires
        graph.is_dag(),
        other.is_dag(),
        graph.len() + other.len() <= usize::MAX,
    ensures
        graph.absorb(other).is_dag(),
{
    let rank = choose|rank: Seq<nat>| graph.ranked_by(rank);
    let other_rank = choose|rank: Seq<nat>| other.ranked_by(rank);
    let merged = graph.absorb(other);
    let both = rank + other_rank;
    assert forall|n: EventNode, k: int|
        merged.contains(n) && 0 <= k < merged.followers(n).len() implies merged.contains(
        #[trigger] merged.followers(n)[k],
    ) && both[merged.followers(n)[k] as int] < both[n as int] by {
        if graph.contains(n) {
            assert(graph.contains(graph.followers(n)[k]));
        } else {
            let m = (n - graph.len()) as EventNode;
            assert(merged.followers(n)[k] == other.followers(m)[k] + graph.len());
        }
    }
    assert(merged.ranked_by(both));
}

/// Taking in another well-formed acyclic graph and letting its first event
/// follow an event of this graph leaves a well-formed acyclic graph
/// well-formed and acyclic.
pub proof fn lemma_branch_is_dag<F>(graph: Events<F>, node: EventNode, other: Events<F>)
    requires
        graph.is_dag(),
        other.is_dag(),
        graph.contains(node),
        other.len() > 0,
        graph.len() + other.len() <= usize::MAX,
    ensures
        graph.absorb(other).with_follower(node, graph.len() as EventNode).is_dag(),
{
    let rank = choose|rank: Seq<nat>| graph.ranked_by(rank);
    let other_rank = choose|rank: Seq<nat>| other.ranked_by(rank);
    let merged = graph.absorb(other);
    let lifted = Seq::new(rank.len(), |i: int| rank[i] + above(other_rank));
    let both = lifted + other_rank;
    assert forall|n: EventNode, k: int|
        merged.contains(n) && 0 <= k < merged.followers(n).len() implies merged.contains(
        #[trigger] merged.followers(n)[k],
    ) && both[merged.followers(n)[k] as int] < both[n as int] by {
        if graph.contains(n) {
            assert(graph.contains(graph.followers(n)[k]));
        } else {
            let m = (n - graph.len()) as EventNode;
            assert(merged.followers(n)[k] == other.followers(m)[k] + graph.len());
        }
    }
    lemma_above(other_rank, 0);
    let root = graph.len() as EventNode;
    lemma_with_followers_is_dag(merged, node, seq![root], both);
}

/// The number of entries of `settled` that are `false`.
pub open spec fn unsettled(settled: Seq<bool>) -> nat
    decreases settled.len(),
{
    if settled.len() == 0 {
        0
    } else {
        unsettled(settled.drop_last()) + if settled.last() {
            0nat
        } else {
            1nat
        }
    }
}

/// Settling one more entry leaves one entry less to settle.
pub proof fn lemma_settle(settled: Seq<bool>, i: int)
    requires
        0 <= i < settled.len(),
        !settled[i],
    ensures
        unsettled(settled.update(i, true)) + 1 == unsettled(settled),
    decreases settled.len(),
{
    let after = settled.update(i, true);
    if i < settled.len() - 1 {
        lemma_settle(settled.drop_last(), i);
        assert(after.drop_last() =~= settled.drop_last().update(i, true));
    } else {
        assert(after.drop_last() =~= settled.drop_last());
    }
}

/// In a ranked graph where every event that is not settled has a follower
/// that is not settled either, every event is settled.
proof fn lemma_ranked_settles<F>(
    graph: Events<F>,
    settled: Seq<bool>,
    rank: Seq<nat>,
    n: EventNode,
)
    requires
        graph.wf(),
        graph.ranked_by(rank),
        settled.len() == graph.len(),
        graph.contains(n),
        forall|n: EventNode|
            graph.contains(n) && !settled[n as int] ==> exists|k: int|
                0 <= k < graph.followers(n).len() && !settled[(
                #[trigger] graph.followers(n)[k]) as int],
    ensures
        settled[n as int],
    decreases rank[n as int],
{
    if !settled[n as int] {
        let k = choose|k: int|
            0 <= k < graph.followers(n).len() && !settled[(
            #[trigger] graph.followers(n)[k]) as int];
        lemma_ranked_settles(graph, settled, rank, graph.followers(n)[k]);
    }
}

/// A graph that is stuck has a cycle. It is stuck where some of its events
/// are not settled, and each of those has a follower that is not settled
/// either: from there one can go on for ever, which no ranking allows.
pub proof fn lemma_stuck_is_cyclic<F>(graph: Events<F>, settled: Seq<bool>, start: EventNode)
    requires
        graph.wf(),
        settled.len() == graph.len(),
        graph.contains(start),
        !settled[start as int],
        forall|n: EventNode|
            graph.contains(n) && !settled[n as int] ==> exists|k: int|
                0 <= k < graph.followers(n).len() && !settled[(
                #[trigger] graph.followers(n)[k]) as int],
    ensures
        !graph.acyclic(),
{
    if graph.acyclic() {
        let rank = choose|rank: Seq<nat>| graph.ranked_by(rank);
        lemma_ranked_settles(graph, settled, rank, start);
    }
}

} // verus!
