//! Chains and leaves: how they relate to each other and to the paths of the
//! graph.

use vstd::prelude::*;
use crate::event_graph::EventNode;
use crate::event_model::Events;

verus! {

/// In an acyclic graph a follower ranks below the event it follows.
pub proof fn lemma_rank_descends<F>(graph: Events<F>, n: EventNode, k: int)
    requires
        graph.acyclic(),
        graph.contains(n),
        0 <= k < graph.followers(n).len(),
    ensures
        graph.rank(graph.followers(n)[k]) < graph.rank(n),
{
    assert(graph.ranked_by(choose|rank: Seq<nat>| graph.ranked_by(rank)));
}

/// Every event on a chain is an event of the graph.
pub proof fn lemma_chains_contained<F>(graph: Events<F>, n: EventNode)
    requires
        graph.is_dag(),
        graph.contains(n),
    ensures
        forall|i: int|
            0 <= i < graph.chains(n).len() ==> graph.contains_all(#[trigger] graph.chains(n)[i]),
    decreases graph.rank(n), 1nat, 0nat,
{
    if !graph.is_leaf(n) {
        assert(graph.chains(n) == graph.fan_chains(n, graph.followers(n).len()));
        lemma_fan_chains_contained(graph, n, graph.followers(n).len());
    }
}

proof fn lemma_fan_chains_contained<F>(graph: Events<F>, n: EventNode, k: nat)
    requires
        graph.is_dag(),
        graph.contains(n),
        k <= graph.followers(n).len(),
    ensures
        forall|i: int|
            0 <= i < graph.fan_chains(n, k).len() ==> graph.contains_all(
                #[trigger] graph.fan_chains(n, k)[i],
            ),
    decreases graph.rank(n), 0nat, k,
{
    if k > 0 {
        let branch = graph.followers(n)[k - 1];
        lemma_fan_chains_contained(graph, n, (k - 1) as nat);
        lemma_chains_contained(graph, branch);
        let before = graph.fan_chains(n, (k - 1) as nat);
        assert forall|i: int| 0 <= i < graph.fan_chains(n, k).len() implies graph.contains_all(
            #[trigger] graph.fan_chains(n, k)[i],
        ) by {
            if i >= before.len() {
                assert(graph.contains_all(graph.chains(branch)[i - before.len()]));
            }
        }
    }
}

/// There are as many chains from an event as there are leaves under it:
/// every chain starts at the event, and the chains end, one by one, in the
/// leaves under it.
pub proof fn lemma_chains_end_in_leaves<F>(graph: Events<F>, n: EventNode)
    requires
        graph.is_dag(),
        graph.contains(n),
    ensures
        graph.chains(n).len() == graph.leaves(n).len(),
        forall|i: int|
            0 <= i < graph.chains(n).len() ==> {
                let chain = #[trigger] graph.chains(n)[i];
                chain.len() > 0 && chain.first() == n && chain.last() == graph.leaves(n)[i]
            },
    decreases graph.rank(n), 1nat, 0nat,
{
    if !graph.is_leaf(n) {
        lemma_fan_chains_end_in_leaves(graph, n, graph.followers(n).len());
    }
}

proof fn lemma_fan_chains_end_in_leaves<F>(graph: Events<F>, n: EventNode, k: nat)
    requires
        graph.is_dag(),
        graph.contains(n),
        k <= graph.followers(n).len(),
    ensures
        graph.fan_chains(n, k).len() == graph.fan_leaves(n, k).len(),
        forall|i: int|
            0 <= i < graph.fan_chains(n, k).len() ==> {
                let chain = #[trigger] graph.fan_chains(n, k)[i];
                chain.len() > 0 && chain.first() == n && chain.last() == graph.fan_leaves(n, k)[i]
            },
    decreases graph.rank(n), 0nat, k,
{
    if k > 0 {
        let branch = graph.followers(n)[k - 1];
        lemma_fan_chains_end_in_leaves(graph, n, (k - 1) as nat);
        lemma_chains_end_in_leaves(graph, branch);
    }
}

/// Every chain from an event leads from that event to a leaf.
pub proof fn lemma_chains_lead_to_leaves<F>(graph: Events<F>, n: EventNode)
    requires
        graph.is_dag(),
        graph.contains(n),
    ensures
        forall|i: int|
            0 <= i < graph.chains(n).len() ==> graph.leads_to_leaf(
                #[trigger] graph.chains(n)[i],
                n,
            ),
    decreases graph.rank(n), 1nat, 0nat,
{
    if !graph.is_leaf(n) {
        assert(graph.chains(n) == graph.fan_chains(n, graph.followers(n).len()));
        lemma_fan_chains_lead_to_leaves(graph, n, graph.followers(n).len());
    }
}

proof fn lemma_fan_chains_lead_to_leaves<F>(graph: Events<F>, n: EventNode, k: nat)
    requires
        graph.is_dag(),
        graph.contains(n),
        k <= graph.followers(n).len(),
    ensures
        forall|i: int|
            0 <= i < graph.fan_chains(n, k).len() ==> graph.leads_to_leaf(
                #[trigger] graph.fan_chains(n, k)[i],
                n,
            ),
    decreases graph.rank(n), 0nat, k,
{
    if k > 0 {
        let branch = graph.followers(n)[k - 1];
        lemma_fan_chains_lead_to_leaves(graph, n, (k - 1) as nat);
        lemma_chains_lead_to_leaves(graph, branch);
        let before = graph.fan_chains(n, (k - 1) as nat);
        assert forall|i: int| 0 <= i < graph.fan_chains(n, k).len() implies graph.leads_to_leaf(
            #[trigger] graph.fan_chains(n, k)[i],
            n,
        ) by {
            if i >= before.len() {
                assert(graph.leads_to_leaf(graph.chains(branch)[i - before.len()], branch));
            }
        }
    }
}

/// The chains through the first followers of an event stay where they are
/// when more followers are taken into account.
proof fn lemma_fan_chains_grow<F>(graph: Events<F>, n: EventNode, k: nat, more: nat, i: int)
    requires
        graph.is_dag(),
        graph.contains(n),
        k <= more <= graph.followers(n).len(),
        0 <= i < graph.fan_chains(n, k).len(),
    ensures
        i < graph.fan_chains(n, more).len(),
        graph.fan_chains(n, more)[i] == graph.fan_chains(n, k)[i],
    decreases more - k,
{
    if k < more {
        lemma_fan_chains_grow(graph, n, k, (more - 1) as nat, i);
    }
}

/// Every path from an event to a leaf is one of the chains from that event.
pub proof fn lemma_paths_are_chains<F>(graph: Events<F>, n: EventNode, path: Seq<EventNode>)
    requires
        graph.is_dag(),
        graph.contains(n),
        graph.leads_to_leaf(path, n),
    ensures
        graph.chains(n).contains(path),
    decreases graph.rank(n),
{
    if graph.is_leaf(n) {
        assert(graph.chains(n)[0] == path);
    } else {
        let rest = path.skip(1);
        let k = choose|k: int|
            0 <= k < graph.followers(n).len() && graph.followers(n)[k] == path[1];
        let branch = graph.followers(n)[k];
        lemma_paths_are_chains(graph, branch, rest);
        let at = choose|at: int|
            0 <= at < graph.chains(branch).len() && graph.chains(branch)[at] == rest;
        let before = graph.fan_chains(n, k as nat);
        lemma_fan_chains_grow(
            graph,
            n,
            (k + 1) as nat,
            graph.followers(n).len(),
            before.len() + at,
        );
        assert(graph.chains(n)[before.len() + at] == path);
    }
}

/// After every leaf of a graph was extended by one more event, the leaves
/// under an event are the events that were added under its leaves of
/// before, in the same order: as many as before, and none of them an event
/// of the graph of before.
pub proof fn lemma_leaves_after_extension<F>(graph: Events<F>, grown: Events<F>, n: EventNode)
    requires
        graph.is_dag(),
        grown.is_dag(),
        graph.leaves_extended_in(grown),
        graph.contains(n),
    ensures
        grown.leaves(n) == grown.first_followers(graph.leaves(n)),
        grown.leaves(n).len() == graph.leaves(n).len(),
        forall|i: int|
            0 <= i < grown.leaves(n).len() ==> !graph.contains(#[trigger] grown.leaves(n)[i]),
    decreases graph.rank(n), 1nat, 0nat,
{
    if graph.is_leaf(n) {
        let under = grown.followers(n);
        assert(grown.fan_leaves(n, 1) == grown.fan_leaves(n, 0) + grown.leaves(under[0]));
    } else {
        lemma_fan_leaves_after_extension(graph, grown, n, graph.followers(n).len());
    }
}

proof fn lemma_fan_leaves_after_extension<F>(
    graph: Events<F>,
    grown: Events<F>,
    n: EventNode,
    k: nat,
)
    requires
        graph.is_dag(),
        grown.is_dag(),
        graph.leaves_extended_in(grown),
        graph.contains(n),
        !graph.is_leaf(n),
        k <= graph.followers(n).len(),
    ensures
        grown.fan_leaves(n, k) == grown.first_followers(graph.fan_leaves(n, k)),
        forall|i: int|
            0 <= i < grown.fan_leaves(n, k).len() ==> !graph.contains(
                #[trigger] grown.fan_leaves(n, k)[i],
            ),
    decreases graph.rank(n), 0nat, k,
{
    if k != 0 {
        let branch = graph.followers(n)[k - 1];
        lemma_fan_leaves_after_extension(graph, grown, n, (k - 1) as nat);
        lemma_leaves_after_extension(graph, grown, branch);
    }
}

/// The leaves under an event are events of the graph that nothing follows.
pub proof fn lemma_leaves_are_leaves<F>(graph: Events<F>, n: EventNode)
    requires
        graph.is_dag(),
        graph.contains(n),
    ensures
        graph.contains_all(graph.leaves(n)),
        graph.all_leaves(graph.leaves(n)),
{
    lemma_chains_end_in_leaves(graph, n);
    lemma_chains_lead_to_leaves(graph, n);
    assert forall|i: int| 0 <= i < graph.leaves(n).len() implies graph.contains(
        #[trigger] graph.leaves(n)[i],
    ) && graph.is_leaf(graph.leaves(n)[i]) by {
        let chain = graph.chains(n)[i];
        assert(graph.leads_to_leaf(chain, n));
        assert(graph.contains(chain[chain.len() - 1]));
    }
}

} // verus!
