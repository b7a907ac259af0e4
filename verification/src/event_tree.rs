//! The event graph for operations that can be copied: besides the chains of
//! events it hands out the chains of operations themselves.

use vstd::prelude::*;
use crate::event_graph;
use crate::event_graph::{EventNode, EventNodes, OperationChain};
use crate::event_model::{Events, outcome, prefixed, runs};
use crate::laws::chains::{lemma_chains_end_in_leaves, lemma_leaves_are_leaves};
use crate::laws::evaluation::{lemma_accepted_chains_run, lemma_depth_results_by_chain};

verus! {

/// What a vector of operation chains holds: the operations of each chain,
/// chain by chain.
pub open spec fn operation_chain_views<F>(chains: Seq<OperationChain<F>>) -> Seq<Seq<F>> {
    Seq::new(chains.len(), |i: int| chains[i]@)
}

/// Every chain of `chains` with `operation` put in front of it.
pub open spec fn in_front<F>(operation: F, chains: Seq<Seq<F>>) -> Seq<Seq<F>> {
    Seq::new(chains.len(), |i: int| seq![operation] + chains[i])
}

/// A simulation that may branch into alternative events, each of which holds
/// an operation from `T` to `T` that can be copied.
#[verifier::reject_recursive_types(T)]
pub struct EventDAG<T, F: Fn(T) -> T + Copy> {
    graph: event_graph::EventDAG<T, F>,
}

impl<T, F: Fn(T) -> T + Copy> View for EventDAG<T, F> {
    type V = Events<F>;

    closed spec fn view(&self) -> Events<F> {
        self.graph@
    }
}

impl<T: Copy, F: Fn(T) -> T + Copy> EventDAG<T, F> {
    /// A graph of one event that holds `operation`. Its handle is 0.
    pub fn new(operation: F) -> (graph: Self)
        ensures
            graph@ == Events::single(operation),
            graph@.is_dag(),
    {
        EventDAG { graph: event_graph::EventDAG::new(operation) }
    }

    /// The number of events in the graph. The handles of the graph are the
    /// numbers below it.
    pub fn len(&self) -> (count: usize)
        ensures
            count == self@.len(),
    {
        self.graph.len()
    }

    /// Moves the events of `branch` into this graph, behind the events that
    /// it holds already, and makes the first of them a follower of `node`.
    pub fn add_branch(&mut self, node: EventNode, branch: EventDAG<T, F>)
        requires
            old(self)@.contains(node),
            branch@.wf(),
        ensures
            final(self)@ == old(self)@.absorb(branch@).with_follower(
                node,
                old(self)@.len() as EventNode,
            ),
            old(self)@.len() + branch@.len() <= usize::MAX,
            old(self)@.is_dag() && branch@.is_dag() && branch@.len() > 0 ==> final(self)@.is_dag(),
    {
        self.graph.add_branch(node, branch.graph);
    }

    /// Appends `follower` to the followers of `node`. Nothing is checked:
    /// keeping the graph free of cycles is up to the caller.
    pub fn add_follower_node(&mut self, node: EventNode, follower: EventNode)
        requires
            old(self)@.contains(node),
        ensures
            final(self)@ == old(self)@.with_follower(node, follower),
    {
        self.graph.add_follower_node(node, follower);
    }

    /// Whether nothing follows `node`.
    pub fn is_leaf(&self, node: EventNode) -> (leaf: bool)
        requires
            self@.contains(node),
        ensures
            leaf == self@.is_leaf(node),
    {
        self.graph.is_leaf(node)
    }

    /// Whether the graph is well-formed and free of cycles, which is what
    /// walking and evaluating it asks for.
    pub fn is_dag(&self) -> (ok: bool)
        ensures
            ok == self@.is_dag(),
    {
        self.graph.is_dag()
    }

    /// The handles of the leaves under `node`, depth first. A leaf is its
    /// own only leaf.
    pub fn collect_leaf_nodes(&self, node: EventNode) -> (leaves: EventNodes)
        requires
            self@.is_dag(),
            self@.contains(node),
        ensures
            leaves@ == self@.leaves(node),
            self@.contains_all(leaves@),
            self@.all_leaves(leaves@),
        decreases self@.rank(node),
    {
        proof {
            lemma_leaves_are_leaves(self@, node);
        }
        let mut result: EventNodes = Vec::new();
        let followers = self.graph.followers(node);
        if followers.len() == 0 {
            result.push(node);
            return result;
        }
        let mut k: usize = 0;
        while k < followers.len()
            invariant
                self@.is_dag(),
                self@.contains(node),
                followers@ == self@.followers(node),
                k <= followers.len(),
                result@ == self@.fan_leaves(node, k as nat),
            decreases followers.len() - k,
        {
            let branch = followers[k];
            if !self.graph.is_leaf(branch) {
                let mut below = self.collect_leaf_nodes(branch);
                result.append(&mut below);
            } else {
                assert(self@.leaves(branch) == seq![branch]);
                result.push(branch);
            }
            k += 1;
        }
        result
    }

    /// The chains from `node`, each as the operations of the events on a path
    /// from `node` to a leaf, depth first.
    pub fn operation_chains(&self, node: EventNode) -> (chains: Vec<OperationChain<F>>)
        requires
            self@.is_dag(),
            self@.contains(node),
        ensures
            operation_chain_views(chains@) == self@.operation_chains(node),
            chains@.len() == self@.chains(node).len(),
        decreases self@.rank(node),
    {
        let mut result: Vec<OperationChain<F>> = Vec::new();
        let operation = *self.graph.operation(node);
        let followers = self.graph.followers(node);
        if followers.len() == 0 {
            let mut current: OperationChain<F> = Vec::new();
            current.push(operation);
            result.push(current);
            proof {
                assert(self@.chain_operations(seq![node]) =~= seq![operation]);
            }
            return result;
        }
        let mut k: usize = 0;
        while k < followers.len()
            invariant
                self@.is_dag(),
                self@.contains(node),
                operation == self@.operation(node),
                followers@ == self@.followers(node),
                k <= followers.len(),
                operation_chain_views(result@) == self@.operations_of(
                    self@.fan_chains(node, k as nat),
                ),
            decreases followers.len() - k,
        {
            let branch = followers[k];
            let from_branch = self.operation_chains(branch);
            let ghost before = operation_chain_views(result@);
            let ghost below = operation_chain_views(from_branch@);
            let mut i: usize = 0;
            while i < from_branch.len()
                invariant
                    i <= from_branch.len(),
                    below == operation_chain_views(from_branch@),
                    operation_chain_views(result@) == before + in_front(operation, below).take(
                        i as int,
                    ),
                decreases from_branch.len() - i,
            {
                let chain = &from_branch[i];
                let mut current: OperationChain<F> = Vec::new();
                current.push(operation);
                let mut j: usize = 0;
                while j < chain.len()
                    invariant
                        j <= chain.len(),
                        current@ == seq![operation] + chain@.take(j as int),
                    decreases chain.len() - j,
                {
                    current.push(chain[j]);
                    j += 1;
                }
                proof {
                    let added = in_front(operation, below);
                    assert(current@ == added[i as int]);
                }
                let ghost so_far = operation_chain_views(result@);
                result.push(current);
                assert(operation_chain_views(result@) =~= so_far.push(current@));
                i += 1;
            }
            proof {
                let under = self@.chains(branch);
                let added = in_front(operation, below);
                assert(added =~= self@.operations_of(prefixed(node, under))) by {
                    assert forall|c: int| 0 <= c < under.len() implies added[c]
                        == self@.chain_operations(seq![node] + under[c]) by {}
                }
            }
            k += 1;
        }
        result
    }

    /// Applies every chain from `node` to `payload`, operation by operation,
    /// and returns what each chain makes of it, in the chains' order. The
    /// graph is used up.
    pub fn evaluate_chains(self, node: EventNode, payload: T) -> (results: Vec<T>)
        requires
            self@.is_dag(),
            self@.contains(node),
            self@.accepts(node, payload),
        ensures
            self@.evaluates_by_chain(node, payload, results@),
            results@.len() == self@.leaves(node).len(),
    {
        let chains = self.operation_chains(node);
        proof {
            lemma_accepted_chains_run(self@, node, payload);
            lemma_chains_end_in_leaves(self@, node);
        }
        let ghost all = self@.operation_chains(node);
        let mut results: Vec<T> = Vec::new();
        let mut i: usize = 0;
        while i < chains.len()
            invariant
                i <= chains.len(),
                self@.is_dag(),
                self@.contains(node),
                all == self@.operation_chains(node),
                operation_chain_views(chains@) == all,
                chains@.len() == self@.chains(node).len(),
                forall|c: int|
                    0 <= c < self@.chains(node).len() ==> runs(
                        self@.chain_operations(#[trigger] self@.chains(node)[c]),
                        payload,
                    ),
                results.len() == i,
                forall|c: int|
                    0 <= c < i ==> outcome(
                        self@.chain_operations(self@.chains(node)[c]),
                        payload,
                        #[trigger] results[c],
                    ),
            decreases chains.len() - i,
        {
            let chain = &chains[i];
            let ghost operations = chain@;
            proof {
                assert(operations == all[i as int]);
                assert(operations.skip(0) =~= operations);
            }
            let mut current = payload;
            let mut j: usize = 0;
            while j < chain.len()
                invariant
                    j <= chain.len(),
                    operations == chain@,
                    outcome(operations.take(j as int), payload, current),
                    runs(operations.skip(j as int), current),
                decreases chain.len() - j,
            {
                let operation = chain[j];
                let ghost before = current;
                current = operation(current);
                proof {
                    assert(operations.skip(j as int).drop_first() =~= operations.skip(j + 1));
                    assert(operations.take(j + 1).drop_last() =~= operations.take(j as int));
                    assert(call_ensures(operations.take(j + 1).last(), (before,), current));
                }
                j += 1;
            }
            results.push(current);
            i += 1;
        }
        results
    }

    /// Evaluates the whole graph under `node` on `payload`, depth first: the
    /// operation of `node` is applied once, and what it returns is handed to
    /// every follower in turn. Returns one state for each leaf reached.
    pub fn evaluate_depth(&self, node: EventNode, payload: T) -> (results: Vec<T>)
        requires
            self@.is_dag(),
            self@.contains(node),
            self@.accepts(node, payload),
        ensures
            self@.evaluates_to(node, payload, results@),
            results@.len() == self@.leaves(node).len(),
        decreases self@.rank(node),
    {
        let mut results: Vec<T> = Vec::new();
        let current = self.graph.apply(node, payload);
        let followers = self.graph.followers(node);
        if followers.len() == 0 {
            results.push(current);
            return results;
        }
        let mut k: usize = 0;
        while k < followers.len()
            invariant
                self@.is_dag(),
                self@.contains(node),
                self@.accepts(node, payload),
                call_ensures(self@.operation(node), (payload,), current),
                followers@ == self@.followers(node),
                k <= followers.len(),
                self@.fan_evaluates_to(node, k as nat, current, results@),
            decreases followers.len() - k,
        {
            let branch = followers[k];
            let mut below = self.evaluate_depth(branch, current);
            results.append(&mut below);
            k += 1;
        }
        proof {
            lemma_depth_results_by_chain(self@, node, payload, results@);
            lemma_chains_end_in_leaves(self@, node);
        }
        results
    }
}

} // verus!
