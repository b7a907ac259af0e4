//! The event graph: events held in one arena and named by their position in
//! it.
//!
//! An event is reached by its handle from any number of predecessors and
//! from the frontiers that list it, and it gains followers while others
//! already point to it. Nothing keeps a caller from closing a cycle; the
//! walks and the evaluations ask for a graph without one, and
//! [`EventDAG::is_dag`] tells whether a graph is.

use vstd::prelude::*;
use std::marker::PhantomData;
use crate::event_model::{Event, Events, outcome, prefixed, runs, shifted};
use crate::laws::acyclic::{
    above_all, lemma_above_all, lemma_absorb_is_dag, lemma_branch_is_dag, lemma_settle,
    lemma_single_is_dag, lemma_stuck_is_cyclic, lemma_with_node_is_dag, unsettled,
};
use crate::laws::chains::{
    lemma_chains_contained, lemma_chains_end_in_leaves, lemma_leaves_are_leaves,
};
use crate::laws::evaluation::{lemma_accepted_chains_run, lemma_depth_results_by_chain};

verus! {

/// The handle of an event: its position in the graph that holds it.
pub type EventNode = usize;

/// Handles in a row: the followers of an event, a frontier, a chain.
pub type EventNodes = Vec<EventNode>;

/// Operations in the order in which they are to be applied.
pub type OperationChain<F> = Vec<F>;

/// Any function from `T` to `T`.
pub type UnboundOperation<T> = dyn Fn(T) -> T;

/// An operation behind a pointer, so that events with functions and closures
/// of different kinds fit into one graph.
pub type BoxedOperation<T> = Box<UnboundOperation<T>>;

/// What a vector of chains holds: the handles of each chain, chain by chain.
pub open spec fn chain_views(chains: Seq<EventNodes>) -> Seq<Seq<EventNode>> {
    Seq::new(chains.len(), |i: int| chains[i]@)
}

struct Node<F> {
    operation: F,
    followers: EventNodes,
}

/// A simulation that may branch into alternative events. Every event holds
/// an operation from `T` to `T`, where `T` is the simulated state; `T` is
/// `Copy` so that one state can be handed to every branch.
///
/// Events are shared by handle: any number of events may name the same
/// follower, and an event gains followers after others already point to it.
/// The view of a graph is its model, [`Events`]: what every event holds and
/// what follows it.
#[verifier::reject_recursive_types(T)]
pub struct EventDAG<T, F: Fn(T) -> T> {
    nodes: Vec<Node<F>>,
    state: PhantomData<T>,
}

impl<T, F: Fn(T) -> T> View for EventDAG<T, F> {
    type V = Events<F>;

    closed spec fn view(&self) -> Events<F> {
        Events {
            nodes: Seq::new(
                self.nodes@.len(),
                |i: int|
                    Event {
                        operation: self.nodes@[i].operation,
                        followers: self.nodes@[i].followers@,
                    },
            ),
        }
    }
}

impl<T: Copy, F: Fn(T) -> T> EventDAG<T, F> {
    /// A graph of one event that holds `operation`. Its handle is 0.
    pub fn new(operation: F) -> (graph: Self)
        ensures
            graph@ == Events::single(operation),
            graph@.is_dag(),
    {
        let mut nodes = Vec::new();
        nodes.push(Node { operation, followers: Vec::new() });
        let graph = EventDAG { nodes, state: PhantomData };
        proof {
            assert(graph@.nodes =~= Events::single(operation).nodes);
            lemma_single_is_dag(operation);
        }
        graph
    }

    /// The number of events in the graph. The handles of the graph are the
    /// numbers below it.
    pub fn len(&self) -> (count: usize)
        ensures
            count == self@.len(),
    {
        self.nodes.len()
    }

    /// A graph holds no more events than a handle can name.
    pub proof fn lemma_len_bounded(&self)
        ensures
            self@.len() <= usize::MAX,
    {
        assert(self.nodes.len() == self.nodes@.len());
    }

    /// Adds an event without followers that holds `operation`, and returns its handle.
    pub fn new_node(&mut self, operation: F) -> (node: EventNode)
        ensures
            node == old(self)@.len(),
            final(self)@ == old(self)@.with_node(operation),
            old(self)@.is_dag() ==> final(self)@.is_dag(),
    {
        let node = self.nodes.len();
        self.nodes.push(Node { operation, followers: Vec::new() });
        proof {
            assert(self@.nodes =~= old(self)@.with_node(operation).nodes);
            if old(self)@.is_dag() {
                lemma_with_node_is_dag(old(self)@, operation);
            }
        }
        node
    }

    /// Appends `follower` to the followers of `node`. Nothing is checked:
    /// keeping the graph free of cycles is up to the caller.
    pub fn add_follower_node(&mut self, node: EventNode, follower: EventNode)
        requires
            old(self)@.contains(node),
        ensures
            final(self)@ == old(self)@.with_follower(node, follower),
    {
        self.nodes[node].followers.push(follower);
        assert(self@.followers(node) =~= old(self)@.followers(node) + seq![follower]);
        assert(self@.nodes =~= old(self)@.with_follower(node, follower).nodes);
    }

    /// Moves the events of this graph into `graph`, behind the events that
    /// `graph` holds already, and returns the handle that this graph's first
    /// event has there. The events keep their order and their followers.
    pub fn wrap(self, graph: &mut EventDAG<T, F>) -> (node: EventNode)
        requires
            self@.wf(),
        ensures
            node == old(graph)@.len(),
            final(graph)@ == old(graph)@.absorb(self@),
            old(graph)@.len() + self@.len() <= usize::MAX,
            old(graph)@.is_dag() && self@.is_dag() ==> final(graph)@.is_dag(),
    {
        let ghost start = graph@;
        let ghost moved = self@;
        let offset = graph.nodes.len();
        for node in it: self.nodes
            invariant
                moved.len() == it.seq().len(),
                forall|i: int|
                    0 <= i < it.seq().len() ==> moved.nodes[i] == (Event {
                        operation: (#[trigger] it.seq()[i]).operation,
                        followers: it.seq()[i].followers@,
                    }),
                offset == start.len(),
                graph.nodes@.len() == offset + it.index(),
                forall|i: int| 0 <= i < offset ==> graph@.nodes[i] == start.nodes[i],
                forall|i: int|
                    0 <= i < it.index() ==> (#[trigger] graph@.nodes[offset + i])
                        == moved.nodes[i],
        {
            let ghost before = graph@;
            graph.nodes.push(node);
            assert forall|i: int| 0 <= i < it.index() + 1 implies (
            #[trigger] graph@.nodes[offset + i]) == moved.nodes[i] by {
                if i < it.index() {
                    assert(graph@.nodes[offset + i] == before.nodes[offset + i]);
                }
            }
        }
        let count = graph.nodes.len();
        let mut n: usize = offset;
        while n < count
            invariant
                moved.wf(),
                offset == start.len(),
                count == offset + moved.len(),
                offset <= n <= count,
                graph.nodes@.len() == count,
                forall|i: int| 0 <= i < offset ==> graph@.nodes[i] == start.nodes[i],
                forall|i: int|
                    0 <= i < n - offset ==> (#[trigger] graph@.nodes[offset + i]) == (Event {
                        operation: moved.nodes[i].operation,
                        followers: shifted(moved.nodes[i].followers, offset as nat),
                    }),
                forall|i: int|
                    n - offset <= i < moved.len() ==> (#[trigger] graph@.nodes[offset + i])
                        == moved.nodes[i],
            decreases count - n,
        {
            let ghost at = n - offset;
            let ghost own = moved.followers(at as EventNode);
            let mut k: usize = 0;
            assert(graph@.nodes[offset + at] == moved.nodes[at]);
            while k < graph.nodes[n].followers.len()
                invariant
                    moved.wf(),
                    offset == start.len(),
                    count == offset + moved.len(),
                    offset <= n < count,
                    at == n - offset,
                    own == moved.followers(at as EventNode),
                    graph.nodes@.len() == count,
                    k <= own.len(),
                    graph.nodes@[n as int].operation == moved.nodes[at].operation,
                    graph.nodes@[n as int].followers@ == shifted(own.take(k as int), offset as nat)
                        + own.skip(k as int),
                    forall|i: int| 0 <= i < offset ==> graph@.nodes[i] == start.nodes[i],
                    forall|i: int|
                        0 <= i < at ==> (#[trigger] graph@.nodes[offset + i]) == (Event {
                            operation: moved.nodes[i].operation,
                            followers: shifted(moved.nodes[i].followers, offset as nat),
                        }),
                    forall|i: int|
                        at < i < moved.len() ==> (#[trigger] graph@.nodes[offset + i])
                            == moved.nodes[i],
                decreases own.len() - k,
            {
                let ghost before = graph@;
                let follower = graph.nodes[n].followers[k];
                graph.nodes[n].followers.set(k, follower + offset);
                proof {
                    assert forall|i: int| 0 <= i < at implies (#[trigger] graph@.nodes[offset + i])
                        == (Event {
                        operation: moved.nodes[i].operation,
                        followers: shifted(moved.nodes[i].followers, offset as nat),
                    }) by {
                        assert(graph@.nodes[offset + i] == before.nodes[offset + i]);
                    }
                    assert forall|i: int| at < i < moved.len() implies (
                    #[trigger] graph@.nodes[offset + i]) == moved.nodes[i] by {
                        assert(graph@.nodes[offset + i] == before.nodes[offset + i]);
                    }
                }
                k += 1;
            }
            n += 1;
        }
        proof {
            let merged = start.absorb(moved);
            assert forall|i: int| 0 <= i < merged.nodes.len() implies graph@.nodes[i]
                == merged.nodes[i] by {
                if i >= offset {
                    assert(graph@.nodes[offset + (i - offset)] == merged.nodes[i]);
                }
            }
            assert(graph@.nodes =~= merged.nodes);
            if start.is_dag() && moved.is_dag() {
                lemma_absorb_is_dag(start, moved);
            }
        }
        offset
    }

    /// Moves the events of `branch` into this graph and makes the first of
    /// them a follower of `node`.
    pub fn add_branch(&mut self, node: EventNode, branch: EventDAG<T, F>)
        requires
            old(self)@.contains(node),
            branch@.wf(),
        ensures
            final(self)@ == old(self)@.absorb(branch@).with_follower(
                node,
                old(self)@.len() as EventNode,
            ),
            old(self)@.len() + branch@.len() <= usize::MAX,
            old(self)@.is_dag() && branch@.is_dag() && branch@.len() > 0 ==> final(self)@.is_dag(),
    {
        let ghost taken = branch@;
        let root = branch.wrap(self);
        self.add_follower_node(node, root);
        proof {
            if old(self)@.is_dag() && taken.is_dag() && taken.len() > 0 {
                lemma_branch_is_dag(old(self)@, node, taken);
            }
        }
    }

    /// The operation that `node` holds.
    pub fn operation(&self, node: EventNode) -> (operation: &F)
        requires
            self@.contains(node),
        ensures
            *operation == self@.operation(node),
    {
        &self.nodes[node].operation
    }

    /// Applies the operation of `node` to `state`.
    pub fn apply(&self, node: EventNode, state: T) -> (made: T)
        requires
            self@.contains(node),
            call_requires(self@.operation(node), (state,)),
        ensures
            call_ensures(self@.operation(node), (state,), made),
    {
        (self.nodes[node].operation)(state)
    }

    /// The events that follow `node`, in the order in which they were added.
    pub fn followers(&self, node: EventNode) -> (followers: &EventNodes)
        requires
            self@.contains(node),
        ensures
            followers@ == self@.followers(node),
    {
        &self.nodes[node].followers
    }

    /// Whether nothing follows `node`.
    pub fn is_leaf(&self, node: EventNode) -> (leaf: bool)
        requires
            self@.contains(node),
        ensures
            leaf == self@.is_leaf(node),
    {
        self.nodes[node].followers.len() == 0
    }

    /// Whether every follower of every event is an event of the graph.
    pub fn is_well_formed(&self) -> (ok: bool)
        ensures
            ok == self@.wf(),
    {
        let count = self.nodes.len();
        let mut n: usize = 0;
        while n < count
            invariant
                n <= count,
                count == self@.len(),
                forall|m: EventNode, k: int|
                    m < n && 0 <= k < self@.followers(m).len() ==> self@.contains(
                        #[trigger] self@.followers(m)[k],
                    ),
            decreases count - n,
        {
            let followers = &self.nodes[n].followers;
            let mut k: usize = 0;
            while k < followers.len()
                invariant
                    k <= followers.len(),
                    n < count,
                    count == self@.len(),
                    followers@ == self@.followers(n),
                    forall|j: int| 0 <= j < k ==> self@.contains(#[trigger] followers@[j]),
                decreases followers.len() - k,
            {
                if followers[k] >= count {
                    return false;
                }
                k += 1;
            }
            n += 1;
        }
        true
    }

    /// Whether the graph is well-formed and free of cycles, which is what
    /// walking and evaluating it asks for. Events are settled round by
    /// round, each as soon as all its followers are settled; a cycle shows
    /// in a round that settles nothing while events are left. A round goes
    /// from the last event to the first, so that one round settles a graph
    /// in which every event was added before its followers.
    pub fn is_dag(&self) -> (ok: bool)
        ensures
            ok == self@.is_dag(),
    {
        if !self.is_well_formed() {
            return false;
        }
        let count = self.nodes.len();
        let mut settled: Vec<bool> = Vec::new();
        let mut i: usize = 0;
        while i < count
            invariant
                i <= count,
                settled@.len() == i,
                forall|j: int| 0 <= j < i ==> !settled@[j],
            decreases count - i,
        {
            settled.push(false);
            i += 1;
        }
        let ghost mut rank: Seq<nat> = Seq::new(count as nat, |i: int| 0nat);
        loop
            invariant
                self@.wf(),
                count == self@.len(),
                settled@.len() == count,
                rank.len() == count,
                forall|m: EventNode, k: int|
                    m < count && settled@[m as int] && 0 <= k < self@.followers(m).len()
                        ==> settled@[(#[trigger] self@.followers(m)[k]) as int]
                        && rank[self@.followers(m)[k] as int] < rank[m as int],
            decreases unsettled(settled@),
        {
            let ghost at_start = settled@;
            let ghost mut open: EventNode = 0;
            let mut progress = false;
            let mut remaining = false;
            let mut n: usize = count;
            while n > 0
                invariant
                    n <= count,
                    self@.wf(),
                    count == self@.len(),
                    settled@.len() == count,
                    rank.len() == count,
                    forall|m: EventNode, k: int|
                        m < count && settled@[m as int] && 0 <= k < self@.followers(m).len()
                            ==> settled@[(#[trigger] self@.followers(m)[k]) as int]
                            && rank[self@.followers(m)[k] as int] < rank[m as int],
                    unsettled(settled@) <= unsettled(at_start),
                    progress ==> unsettled(settled@) < unsettled(at_start),
                    !remaining ==> forall|m: EventNode| n <= m < count ==> settled@[m as int],
                    remaining ==> n <= open < count && !settled@[open as int],
                    !progress ==> forall|m: EventNode|
                        n <= m < count && !settled@[m as int] ==> exists|k: int|
                            0 <= k < self@.followers(m).len() && !settled@[(
                            #[trigger] self@.followers(m)[k]) as int],
                decreases n,
            {
                n -= 1;
                if !settled[n] {
                    let followers = &self.nodes[n].followers;
                    let mut ready = true;
                    let mut k: usize = 0;
                    while k < followers.len()
                        invariant
                            k <= followers.len(),
                            n < count,
                            self@.wf(),
                            count == self@.len(),
                            settled@.len() == count,
                            followers@ == self@.followers(n),
                            ready ==> forall|j: int|
                                0 <= j < k ==> settled@[(#[trigger] followers@[j]) as int],
                            !ready ==> exists|j: int|
                                0 <= j < followers@.len() && !settled@[(
                                #[trigger] self@.followers(n)[j]) as int],
                        decreases followers.len() - k,
                    {
                        if !settled[followers[k]] {
                            ready = false;
                        }
                        k += 1;
                    }
                    if ready {
                        let ghost ranked = rank;
                        proof {
                            lemma_settle(settled@, n as int);
                            rank = rank.update(n as int, above_all(rank, self@.followers(n)));
                        }
                        settled.set(n, true);
                        progress = true;
                        assert forall|m: EventNode, k: int|
                            m < count && settled@[m as int] && 0 <= k < self@.followers(
                                m,
                            ).len() implies settled@[(#[trigger] self@.followers(m)[k]) as int]
                            && rank[self@.followers(m)[k] as int] < rank[m as int] by {
                            if m == n {
                                lemma_above_all(ranked, self@.followers(n), k);
                            }
                        }
                    } else {
                        remaining = true;
                        proof {
                            open = n;
                        }
                    }
                }
            }
            if !remaining {
                assert(self@.ranked_by(rank));
                return true;
            }
            if !progress {
                proof {
                    lemma_stuck_is_cyclic(self@, settled@, open);
                }
                return false;
            }
        }
    }

    /// The handles of the leaves under `node`, depth first.
    pub fn collect_leaf_nodes(&self, node: EventNode) -> (leaves: EventNodes)
        requires
            self@.is_dag(),
            self@.contains(node),
        ensures
            leaves@ == self@.leaves(node),
            self@.contains_all(leaves@),
            self@.all_leaves(leaves@),
        decreases self@.rank(node),
    {
        proof {
            lemma_leaves_are_leaves(self@, node);
        }
        let mut result: EventNodes = Vec::new();
        let count = self.nodes[node].followers.len();
        if count == 0 {
            result.push(node);
            return result;
        }
        let mut k: usize = 0;
        while k < count
            invariant
                self@.is_dag(),
                self@.contains(node),
                count == self@.followers(node).len(),
                k <= count,
                result@ == self@.fan_leaves(node, k as nat),
            decreases count - k,
        {
            let branch = self.nodes[node].followers[k];
            let mut below = self.collect_leaf_nodes(branch);
            result.append(&mut below);
            k += 1;
        }
        result
    }

    /// The chains from `node`: each one the handles of a path from `node` to
    /// a leaf, depth first.
    pub fn node_chains(&self, node: EventNode) -> (chains: Vec<EventNodes>)
        requires
            self@.is_dag(),
            self@.contains(node),
        ensures
            chain_views(chains@) == self@.chains(node),
            chains@.len() == self@.chains(node).len(),
        decreases self@.rank(node),
    {
        let mut result: Vec<EventNodes> = Vec::new();
        let count = self.nodes[node].followers.len();
        if count == 0 {
            let mut current: EventNodes = Vec::new();
            current.push(node);
            result.push(current);
            return result;
        }
        let mut k: usize = 0;
        while k < count
            invariant
                self@.is_dag(),
                self@.contains(node),
                count == self@.followers(node).len(),
                k <= count,
                chain_views(result@) == self@.fan_chains(node, k as nat),
            decreases count - k,
        {
            let branch = self.nodes[node].followers[k];
            let from_branch = self.node_chains(branch);
            let ghost before = chain_views(result@);
            let mut i: usize = 0;
            while i < from_branch.len()
                invariant
                    i <= from_branch.len(),
                    chain_views(result@) == before + prefixed(node, chain_views(from_branch@)).take(
                        i as int,
                    ),
                decreases from_branch.len() - i,
            {
                let chain = &from_branch[i];
                let mut current: EventNodes = Vec::new();
                current.push(node);
                let mut j: usize = 0;
                while j < chain.len()
                    invariant
                        j <= chain.len(),
                        current@ == seq![node] + chain@.take(j as int),
                    decreases chain.len() - j,
                {
                    current.push(chain[j]);
                    j += 1;
                }
                proof {
                    let added = prefixed(node, chain_views(from_branch@));
                    assert(current@ == added[i as int]);
                }
                let ghost so_far = chain_views(result@);
                result.push(current);
                assert(chain_views(result@) =~= so_far.push(current@));
                i += 1;
            }
            k += 1;
        }
        result
    }

    /// Applies each of `chains` to `payload`, operation by operation, and
    /// returns what each chain makes of it, in the chains' order.
    pub fn apply_chains(&self, chains: &Vec<EventNodes>, payload: T) -> (results: Vec<T>)
        requires
            forall|c: int|
                0 <= c < chains@.len() ==> self@.contains_all((#[trigger] chains@[c])@) && runs(
                    self@.chain_operations(chains@[c]@),
                    payload,
                ),
        ensures
            results@.len() == chains@.len(),
            forall|c: int|
                0 <= c < chains@.len() ==> outcome(
                    self@.chain_operations(chains@[c]@),
                    payload,
                    #[trigger] results@[c],
                ),
    {
        let mut results: Vec<T> = Vec::new();
        let mut i: usize = 0;
        while i < chains.len()
            invariant
                forall|c: int|
                    0 <= c < chains@.len() ==> self@.contains_all((#[trigger] chains@[c])@)
                        && runs(self@.chain_operations(chains@[c]@), payload),
                i <= chains.len(),
                results.len() == i,
                forall|c: int|
                    0 <= c < i ==> outcome(
                        self@.chain_operations(chains@[c]@),
                        payload,
                        #[trigger] results@[c],
                    ),
            decreases chains.len() - i,
        {
            let chain = &chains[i];
            let ghost operations = self@.chain_operations(chain@);
            let mut current = payload;
            let mut j: usize = 0;
            assert(operations.skip(0) =~= operations);
            while j < chain.len()
                invariant
                    j <= chain.len(),
                    self@.contains_all(chain@),
                    operations == self@.chain_operations(chain@),
                    outcome(operations.take(j as int), payload, current),
                    runs(operations.skip(j as int), current),
                decreases chain.len() - j,
            {
                let event = chain[j];
                let ghost before = current;
                current = self.apply(event, current);
                proof {
                    assert(operations.skip(j as int).drop_first() =~= operations.skip(j + 1));
                    assert(operations.take(j + 1).drop_last() =~= operations.take(j as int));
                    assert(call_ensures(operations.take(j + 1).last(), (before,), current));
                }
                j += 1;
            }
            results.push(current);
            i += 1;
        }
        results
    }

    /// Applies every chain from `node` to `payload`, operation by operation,
    /// and returns what each chain makes of it, in the chains' order.
    pub fn evaluate_chains(&self, node: EventNode, payload: T) -> (results: Vec<T>)
        requires
            self@.is_dag(),
            self@.contains(node),
            self@.accepts(node, payload),
        ensures
            self@.evaluates_by_chain(node, payload, results@),
            results@.len() == self@.leaves(node).len(),
    {
        let chains = self.node_chains(node);
        proof {
            lemma_chains_contained(self@, node);
            lemma_accepted_chains_run(self@, node, payload);
            lemma_chains_end_in_leaves(self@, node);
            assert forall|c: int| 0 <= c < chains@.len() implies (#[trigger] chains@[c])@
                == self@.chains(node)[c] by {}
        }
        self.apply_chains(&chains, payload)
    }

    /// Evaluates the whole graph under `node` on `payload`, depth first: the
    /// operation of `node` is applied once, and what it returns is handed to
    /// every follower in turn. Returns one state for each leaf reached.
    pub fn evaluate_depth(&self, node: EventNode, payload: T) -> (results: Vec<T>)
        requires
            self@.is_dag(),
            self@.contains(node),
            self@.accepts(node, payload),
        ensures
            self@.evaluates_to(node, payload, results@),
            results@.len() == self@.leaves(node).len(),
        decreases self@.rank(node),
    {
        let mut results: Vec<T> = Vec::new();
        let current = (self.nodes[node].operation)(payload);
        let count = self.nodes[node].followers.len();
        if count == 0 {
            results.push(current);
            return results;
        }
        proof {
            lemma_chains_end_in_leaves(self@, node);
        }
        let mut k: usize = 0;
        while k < count
            invariant
                self@.is_dag(),
                self@.contains(node),
                self@.accepts(node, payload),
                call_ensures(self@.operation(node), (payload,), current),
                count == self@.followers(node).len(),
                k <= count,
                self@.fan_evaluates_to(node, k as nat, current, results@),
            decreases count - k,
        {
            let branch = self.nodes[node].followers[k];
            let mut below = self.evaluate_depth(branch, current);
            results.append(&mut below);
            k += 1;
        }
        proof {
            lemma_depth_results_by_chain(self@, node, payload, results@);
        }
        results
    }
}

} // verus!
