//! The mathematical model of an event graph.
//!
//! A graph is a sequence of events; the position of an event in that
//! sequence is the handle by which the other events name it. Everything the
//! executable types promise is stated over this model.

use vstd::prelude::*;
use crate::event_graph::EventNode;

verus! {

/// One event: the operation it applies and the events that may come after it.
pub struct Event<F> {
    pub operation: F,
    pub followers: Seq<EventNode>,
}

/// A graph of events. The event with handle `n` is `nodes[n]`.
pub struct Events<F> {
    pub nodes: Seq<Event<F>>,
}

/// Every handle of `nodes` moved up by `by`.
pub open spec fn shifted(nodes: Seq<EventNode>, by: nat) -> Seq<EventNode> {
    Seq::new(nodes.len(), |k: int| (nodes[k] + by) as EventNode)
}

/// The handles `first`, `first + 1`, ..., `first + count - 1`.
pub open spec fn run_of(first: nat, count: nat) -> Seq<EventNode> {
    Seq::new(count, |j: int| (first + j) as EventNode)
}

impl<F> Events<F> {
    /// The number of events in the graph.
    pub open spec fn len(self) -> nat {
        self.nodes.len()
    }

    /// Whether `n` is the handle of an event of this graph.
    pub open spec fn contains(self, n: EventNode) -> bool {
        n < self.nodes.len()
    }

    /// Whether every handle of `nodes` is one of this graph.
    pub open spec fn contains_all(self, nodes: Seq<EventNode>) -> bool {
        forall|i: int| 0 <= i < nodes.len() ==> self.contains(#[trigger] nodes[i])
    }

    /// The operation that the event `n` holds.
    pub open spec fn operation(self, n: EventNode) -> F {
        self.nodes[n as int].operation
    }

    /// The events that follow `n`, in the order in which they were added.
    pub open spec fn followers(self, n: EventNode) -> Seq<EventNode> {
        self.nodes[n as int].followers
    }

    /// A leaf is an event that nothing follows.
    pub open spec fn is_leaf(self, n: EventNode) -> bool {
        self.followers(n).len() == 0
    }

    /// Every follower of every event is an event of this graph.
    pub open spec fn wf(self) -> bool {
        forall|n: EventNode, k: int|
            self.contains(n) && 0 <= k < self.followers(n).len() ==> self.contains(
                #[trigger] self.followers(n)[k],
            )
    }

    /// `rank` gives every event a number that is greater than the number of
    /// each of its followers.
    pub open spec fn ranked_by(self, rank: Seq<nat>) -> bool {
        &&& rank.len() == self.len()
        &&& forall|n: EventNode, k: int|
            self.contains(n) && 0 <= k < self.followers(n).len() ==> rank[(
            #[trigger] self.followers(n)[k]) as int] < rank[n as int]
    }

    /// No event can be reached from itself: the events can be ranked so that
    /// every edge leads downwards.
    pub open spec fn acyclic(self) -> bool {
        exists|rank: Seq<nat>| self.ranked_by(rank)
    }

    /// A well-formed graph without cycles.
    pub open spec fn is_dag(self) -> bool {
        self.wf() && self.acyclic()
    }

    /// The rank of `n` in one fixed ranking of an acyclic graph. Recursion
    /// over the graph descends along it.
    pub open spec fn rank(self, n: EventNode) -> nat {
        (choose|rank: Seq<nat>| self.ranked_by(rank))[n as int]
    }

    /// The graph of one event that nothing follows.
    pub open spec fn single(operation: F) -> Self {
        Events { nodes: seq![Event { operation, followers: Seq::empty() }] }
    }

    /// This graph and one more event without followers, whose handle is `self.len()`.
    pub open spec fn with_node(self, operation: F) -> Self {
        Events { nodes: self.nodes.push(Event { operation, followers: Seq::empty() }) }
    }

    /// This graph with `targets` appended, in order, to the followers of `n`.
    pub open spec fn with_followers(self, n: EventNode, targets: Seq<EventNode>) -> Self {
        Events {
            nodes: self.nodes.update(
                n as int,
                Event { operation: self.operation(n), followers: self.followers(n) + targets },
            ),
        }
    }

    /// This graph with `follower` appended to the followers of `n`.
    pub open spec fn with_follower(self, n: EventNode, follower: EventNode) -> Self {
        self.with_followers(n, seq![follower])
    }

    /// This graph followed by the events of `other`, whose handles all move
    /// up by `self.len()`.
    pub open spec fn absorb(self, other: Self) -> Self {
        Events {
            nodes: self.nodes + Seq::new(
                other.len(),
                |i: int|
                    Event {
                        operation: other.nodes[i].operation,
                        followers: shifted(other.nodes[i].followers, self.len()),
                    },
            ),
        }
    }
}

/// Every chain of `chains` with `n` put in front of it.
pub open spec fn prefixed(n: EventNode, chains: Seq<Seq<EventNode>>) -> Seq<Seq<EventNode>> {
    Seq::new(chains.len(), |i: int| seq![n] + chains[i])
}

impl<F> Events<F> {
    /// The leaves under `n`: `n` itself where nothing follows it, else the
    /// leaves under each of its followers, in the followers' order.
    pub open spec fn leaves(self, n: EventNode) -> Seq<EventNode>
        decreases self.rank(n), 1nat, 0nat,
        when self.is_dag() && self.contains(n)
    {
        if self.is_leaf(n) {
            seq![n]
        } else {
            self.fan_leaves(n, self.followers(n).len())
        }
    }

    /// The leaves under the first `k` followers of `n`.
    pub open spec fn fan_leaves(self, n: EventNode, k: nat) -> Seq<EventNode>
        decreases self.rank(n), 0nat, k,
        when self.is_dag() && self.contains(n) && k <= self.followers(n).len()
    {
        if k == 0 {
            Seq::empty()
        } else {
            self.fan_leaves(n, (k - 1) as nat) + self.leaves(self.followers(n)[k - 1])
        }
    }

    /// The chains from `n`: every path that starts at `n` and ends in a leaf,
    /// depth first, followers left to right.
    pub open spec fn chains(self, n: EventNode) -> Seq<Seq<EventNode>>
        decreases self.rank(n), 1nat, 0nat,
        when self.is_dag() && self.contains(n)
    {
        if self.is_leaf(n) {
            seq![seq![n]]
        } else {
            self.fan_chains(n, self.followers(n).len())
        }
    }

    /// The chains from `n` that go through one of its first `k` followers.
    pub open spec fn fan_chains(self, n: EventNode, k: nat) -> Seq<Seq<EventNode>>
        decreases self.rank(n), 0nat, k,
        when self.is_dag() && self.contains(n) && k <= self.followers(n).len()
    {
        if k == 0 {
            Seq::empty()
        } else {
            self.fan_chains(n, (k - 1) as nat) + prefixed(
                n,
                self.chains(self.followers(n)[k - 1]),
            )
        }
    }

    /// The operations of the events of `chain`, in the chain's order.
    pub open spec fn chain_operations(self, chain: Seq<EventNode>) -> Seq<F> {
        Seq::new(chain.len(), |j: int| self.operation(chain[j]))
    }

    /// For each of `chains`, its operations.
    pub open spec fn operations_of(self, chains: Seq<Seq<EventNode>>) -> Seq<Seq<F>> {
        Seq::new(chains.len(), |i: int| self.chain_operations(chains[i]))
    }

    /// For every chain from `n`, its operations.
    pub open spec fn operation_chains(self, n: EventNode) -> Seq<Seq<F>> {
        self.operations_of(self.chains(n))
    }

    /// `path` leads from `n` to a leaf: it starts at `n`, each of its events
    /// is followed by the next one, and nothing follows the last.
    pub open spec fn leads_to_leaf(self, path: Seq<EventNode>, n: EventNode) -> bool {
        &&& path.len() > 0
        &&& path.first() == n
        &&& self.contains_all(path)
        &&& forall|j: int|
            0 <= j < path.len() - 1 ==> self.followers(#[trigger] path[j]).contains(path[j + 1])
        &&& self.is_leaf(path.last())
    }

    /// `grown` is this graph with every leaf extended by one more event:
    /// each leaf of this graph has one follower in `grown`, an event that
    /// this graph does not hold and that is a leaf of `grown`; the other
    /// events of this graph have the followers they had.
    pub open spec fn leaves_extended_in(self, grown: Self) -> bool {
        &&& self.len() <= grown.len()
        &&& forall|n: EventNode|
            self.contains(n) && !self.is_leaf(n) ==> #[trigger] grown.followers(n)
                == self.followers(n)
        &&& forall|n: EventNode|
            self.contains(n) && self.is_leaf(n) ==> {
                let under = #[trigger] grown.followers(n);
                &&& under.len() == 1
                &&& !self.contains(under[0])
                &&& grown.contains(under[0])
                &&& grown.is_leaf(under[0])
            }
    }

    /// For each of `leaves`, the first event that follows it.
    pub open spec fn first_followers(self, leaves: Seq<EventNode>) -> Seq<EventNode> {
        Seq::new(leaves.len(), |i: int| self.followers(leaves[i])[0])
    }

    /// Every entry of `nodes` is a leaf of this graph.
    pub open spec fn all_leaves(self, nodes: Seq<EventNode>) -> bool {
        forall|i: int| 0 <= i < nodes.len() ==> self.is_leaf(#[trigger] nodes[i])
    }

    /// The number of edges that leave the first `n` events of the graph.
    pub open spec fn edges_below(self, n: nat) -> nat
        decreases n,
    {
        if n == 0 {
            0
        } else {
            self.edges_below((n - 1) as nat) + self.followers((n - 1) as EventNode).len()
        }
    }

    /// The number of edges of the graph: an event that follows another one
    /// twice counts twice.
    pub open spec fn edge_count(self) -> nat {
        self.edges_below(self.len())
    }
}

/// `y` is a state in which applying `operations` to `x`, first to last, can end.
pub open spec fn outcome<T, F: Fn(T) -> T>(operations: Seq<F>, x: T, y: T) -> bool
    decreases operations.len(),
{
    if operations.len() == 0 {
        y == x
    } else {
        exists|m: T|
            outcome(operations.drop_last(), x, m) && #[trigger] call_ensures(
                operations.last(),
                (m,),
                y,
            )
    }
}

/// `operations` can be applied to `x`, first to last: each operation accepts
/// `x`, or whatever the operations before it make of `x`.
pub open spec fn runs<T, F: Fn(T) -> T>(operations: Seq<F>, x: T) -> bool
    decreases operations.len(),
{
    operations.len() > 0 ==> {
        &&& call_requires(operations[0], (x,))
        &&& forall|y: T| #[trigger]
            call_ensures(operations[0], (x,), y) ==> runs(operations.drop_first(), y)
    }
}

/// An operation is single-valued where it can return only one state for
/// each state it is given.
pub open spec fn single_valued<T, F: Fn(T) -> T>(operation: F) -> bool {
    forall|x: T, y: T, z: T|
        #![trigger call_ensures(operation, (x,), y), call_ensures(operation, (x,), z)]
        call_ensures(operation, (x,), y) && call_ensures(operation, (x,), z) ==> y == z
}

impl<F> Events<F> {
    /// The graph can be evaluated from `n` on `x`: the operation of `n`
    /// accepts `x`, and whatever it makes of `x` can be evaluated from every
    /// follower of `n`.
    pub open spec fn accepts<T>(self, n: EventNode, x: T) -> bool where F: Fn(T) -> T
        decreases self.rank(n),
        when self.is_dag() && self.contains(n)
    {
        &&& call_requires(self.operation(n), (x,))
        &&& forall|y: T, k: int|
            #![trigger call_ensures(self.operation(n), (x,), y), self.followers(n)[k]]
            call_ensures(self.operation(n), (x,), y) && 0 <= k < self.followers(n).len()
                ==> self.accepts(self.followers(n)[k], y)
    }

    /// `results` is what a depth-first evaluation from `n` on `x` can return:
    /// the operation of `n` makes some `y` of `x`, and `results` is `y` alone
    /// where `n` is a leaf, else what the followers of `n` make of `y`.
    pub open spec fn evaluates_to<T>(self, n: EventNode, x: T, results: Seq<T>) -> bool where
        F: Fn(T) -> T,

        decreases self.rank(n), 1nat, 0nat,
        when self.is_dag() && self.contains(n)
    {
        exists|y: T| #[trigger]
            call_ensures(self.operation(n), (x,), y) && if self.is_leaf(n) {
                results == seq![y]
            } else {
                self.fan_evaluates_to(n, self.followers(n).len(), y, results)
            }
    }

    /// `results` is what the first `k` followers of `n` can make of `y`, one
    /// after the other.
    pub open spec fn fan_evaluates_to<T>(
        self,
        n: EventNode,
        k: nat,
        y: T,
        results: Seq<T>,
    ) -> bool where F: Fn(T) -> T
        decreases self.rank(n), 0nat, k,
        when self.is_dag() && self.contains(n) && k <= self.followers(n).len()
    {
        if k == 0 {
            results == Seq::<T>::empty()
        } else {
            exists|head: Seq<T>, tail: Seq<T>|
                #![trigger head + tail]
                results == head + tail && self.fan_evaluates_to(n, (k - 1) as nat, y, head)
                    && self.evaluates_to(self.followers(n)[k - 1], y, tail)
        }
    }

    /// `results` is what a chain-by-chain evaluation from `n` on `x` can
    /// return: one state for each chain from `n`, in the chains' order, each
    /// an outcome of that chain's operations on `x`.
    pub open spec fn evaluates_by_chain<T>(self, n: EventNode, x: T, results: Seq<T>) -> bool where
        F: Fn(T) -> T,
     {
        &&& results.len() == self.chains(n).len()
        &&& forall|i: int|
            0 <= i < results.len() ==> outcome(
                self.chain_operations(self.chains(n)[i]),
                x,
                #[trigger] results[i],
            )
    }

    /// Every operation of the graph accepts every state.
    pub open spec fn total<T>(self) -> bool where F: Fn(T) -> T {
        forall|n: EventNode, x: T|
            self.contains(n) ==> #[trigger] call_requires(self.operation(n), (x,))
    }

    /// Every operation of the graph is single-valued.
    pub open spec fn deterministic<T>(self) -> bool where F: Fn(T) -> T {
        forall|n: EventNode|
            self.contains(n) ==> single_valued::<T, F>(#[trigger] self.operation(n))
    }
}

/// Every chain of `chains` with every handle moved up by `by`.
pub open spec fn shifted_chains(chains: Seq<Seq<EventNode>>, by: nat) -> Seq<Seq<EventNode>> {
    Seq::new(chains.len(), |i: int| shifted(chains[i], by))
}

impl<F> Events<F> {
    /// `grown` holds the events of this graph `by` handles further up: the
    /// event `n` of this graph is the event `n + by` of `grown`, with the
    /// same operation and the same followers, which are `by` handles
    /// further up as well.
    pub open spec fn embedded_in(self, grown: Self, by: nat) -> bool {
        &&& self.len() + by <= grown.len() <= usize::MAX
        &&& forall|n: EventNode|
            self.contains(n) ==> {
                let moved = #[trigger] grown.nodes[n + by];
                &&& moved.operation == self.operation(n)
                &&& moved.followers =~= shifted(self.followers(n), by)
            }
    }

    /// `grown` holds every event of this graph as it is here, under the
    /// same handle: with the same operation and the same followers.
    pub open spec fn kept_in(self, grown: Self) -> bool {
        self.embedded_in(grown, 0)
    }
}

} // verus!
