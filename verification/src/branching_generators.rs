//! The two ways in which a graph grows at its frontier: by a sequence of
//! events that follow one another, and by alternative events side by side.

use vstd::prelude::*;
use vstd::hash_map::StringHashMap;
use crate::event_graph::{EventDAG, EventNode, EventNodes, OperationChain};
use crate::event_model::{Event, Events, run_of};
use crate::laws::alternatives::lemma_alternated_is_dag;
use crate::laws::fan::lemma_fanned_nodes;
use crate::laws::sequence::lemma_sequenced_is_dag;

verus! {

impl<F> Events<F> {
    /// This graph and one new event for each operation, in order and without
    /// followers. The new handles are `self.len()`, `self.len() + 1`, ...
    pub open spec fn with_nodes(self, operations: Seq<F>) -> Self {
        Events {
            nodes: self.nodes + Seq::new(
                operations.len(),
                |j: int| Event { operation: operations[j], followers: Seq::empty() },
            ),
        }
    }

    /// This graph and one new event for each operation, in order, where the
    /// first `links` of the new events have the next new event as their only
    /// follower.
    pub open spec fn with_linked(self, operations: Seq<F>, links: nat) -> Self {
        Events {
            nodes: self.nodes + Seq::new(
                operations.len(),
                |j: int|
                    Event {
                        operation: operations[j],
                        followers: if j < links {
                            seq![(self.len() + j + 1) as EventNode]
                        } else {
                            Seq::empty()
                        },
                    },
            ),
        }
    }

    /// This graph and one new event for each operation, in order: each new
    /// event is followed by the next one alone, and the last by nothing.
    pub open spec fn with_chain(self, operations: Seq<F>) -> Self {
        self.with_linked(operations, (operations.len() - 1) as nat)
    }

    /// This graph after every entry of `frontier`, one after the other, has
    /// had `targets` appended to its followers. An event that occurs twice
    /// in `frontier` gains them twice.
    pub open spec fn fanned(self, frontier: Seq<EventNode>, targets: Seq<EventNode>) -> Self
        decreases frontier.len(),
    {
        if frontier.len() == 0 {
            self
        } else {
            self.fanned(frontier.drop_last(), targets).with_followers(frontier.last(), targets)
        }
    }

    /// This graph after `operations` were attached to `frontier` as a
    /// sequence: a chain of new events, whose first event follows every entry
    /// of `frontier`. Without operations the graph stays as it is.
    pub open spec fn sequenced(self, frontier: Seq<EventNode>, operations: Seq<F>) -> Self {
        if operations.len() == 0 {
            self
        } else {
            self.with_chain(operations).fanned(frontier, seq![self.len() as EventNode])
        }
    }

    /// This graph after `operations` were attached to `frontier` as
    /// alternatives: new events without followers, all of which follow every
    /// entry of `frontier`. Without operations the graph stays as it is.
    pub open spec fn alternated(self, frontier: Seq<EventNode>, operations: Seq<F>) -> Self {
        if operations.len() == 0 {
            self
        } else {
            self.with_nodes(operations).fanned(frontier, run_of(self.len(), operations.len()))
        }
    }
}

/// Adds one event without followers for each operation, in order, and
/// returns the new handles.
fn create_nodes<T: Copy, F: Fn(T) -> T>(
    graph: &mut EventDAG<T, F>,
    operations: OperationChain<F>,
) -> (nodes: EventNodes)
    ensures
        final(graph)@ == old(graph)@.with_nodes(operations@),
        nodes@ == run_of(old(graph)@.len(), operations@.len()),
        old(graph)@.len() + operations@.len() <= usize::MAX,
{
    let ghost start = graph@;
    let ghost all = operations@;
    let mut nodes: EventNodes = Vec::new();
    for op in it: operations
        invariant
            it.seq() == all,
            graph@ == start.with_nodes(all.take(it.index() as int)),
            nodes@ == run_of(start.len(), it.index() as nat),
    {
        let ghost done = it.index() as int;
        let node = graph.new_node(op);
        nodes.push(node);
        assert(graph@.nodes =~= start.with_nodes(all.take(done + 1)).nodes);
    }
    proof {
        assert(all.take(all.len() as int) =~= all);
        graph.lemma_len_bounded();
    }
    nodes
}

/// Attaches `operations` to the graph as a sequence: one new event for each
/// operation, each followed by the next, and the first of them a new
/// follower of every event in `previous`. Returns the last new event alone:
/// it is the one leaf under `previous` now. Without operations nothing
/// changes and `previous` is returned.
pub fn sequence<T: Copy, F: Fn(T) -> T>(
    graph: &mut EventDAG<T, F>,
    previous: EventNodes,
    operations: OperationChain<F>,
) -> (leaves: EventNodes)
    requires
        old(graph)@.contains_all(previous@),
    ensures
        final(graph)@ == old(graph)@.sequenced(previous@, operations@),
        operations@.len() == 0 ==> final(graph)@ == old(graph)@ && leaves@ == previous@,
        leaves@ == if operations@.len() == 0 {
            previous@
        } else {
            seq![(old(graph)@.len() + operations@.len() - 1) as EventNode]
        },
        final(graph)@.len() == old(graph)@.len() + operations@.len(),
        final(graph)@.contains_all(leaves@),
        old(graph)@.is_dag() ==> final(graph)@.is_dag(),
{
    if operations.len() == 0 {
        return previous;
    }
    let ghost start = graph@;
    let ghost all = operations@;
    let nodes = create_nodes(graph, operations);
    proof {
        if start.is_dag() {
            lemma_sequenced_is_dag(start, previous@, all);
        }
    }
    assert(graph@.nodes =~= start.with_linked(all, 0).nodes);
    let mut j: usize = 0;
    while j + 1 < nodes.len()
        invariant
            nodes@ == run_of(start.len(), all.len()),
            start.len() + all.len() <= usize::MAX,
            all.len() > 0,
            j < nodes.len(),
            graph@ == start.with_linked(all, j as nat),
        decreases nodes.len() - j,
    {
        graph.add_follower_node(nodes[j], nodes[j + 1]);
        assert(graph@.nodes =~= start.with_linked(all, (j + 1) as nat).nodes);
        j += 1;
    }
    let leaf = nodes[j];
    let new_root = nodes[0];
    let ghost chained = start.with_chain(all);
    let mut i: usize = 0;
    while i < previous.len()
        invariant
            i <= previous.len(),
            start.contains_all(previous@),
            chained.len() == start.len() + all.len(),
            new_root == start.len(),
            graph@ == chained.fanned(previous@.take(i as int), seq![new_root]),
        decreases previous.len() - i,
    {
        proof {
            assert(previous@.take(i + 1).drop_last() =~= previous@.take(i as int));
            lemma_fanned_nodes(chained, previous@.take(i as int), seq![new_root]);
        }
        graph.add_follower_node(previous[i], new_root);
        i += 1;
    }
    let mut leaves: EventNodes = Vec::new();
    leaves.push(leaf);
    proof {
        assert(previous@.take(previous.len() as int) =~= previous@);
        lemma_fanned_nodes(chained, previous@, seq![new_root]);
    }
    leaves
}

/// Attaches `operations` to the graph as alternatives: one new event for
/// each operation, none followed by anything, and every one of them a new
/// follower of every event in `previous`. Returns the new events: they are
/// the leaves under `previous` now. Without operations nothing changes and
/// `previous` is returned.
pub fn alternatives<T: Copy, F: Fn(T) -> T>(
    graph: &mut EventDAG<T, F>,
    previous: EventNodes,
    operations: OperationChain<F>,
) -> (leaves: EventNodes)
    requires
        old(graph)@.contains_all(previous@),
    ensures
        final(graph)@ == old(graph)@.alternated(previous@, operations@),
        operations@.len() == 0 ==> final(graph)@ == old(graph)@ && leaves@ == previous@,
        leaves@ == if operations@.len() == 0 {
            previous@
        } else {
            run_of(old(graph)@.len(), operations@.len())
        },
        final(graph)@.len() == old(graph)@.len() + operations@.len(),
        final(graph)@.contains_all(leaves@),
        old(graph)@.is_dag() ==> final(graph)@.is_dag(),
{
    if operations.len() == 0 {
        return previous;
    }
    let ghost start = graph@;
    let ghost all = operations@;
    let nodes = create_nodes(graph, operations);
    proof {
        if start.is_dag() {
            lemma_alternated_is_dag(start, previous@, all);
        }
    }
    let ghost grown = start.with_nodes(all);
    let mut i: usize = 0;
    while i < previous.len()
        invariant
            i <= previous.len(),
            start.contains_all(previous@),
            grown.len() == start.len() + all.len(),
            graph@ == grown.fanned(previous@.take(i as int), nodes@),
        decreases previous.len() - i,
    {
        let prev = previous[i];
        let ghost fanned = graph@;
        proof {
            assert(previous@.take(i + 1).drop_last() =~= previous@.take(i as int));
            lemma_fanned_nodes(grown, previous@.take(i as int), nodes@);
            assert(fanned.with_followers(prev, nodes@.take(0)).nodes =~= fanned.nodes);
        }
        let mut j: usize = 0;
        while j < nodes.len()
            invariant
                j <= nodes.len(),
                fanned.contains(prev),
                graph@ == fanned.with_followers(prev, nodes@.take(j as int)),
            decreases nodes.len() - j,
        {
            graph.add_follower_node(prev, nodes[j]);
            proof {
                assert(graph@.followers(prev) =~= fanned.followers(prev) + nodes@.take(j + 1));
                assert(graph@.nodes =~= fanned.with_followers(prev, nodes@.take(j + 1)).nodes);
            }
            j += 1;
        }
        assert(nodes@.take(nodes.len() as int) =~= nodes@);
        i += 1;
    }
    proof {
        assert(previous@.take(previous.len() as int) =~= previous@);
        lemma_fanned_nodes(grown, previous@, nodes@);
    }
    nodes
}

/// A way of growing the graph, as a value that can be looked up by name and
/// applied later.
#[derive(Clone, Copy, Debug, PartialEq, Eq, Structural)]
pub enum Generator {
    Sequence,
    Alternatives,
}

impl Generator {
    /// What this generator makes of `graph` when it attaches `operations` to `frontier`.
    pub open spec fn grown<F>(
        self,
        graph: Events<F>,
        frontier: Seq<EventNode>,
        operations: Seq<F>,
    ) -> Events<F> {
        match self {
            Generator::Sequence => graph.sequenced(frontier, operations),
            Generator::Alternatives => graph.alternated(frontier, operations),
        }
    }

    /// The frontier that this generator leaves behind in a graph of `len`
    /// events: the leaves that it has put under `frontier`.
    pub open spec fn next_frontier(
        self,
        len: nat,
        frontier: Seq<EventNode>,
        count: nat,
    ) -> Seq<EventNode> {
        if count == 0 {
            frontier
        } else {
            match self {
                Generator::Sequence => seq![(len + count - 1) as EventNode],
                Generator::Alternatives => run_of(len, count),
            }
        }
    }

    /// Attaches `operations` to `previous` in the way that this generator
    /// stands for, and returns the new frontier.
    pub fn generate<T: Copy, F: Fn(T) -> T>(
        self,
        graph: &mut EventDAG<T, F>,
        previous: EventNodes,
        operations: OperationChain<F>,
    ) -> (leaves: EventNodes)
        requires
            old(graph)@.contains_all(previous@),
        ensures
            final(graph)@ == self.grown(old(graph)@, previous@, operations@),
            leaves@ == self.next_frontier(old(graph)@.len(), previous@, operations@.len()),
            final(graph)@.len() == old(graph)@.len() + operations@.len(),
            final(graph)@.contains_all(leaves@),
            old(graph)@.is_dag() ==> final(graph)@.is_dag(),
    {
        match self {
            Generator::Sequence => sequence(graph, previous, operations),
            Generator::Alternatives => alternatives(graph, previous, operations),
        }
    }
}

/// The generators by name: `"sequence"` and `"alternatives"`.
pub open spec fn generator_names() -> Map<Seq<char>, Generator> {
    Map::empty().insert("sequence"@, Generator::Sequence).insert(
        "alternatives"@,
        Generator::Alternatives,
    )
}

/// The generators, each under the name by which a configuration asks for it.
pub fn generator_map() -> (generators: StringHashMap<Generator>)
    ensures
        generators@ == generator_names(),
        generators@.dom() == set!["sequence"@, "alternatives"@],
        generators@["sequence"@] == Generator::Sequence,
        generators@["alternatives"@] == Generator::Alternatives,
{
    let mut generators = StringHashMap::new();
    generators.insert("sequence".to_owned(), Generator::Sequence);
    generators.insert("alternatives".to_owned(), Generator::Alternatives);
    proof {
        reveal_strlit("sequence");
        reveal_strlit("alternatives");
        assert("sequence"@.len() != "alternatives"@.len());
    }
    generators
}

} // verus!
