//! Walking the graph with a work list in place of recursion, for graphs so
//! deep that recursion would exhaust the stack. The results are those of the
//! recursive walks.

use vstd::prelude::*;
use crate::event_graph::{EventDAG, EventNode, EventNodes, chain_views};
use crate::event_model::{Events, prefixed};
use crate::laws::chains::{
    lemma_chains_contained, lemma_chains_end_in_leaves, lemma_leaves_are_leaves,
};
use crate::laws::evaluation::{lemma_accepted_chains_run, lemma_depth_results_by_chain};

verus! {

impl<F> Events<F> {
    /// The number of visits that a walk from `n` makes: one to `n`, and
    /// those of the walks from each of its followers.
    pub open spec fn visits(self, n: EventNode) -> nat
        decreases self.rank(n), 1nat, 0nat,
        when self.is_dag() && self.contains(n)
    {
        1 + self.fan_visits(n, self.followers(n).len())
    }

    /// The number of visits that the walks from the first `k` followers of
    /// `n` make.
    pub open spec fn fan_visits(self, n: EventNode, k: nat) -> nat
        decreases self.rank(n), 0nat, k,
        when self.is_dag() && self.contains(n) && k <= self.followers(n).len()
    {
        if k == 0 {
            0
        } else {
            self.fan_visits(n, (k - 1) as nat) + self.visits(self.followers(n)[k - 1])
        }
    }

    /// The number of visits that are still to be made for a work list: those
    /// of the walks from each of its entries.
    pub open spec fn pending_visits(self, work: Seq<EventNode>) -> nat
        decreases work.len(),
    {
        if work.len() == 0 {
            0
        } else {
            self.visits(work.last()) + self.pending_visits(work.drop_last())
        }
    }

    /// The leaves that are still to be found for a work list: those under
    /// each of its entries, the last entry first.
    pub open spec fn pending_leaves(self, work: Seq<EventNode>) -> Seq<EventNode>
        decreases work.len(),
    {
        if work.len() == 0 {
            Seq::empty()
        } else {
            self.leaves(work.last()) + self.pending_leaves(work.drop_last())
        }
    }
}

/// Every chain of `chains` with `path` in front of it.
pub open spec fn behind(path: Seq<EventNode>, chains: Seq<Seq<EventNode>>) -> Seq<Seq<EventNode>> {
    Seq::new(chains.len(), |i: int| path + chains[i])
}

/// The last event of each path.
pub open spec fn ends(paths: Seq<Seq<EventNode>>) -> Seq<EventNode> {
    Seq::new(paths.len(), |i: int| paths[i].last())
}

impl<F> Events<F> {
    /// The chains that are still to be found for a work list of paths: for
    /// each path, the last path first, the chains that begin with that path.
    pub open spec fn pending_chains(self, work: Seq<Seq<EventNode>>) -> Seq<Seq<EventNode>>
        decreases work.len(),
    {
        if work.len() == 0 {
            Seq::empty()
        } else {
            behind(work.last().drop_last(), self.chains(work.last().last()))
                + self.pending_chains(work.drop_last())
        }
    }

    /// Every path of the work list ends in an event of the graph.
    pub open spec fn open_paths(self, work: Seq<Seq<EventNode>>) -> bool {
        forall|i: int|
            0 <= i < work.len() ==> (#[trigger] work[i]).len() > 0 && self.contains(work[i].last())
    }
}

/// The event of each entry of a work list of events and states.
pub open spec fn starts<T>(work: Seq<(EventNode, T)>) -> Seq<EventNode> {
    Seq::new(work.len(), |i: int| work[i].0)
}

impl<F> Events<F> {
    /// `results` is what the evaluations that are still to be made for a
    /// work list can return, one after the other: each entry is an event and
    /// the state to evaluate it on, and the last entry comes first.
    pub open spec fn completes<T>(self, work: Seq<(EventNode, T)>, results: Seq<T>) -> bool where
        F: Fn(T) -> T,

        decreases work.len(),
    {
        if work.len() == 0 {
            results == Seq::<T>::empty()
        } else {
            exists|head: Seq<T>, tail: Seq<T>|
                #![trigger head + tail]
                results == head + tail && self.evaluates_to(work.last().0, work.last().1, head)
                    && self.completes(work.drop_last(), tail)
        }
    }

    /// The states found so far and the work list make up an evaluation of
    /// `n` on `x`: whatever the work list completes to is, behind `found`,
    /// something that evaluating `n` on `x` can return.
    pub open spec fn resumes<T>(
        self,
        n: EventNode,
        x: T,
        found: Seq<T>,
        work: Seq<(EventNode, T)>,
    ) -> bool where F: Fn(T) -> T {
        forall|rest: Seq<T>| #[trigger]
            self.completes(work, rest) ==> self.evaluates_to(n, x, found + rest)
    }

    /// The same while the first `k` followers of `current` are not on the
    /// work list yet: whatever they make of `made`, and behind it whatever
    /// the work list completes to, is, behind `found`, something that
    /// evaluating `n` on `x` can return.
    pub open spec fn resumes_under<T>(
        self,
        n: EventNode,
        x: T,
        found: Seq<T>,
        current: EventNode,
        k: nat,
        made: T,
        work: Seq<(EventNode, T)>,
    ) -> bool where F: Fn(T) -> T {
        forall|head: Seq<T>, rest: Seq<T>|
            #![trigger self.fan_evaluates_to(current, k, made, head), self.completes(work, rest)]
            self.fan_evaluates_to(current, k, made, head) && self.completes(work, rest)
                ==> self.evaluates_to(n, x, found + (head + rest))
    }

    /// The graph can be evaluated from every event of the work list on the
    /// state that stands with it.
    pub open spec fn accepts_all<T>(self, work: Seq<(EventNode, T)>) -> bool where F: Fn(T) -> T {
        forall|i: int|
            0 <= i < work.len() ==> self.contains((#[trigger] work[i]).0) && self.accepts(
                work[i].0,
                work[i].1,
            )
    }
}

impl<T: Copy, F: Fn(T) -> T> EventDAG<T, F> {
    /// The handles of the leaves under `node`, depth first, found with a
    /// work list: the events still to be walked from, the next one last.
    pub fn collect_leaf_nodes_iterative(&self, node: EventNode) -> (leaves: EventNodes)
        requires
            self@.is_dag(),
            self@.contains(node),
        ensures
            leaves@ == self@.leaves(node),
            self@.contains_all(leaves@),
            self@.all_leaves(leaves@),
    {
        proof {
            lemma_leaves_are_leaves(self@, node);
        }
        let mut result: EventNodes = Vec::new();
        let mut work: EventNodes = Vec::new();
        work.push(node);
        proof {
            assert(self@.pending_leaves(work@.drop_last()).len() == 0);
        }
        while work.len() > 0
            invariant
                self@.is_dag(),
                self@.contains(node),
                self@.contains_all(work@),
                result@ + self@.pending_leaves(work@) == self@.leaves(node),
            decreases self@.pending_visits(work@),
        {
            let current = work[work.len() - 1];
            work.pop();
            let ghost rest = work@;
            let followers = self.followers(current);
            if followers.len() == 0 {
                result.push(current);
            } else {
                let mut k: usize = followers.len();
                while k > 0
                    invariant
                        k <= followers.len(),
                        followers@ == self@.followers(current),
                        self@.is_dag(),
                        self@.contains(current),
                        self@.contains_all(work@),
                        self@.fan_leaves(current, k as nat) + self@.pending_leaves(work@)
                            == self@.leaves(current) + self@.pending_leaves(rest),
                        self@.fan_visits(current, k as nat) + self@.pending_visits(work@)
                            == self@.fan_visits(current, followers@.len()) + self@.pending_visits(
                            rest,
                        ),
                    decreases k,
                {
                    k -= 1;
                    let ghost below = work@;
                    work.push(followers[k]);
                    proof {
                        assert(work@.drop_last() =~= below);
                    }
                }
            }
        }
        result
    }

    /// The chains from `node`, depth first, found with a work list: the
    /// paths from `node` that are still to be continued, the next one last.
    pub fn node_chains_iterative(&self, node: EventNode) -> (chains: Vec<EventNodes>)
        requires
            self@.is_dag(),
            self@.contains(node),
        ensures
            chain_views(chains@) == self@.chains(node),
            chains@.len() == self@.chains(node).len(),
    {
        let mut result: Vec<EventNodes> = Vec::new();
        let mut work: Vec<EventNodes> = Vec::new();
        let mut start: EventNodes = Vec::new();
        start.push(node);
        work.push(start);
        proof {
            let paths = chain_views(work@);
            assert(self@.pending_chains(paths.drop_last()).len() == 0);
        }
        while work.len() > 0
            invariant
                self@.is_dag(),
                self@.contains(node),
                self@.open_paths(chain_views(work@)),
                chain_views(result@) + self@.pending_chains(chain_views(work@)) == self@.chains(
                    node,
                ),
            decreases self@.pending_visits(ends(chain_views(work@))),
        {
            let ghost before = chain_views(work@);
            let path = work.pop().unwrap();
            let ghost rest = chain_views(work@);
            let current = path[path.len() - 1];
            let followers = self.followers(current);
            proof {
                assert(rest =~= before.drop_last());
                assert(ends(rest) =~= ends(before).drop_last());
            }
            if followers.len() == 0 {
                proof {
                    assert(path@.drop_last() + seq![current] =~= path@);
                }
                result.push(path);
            } else {
                let mut k: usize = followers.len();
                while k > 0
                    invariant
                        k <= followers.len(),
                        followers@ == self@.followers(current),
                        self@.is_dag(),
                        self@.contains(current),
                        path@.len() > 0,
                        path@.last() == current,
                        self@.open_paths(chain_views(work@)),
                        behind(path@.drop_last(), self@.fan_chains(current, k as nat))
                            + self@.pending_chains(chain_views(work@)) == behind(
                            path@.drop_last(),
                            self@.chains(current),
                        ) + self@.pending_chains(rest),
                        self@.fan_visits(current, k as nat) + self@.pending_visits(
                            ends(chain_views(work@)),
                        ) == self@.fan_visits(current, followers@.len()) + self@.pending_visits(
                            ends(rest),
                        ),
                    decreases k,
                {
                    k -= 1;
                    let branch = followers[k];
                    let mut longer: EventNodes = Vec::new();
                    let mut j: usize = 0;
                    while j < path.len()
                        invariant
                            j <= path.len(),
                            longer@ == path@.take(j as int),
                        decreases path.len() - j,
                    {
                        longer.push(path[j]);
                        j += 1;
                    }
                    longer.push(branch);
                    let ghost below = chain_views(work@);
                    work.push(longer);
                    proof {
                        let front = path@.drop_last();
                        let paths = chain_views(work@);
                        assert(paths =~= below.push(longer@));
                        assert(paths.drop_last() =~= below);
                        assert(longer@.drop_last() =~= path@);
                        assert(ends(paths).drop_last() =~= ends(below));
                        assert(behind(front, prefixed(current, self@.chains(branch))) =~= behind(
                            path@,
                            self@.chains(branch),
                        )) by {
                            assert forall|i: int| 0 <= i < self@.chains(branch).len() implies front
                                + (seq![current] + self@.chains(branch)[i]) == path@
                                + self@.chains(branch)[i] by {}
                        }
                    }
                }
            }
        }
        result
    }

    /// Applies every chain from `node` to `payload`, operation by operation,
    /// and returns what each chain makes of it, in the chains' order. The
    /// chains are found with a work list.
    pub fn evaluate_chains_iterative(&self, node: EventNode, payload: T) -> (results: Vec<T>)
        requires
            self@.is_dag(),
            self@.contains(node),
            self@.accepts(node, payload),
        ensures
            self@.evaluates_by_chain(node, payload, results@),
            results@.len() == self@.leaves(node).len(),
    {
        let chains = self.node_chains_iterative(node);
        proof {
            lemma_chains_contained(self@, node);
            lemma_accepted_chains_run(self@, node, payload);
            lemma_chains_end_in_leaves(self@, node);
            assert forall|c: int| 0 <= c < chains@.len() implies (#[trigger] chains@[c])@
                == self@.chains(node)[c] by {}
        }
        self.apply_chains(&chains, payload)
    }

    /// Evaluates the whole graph under `node` on `payload`, depth first, with
    /// a work list: the events that are still to be evaluated, each with the
    /// state that its predecessor made, the next one last.
    pub fn evaluate_depth_iterative(&self, node: EventNode, payload: T) -> (results: Vec<T>)
        requires
            self@.is_dag(),
            self@.contains(node),
            self@.accepts(node, payload),
        ensures
            self@.evaluates_to(node, payload, results@),
            results@.len() == self@.leaves(node).len(),
    {
        let mut results: Vec<T> = Vec::new();
        let mut work: Vec<(EventNode, T)> = Vec::new();
        work.push((node, payload));
        proof {
            assert forall|rest: Seq<T>| #[trigger] self@.completes(work@, rest) implies
                self@.evaluates_to(node, payload, results@ + rest) by {
                let (head, tail) = choose|head: Seq<T>, tail: Seq<T>|
                    #![trigger head + tail]
                    rest == head + tail && self@.evaluates_to(
                        work@.last().0,
                        work@.last().1,
                        head,
                    ) && self@.completes(work@.drop_last(), tail);
            }
        }
        while work.len() > 0
            invariant
                self@.is_dag(),
                self@.contains(node),
                self@.accepts_all(work@),
                self@.resumes(node, payload, results@, work@),
            decreases self@.pending_visits(starts(work@)),
        {
            let ghost before = work@;
            let ghost found = results@;
            let (current, state) = work.pop().unwrap();
            let ghost below = work@;
            proof {
                assert(starts(below) =~= starts(before).drop_last());
            }
            let made = self.apply(current, state);
            let followers = self.followers(current);
            if followers.len() == 0 {
                results.push(made);
                proof {
                    assert forall|rest: Seq<T>| #[trigger] self@.completes(work@, rest) implies
                        self@.evaluates_to(node, payload, results@ + rest) by {
                        let whole = seq![made] + rest;
                        assert(self@.completes(before, whole));
                        assert(found + whole =~= results@ + rest);
                    }
                }
            } else {
                let mut k: usize = followers.len();
                proof {
                    assert forall|head: Seq<T>, rest: Seq<T>|
                        self@.fan_evaluates_to(current, k as nat, made, head) && self@.completes(
                            work@,
                            rest,
                        ) implies self@.evaluates_to(node, payload, found + (head + rest)) by {
                        let whole = head + rest;
                        assert(self@.completes(before, whole));
                    }
                }
                while k > 0
                    invariant
                        k <= followers.len(),
                        followers@ == self@.followers(current),
                        self@.is_dag(),
                        self@.contains(node),
                        self@.contains(current),
                        self@.accepts(current, state),
                        call_ensures(self@.operation(current), (state,), made),
                        self@.accepts_all(work@),
                        results@ == found,
                        self@.resumes_under(node, payload, found, current, k as nat, made, work@),
                        self@.fan_visits(current, k as nat) + self@.pending_visits(starts(work@))
                            == self@.fan_visits(current, followers@.len()) + self@.pending_visits(
                            starts(below),
                        ),
                    decreases k,
                {
                    k -= 1;
                    let branch = followers[k];
                    let ghost under = work@;
                    work.push((branch, made));
                    proof {
                        assert(work@.drop_last() =~= under);
                        assert(starts(work@).drop_last() =~= starts(under));
                        assert forall|head: Seq<T>, rest: Seq<T>|
                            self@.fan_evaluates_to(current, k as nat, made, head)
                                && self@.completes(work@, rest) implies self@.evaluates_to(
                            node,
                            payload,
                            found + (head + rest),
                        ) by {
                            let (first, tail) = choose|first: Seq<T>, tail: Seq<T>|
                                #![trigger first + tail]
                                rest == first + tail && self@.evaluates_to(
                                    work@.last().0,
                                    work@.last().1,
                                    first,
                                ) && self@.completes(work@.drop_last(), tail);
                            let joined = head + first;
                            assert(self@.fan_evaluates_to(
                                current,
                                (k + 1) as nat,
                                made,
                                joined,
                            ));
                            assert(joined + tail =~= head + rest);
                        }
                    }
                }
                proof {
                    let none = Seq::<T>::empty();
                    assert(self@.fan_evaluates_to(current, 0, made, none));
                    assert forall|rest: Seq<T>| #[trigger] self@.completes(work@, rest) implies
                        self@.evaluates_to(node, payload, results@ + rest) by {
                        assert(none + rest =~= rest);
                    }
                }
            }
        }
        proof {
            let none = Seq::<T>::empty();
            assert(self@.completes(work@, none));
            assert(results@ + none =~= results@);
            lemma_depth_results_by_chain(self@, node, payload, results@);
            lemma_chains_end_in_leaves(self@, node);
        }
        results
    }
}

} // verus!
