use metsi_rust::event_graph::{BoxedOperation, EventDAG, EventNode};

type Operation = BoxedOperation<i32>;

fn increment(x: i32) -> i32 {
    x + 1
}

fn create_fixture() -> (EventDAG<i32, Operation>, EventNode) {
    let mut graph: EventDAG<i32, Operation> = EventDAG::new(Box::new(increment));
    let root: EventNode = 0;
    let s1 = graph.new_node(Box::new(increment));
    let b1 = graph.new_node(Box::new(increment));
    let b2 = graph.new_node(Box::new(increment));
    graph.add_follower_node(s1, b1);
    graph.add_follower_node(s1, b2);
    graph.add_follower_node(root, s1);
    (graph, root)
}

#[test]
fn event_graph_chains_are_produced() {
    let (graph, root) = create_fixture();
    let chains = graph.node_chains(root);
    assert_eq!(chains.len(), 2);
    assert_eq!(chains[0].len(), 3);
    assert_eq!(chains[1].len(), 3);
}

#[test]
fn event_graph_chains_are_evaluable() {
    let (graph, root) = create_fixture();
    let results = graph.evaluate_chains(root, 0);
    assert_eq!(results.len(), 2);
    assert_eq!(results[0], 3);
    assert_eq!(results[1], 3);
}

#[test]
fn event_graph_graph_is_evaluable() {
    let (graph, root) = create_fixture();
    let results = graph.evaluate_depth(root, 0);
    assert_eq!(results.len(), 2);
    assert_eq!(results[0], 3);
    assert_eq!(results[1], 3);
}

#[test]
fn event_graph_graph_is_extensible() {
    let (mut graph, root) = create_fixture();
    let mut chains = graph.node_chains(root);
    assert_eq!(chains.len(), 2);
    assert_eq!(chains[0].len(), 3);
    assert_eq!(chains[1].len(), 3);

    let leafs = graph.collect_leaf_nodes(root);
    for leaf in leafs {
        let extension: EventDAG<i32, Operation> = EventDAG::new(Box::new(increment));
        graph.add_branch(leaf, extension);
    }

    chains = graph.node_chains(root);
    assert_eq!(chains.len(), 2);
    assert_eq!(chains[0].len(), 4);
    assert_eq!(chains[1].len(), 4);
}

#[test]
fn event_graph_nodes_are_shareable() {
    let (mut graph, root) = create_fixture();
    let leafs = graph.collect_leaf_nodes(root);
    let extension = EventDAG::new(Box::new(increment) as Operation).wrap(&mut graph);
    for leaf in leafs {
        graph.add_follower_node(leaf, extension);
    }
    let chains = graph.node_chains(root);
    assert_eq!(chains.len(), 2);
    assert_eq!(chains[0].len(), 4);
    assert_eq!(chains[1].len(), 4);
}

#[test]
fn new_graph_is_one_leaf() {
    let graph: EventDAG<i32, Operation> = EventDAG::new(Box::new(increment));
    assert_eq!(graph.len(), 1);
    assert!(graph.is_leaf(0));
    assert_eq!(graph.followers(0), &Vec::<EventNode>::new());
    assert_eq!((graph.operation(0))(41), 42);
}

#[test]
fn leaf_is_its_own_leaf_and_chain() {
    let graph: EventDAG<i32, Operation> = EventDAG::new(Box::new(increment));
    assert_eq!(graph.collect_leaf_nodes(0), vec![0]);
    assert_eq!(graph.node_chains(0), vec![vec![0]]);
    assert_eq!(graph.evaluate_depth(0, 5), vec![6]);
    assert_eq!(graph.evaluate_chains(0, 5), vec![6]);
}

#[test]
fn handles_count_up_from_zero() {
    let mut graph: EventDAG<i32, Operation> = EventDAG::new(Box::new(increment));
    assert_eq!(graph.new_node(Box::new(increment)), 1);
    assert_eq!(graph.new_node(Box::new(increment)), 2);
    assert_eq!(graph.len(), 3);
    assert!(graph.is_leaf(1));
}

#[test]
fn followers_keep_the_order_of_addition() {
    let (mut graph, root) = create_fixture();
    assert_eq!(graph.followers(1), &vec![2, 3]);
    graph.add_follower_node(root, 3);
    assert_eq!(graph.followers(root), &vec![1, 3]);
    assert!(!graph.is_leaf(root));
    assert!(graph.is_leaf(3));
}

#[test]
fn chains_and_leaves_run_depth_first() {
    let (mut graph, root) = create_fixture();
    graph.add_follower_node(root, 3);
    assert_eq!(graph.node_chains(root), vec![vec![0, 1, 2], vec![0, 1, 3], vec![0, 3]]);
    assert_eq!(graph.collect_leaf_nodes(root), vec![2, 3, 3]);
    assert_eq!(graph.node_chains(1), vec![vec![1, 2], vec![1, 3]]);
    assert_eq!(graph.collect_leaf_nodes(1), vec![2, 3]);
}

#[test]
fn operations_apply_in_chain_order() {
    let mut graph: EventDAG<i32, Operation> = EventDAG::new(Box::new(|x| x + 1));
    let double = graph.new_node(Box::new(|x| x * 2));
    let minus = graph.new_node(Box::new(|x| x - 3));
    let square = graph.new_node(Box::new(|x| x * x));
    graph.add_follower_node(0, double);
    graph.add_follower_node(0, minus);
    graph.add_follower_node(double, square);
    graph.add_follower_node(minus, square);
    assert_eq!(graph.evaluate_depth(0, 4), vec![100, 4]);
    assert_eq!(graph.evaluate_chains(0, 4), vec![100, 4]);
    assert_eq!(graph.evaluate_depth(double, 4), vec![64]);
}

#[test]
fn wrap_moves_a_graph_behind_the_events_already_there() {
    let (mut graph, _root) = create_fixture();
    let mut other: EventDAG<i32, Operation> = EventDAG::new(Box::new(|x| x * 10));
    let tail = other.new_node(Box::new(|x| x - 1));
    other.add_follower_node(0, tail);
    let handle = other.wrap(&mut graph);
    assert_eq!(handle, 4);
    assert_eq!(graph.len(), 6);
    assert_eq!(graph.followers(4), &vec![5]);
    assert!(graph.is_leaf(5));
    assert_eq!(graph.followers(1), &vec![2, 3]);
    assert_eq!(graph.evaluate_depth(handle, 7), vec![69]);
}

#[test]
fn add_branch_links_the_first_event_of_the_branch() {
    let (mut graph, root) = create_fixture();
    let mut branch: EventDAG<i32, Operation> = EventDAG::new(Box::new(|x| x * 10));
    let tail = branch.new_node(Box::new(|x| x - 1));
    branch.add_follower_node(0, tail);
    graph.add_branch(2, branch);
    assert_eq!(graph.followers(2), &vec![4]);
    assert_eq!(graph.node_chains(root), vec![vec![0, 1, 2, 4, 5], vec![0, 1, 3]]);
    assert_eq!(graph.evaluate_depth(root, 0), vec![29, 3]);
}

#[test]
fn there_is_one_chain_for_each_leaf() {
    let (mut graph, root) = create_fixture();
    graph.add_follower_node(root, 3);
    let shared = graph.new_node(Box::new(increment));
    graph.add_follower_node(2, shared);
    graph.add_follower_node(3, shared);
    for node in 0..graph.len() {
        let chains = graph.node_chains(node);
        let leaves = graph.collect_leaf_nodes(node);
        assert_eq!(chains.len(), leaves.len());
        for (chain, leaf) in chains.iter().zip(leaves.iter()) {
            assert_eq!(chain.first(), Some(&node));
            assert_eq!(chain.last(), Some(leaf));
        }
    }
    assert_eq!(graph.collect_leaf_nodes(root), vec![4, 4, 4]);
}

#[test]
fn both_evaluations_agree() {
    let mut graph: EventDAG<i32, Operation> = EventDAG::new(Box::new(|x| x - 7));
    let a = graph.new_node(Box::new(|x| x * 3));
    let b = graph.new_node(Box::new(|x| x + 100));
    let c = graph.new_node(Box::new(|x| -x));
    let d = graph.new_node(Box::new(|x| x / 2));
    graph.add_follower_node(0, a);
    graph.add_follower_node(0, b);
    graph.add_follower_node(a, c);
    graph.add_follower_node(a, d);
    graph.add_follower_node(b, d);
    graph.add_follower_node(b, c);
    graph.add_follower_node(d, c);
    for start in [-50, 0, 1, 9, 1234] {
        for node in 0..graph.len() {
            assert_eq!(graph.evaluate_depth(node, start), graph.evaluate_chains(node, start));
        }
    }
    assert_eq!(graph.evaluate_depth(0, 9), vec![-6, -3, -51, -102]);
}

#[test]
fn leaves_after_extension_are_the_new_events() {
    let (mut graph, root) = create_fixture();
    let before = graph.collect_leaf_nodes(root);
    let events_before = graph.len();
    for leaf in before.iter() {
        graph.add_branch(*leaf, EventDAG::new(Box::new(increment) as Operation));
    }
    let after = graph.collect_leaf_nodes(root);
    assert_eq!(after.len(), before.len());
    assert_eq!(after, vec![4, 5]);
    for (new_leaf, old_leaf) in after.iter().zip(before.iter()) {
        assert!(*new_leaf >= events_before);
        assert_eq!(graph.followers(*old_leaf), &vec![*new_leaf]);
    }
}

#[test]
fn a_graph_built_downwards_is_a_dag() {
    let (mut graph, _root) = create_fixture();
    assert!(graph.is_well_formed());
    assert!(graph.is_dag());
    graph.add_follower_node(0, 3);
    graph.add_follower_node(2, 3);
    assert!(graph.is_dag());
}

#[test]
fn an_edge_upwards_may_keep_the_graph_a_dag() {
    let mut graph: EventDAG<i32, Operation> = EventDAG::new(Box::new(increment));
    let first = graph.new_node(Box::new(increment));
    let second = graph.new_node(Box::new(increment));
    graph.add_follower_node(second, first);
    graph.add_follower_node(first, 0);
    assert!(graph.is_dag());
    assert_eq!(graph.node_chains(second), vec![vec![2, 1, 0]]);
}

#[test]
fn a_cycle_is_found() {
    let (mut graph, _root) = create_fixture();
    graph.add_follower_node(3, 0);
    assert!(graph.is_well_formed());
    assert!(!graph.is_dag());
}

#[test]
fn an_event_that_follows_itself_is_a_cycle() {
    let mut graph: EventDAG<i32, Operation> = EventDAG::new(Box::new(increment));
    graph.add_follower_node(0, 0);
    assert!(!graph.is_dag());
}

#[test]
fn a_follower_outside_the_graph_is_found() {
    let (mut graph, _root) = create_fixture();
    graph.add_follower_node(2, 17);
    assert!(!graph.is_well_formed());
    assert!(!graph.is_dag());
}

#[test]
fn work_list_walks_agree_with_recursive_walks() {
    let mut graph: EventDAG<i32, Operation> = EventDAG::new(Box::new(|x| x - 7));
    let a = graph.new_node(Box::new(|x| x * 3));
    let b = graph.new_node(Box::new(|x| x + 100));
    let c = graph.new_node(Box::new(|x| -x));
    let d = graph.new_node(Box::new(|x| x / 2));
    graph.add_follower_node(0, a);
    graph.add_follower_node(0, b);
    graph.add_follower_node(a, c);
    graph.add_follower_node(a, d);
    graph.add_follower_node(b, d);
    graph.add_follower_node(b, c);
    graph.add_follower_node(d, c);
    for node in 0..graph.len() {
        assert_eq!(graph.collect_leaf_nodes_iterative(node), graph.collect_leaf_nodes(node));
        assert_eq!(graph.node_chains_iterative(node), graph.node_chains(node));
        for start in [-50, 0, 1, 9, 1234] {
            assert_eq!(
                graph.evaluate_depth_iterative(node, start),
                graph.evaluate_depth(node, start)
            );
            assert_eq!(
                graph.evaluate_chains_iterative(node, start),
                graph.evaluate_chains(node, start)
            );
        }
    }
    assert_eq!(
        graph.node_chains_iterative(0),
        vec![vec![0, 1, 3], vec![0, 1, 4, 3], vec![0, 2, 4, 3], vec![0, 2, 3]]
    );
    assert_eq!(graph.collect_leaf_nodes_iterative(0), vec![3, 3, 3, 3]);
    assert_eq!(graph.evaluate_depth_iterative(0, 9), vec![-6, -3, -51, -102]);
}

#[test]
fn work_list_walks_go_as_deep_as_the_graph() {
    let mut graph: EventDAG<i64, BoxedOperation<i64>> = EventDAG::new(Box::new(|x| x + 1));
    let mut last = 0;
    for _ in 0..200_000 {
        let next = graph.new_node(Box::new(|x| x + 1));
        graph.add_follower_node(last, next);
        last = next;
    }
    assert!(graph.is_dag());
    assert_eq!(graph.collect_leaf_nodes_iterative(0), vec![last]);
    assert_eq!(graph.evaluate_depth_iterative(0, 0), vec![200_001]);
    assert_eq!(graph.node_chains_iterative(last - 2_000)[0].len(), 2_001);
}

#[test]
fn apply_chains_folds_each_chain_over_the_state() {
    let (mut graph, root) = create_fixture();
    let double = graph.new_node(Box::new(|x| x * 2));
    let chains = vec![vec![root, double, root], vec![double, double], vec![], vec![3]];
    assert_eq!(graph.apply_chains(&chains, 5), vec![13, 20, 5, 6]);
    assert_eq!(graph.apply(double, 21), 42);
}
