use metsi_rust::branching_generators::{alternatives, generator_map, sequence, Generator};
use metsi_rust::event_graph::{BoxedOperation, EventDAG, EventNode, OperationChain};

type Operation = BoxedOperation<i32>;

fn increment(x: i32) -> i32 {
    x + 1
}

fn do_nothing(x: i32) -> i32 {
    x
}

fn create_ops(operation: fn(i32) -> i32, times: i32) -> OperationChain<Operation> {
    let mut ops = Vec::new();
    for _i in 0..times {
        let wrapper: Operation = Box::new(operation);
        ops.push(wrapper)
    }
    ops
}

fn edge_count(graph: &EventDAG<i32, Operation>) -> usize {
    (0..graph.len()).map(|node| graph.followers(node).len()).sum()
}

#[test]
fn test_generator_mapping() {
    let map = generator_map();
    let gen_fn = map.get("sequence").unwrap();
    let mut graph: EventDAG<i32, Operation> = EventDAG::new(Box::new(do_nothing));
    let generator_root: EventNode = 0;
    let leaves = gen_fn.generate(&mut graph, vec![generator_root], create_ops(increment, 2));
    let payload = 0;
    let result = graph.evaluate_depth(generator_root, payload);
    assert_eq!(1, leaves.len());
    assert_eq!(2, result[0])
}

#[test]
fn test_graph_extending() {
    let mut graph: EventDAG<i32, Operation> = EventDAG::new(Box::new(do_nothing));
    let generator_root: EventNode = 0;

    let level_1 = sequence(&mut graph, vec![generator_root], create_ops(increment, 2));
    let level_2 = alternatives(&mut graph, level_1, create_ops(increment, 2));
    let level_3 = alternatives(&mut graph, level_2, create_ops(increment, 2));
    let payload_one = 0;
    let payload_two = 0;
    let chains_results = graph.evaluate_chains(generator_root, payload_one);
    let depth_results = graph.evaluate_depth(generator_root, payload_two);

    assert_eq!(vec![4, 4, 4, 4], chains_results);
    assert_eq!(vec![4, 4, 4, 4], depth_results);
    assert_eq!(level_3.len(), 2);
}

#[test]
fn generator_names_are_sequence_and_alternatives() {
    let map = generator_map();
    assert_eq!(map.len(), 2);
    assert_eq!(map.get("sequence"), Some(&Generator::Sequence));
    assert_eq!(map.get("alternatives"), Some(&Generator::Alternatives));
    assert_eq!(map.get("Sequence"), None);
    assert_eq!(map.get(""), None);
}

#[test]
fn sequence_without_operations_changes_nothing() {
    let mut graph: EventDAG<i32, Operation> = EventDAG::new(Box::new(do_nothing));
    let other = graph.new_node(Box::new(increment));
    let frontier = sequence(&mut graph, vec![other, 0, other], Vec::new());
    assert_eq!(frontier, vec![other, 0, other]);
    assert_eq!(graph.len(), 2);
    assert_eq!(edge_count(&graph), 0);
}

#[test]
fn alternatives_without_operations_changes_nothing() {
    let mut graph: EventDAG<i32, Operation> = EventDAG::new(Box::new(do_nothing));
    let other = graph.new_node(Box::new(increment));
    let frontier = alternatives(&mut graph, vec![other, 0], Vec::new());
    assert_eq!(frontier, vec![other, 0]);
    assert_eq!(graph.len(), 2);
    assert_eq!(edge_count(&graph), 0);
}

#[test]
fn sequence_builds_one_chain_under_every_frontier_event() {
    let mut graph: EventDAG<i32, Operation> = EventDAG::new(Box::new(do_nothing));
    let left = graph.new_node(Box::new(|x| x + 10));
    let right = graph.new_node(Box::new(|x| x + 20));
    graph.add_follower_node(0, left);
    graph.add_follower_node(0, right);
    let operations: OperationChain<Operation> =
        vec![Box::new(|x| x * 2), Box::new(|x| x - 1), Box::new(|x| x * 3)];
    let frontier = sequence(&mut graph, vec![left, right], operations);
    assert_eq!(frontier, vec![5]);
    assert_eq!(graph.len(), 6);
    assert_eq!(graph.followers(left), &vec![3]);
    assert_eq!(graph.followers(right), &vec![3]);
    assert_eq!(graph.followers(3), &vec![4]);
    assert_eq!(graph.followers(4), &vec![5]);
    assert!(graph.is_leaf(5));
    assert_eq!(graph.node_chains(0), vec![vec![0, 1, 3, 4, 5], vec![0, 2, 3, 4, 5]]);
    assert_eq!(graph.evaluate_depth(0, 1), vec![63, 123]);
    assert_eq!(graph.evaluate_chains(0, 1), vec![63, 123]);
}

#[test]
fn alternatives_link_every_frontier_event_to_every_new_event() {
    let mut graph: EventDAG<i32, Operation> = EventDAG::new(Box::new(do_nothing));
    let left = graph.new_node(Box::new(|x| x + 10));
    let right = graph.new_node(Box::new(|x| x + 20));
    graph.add_follower_node(0, left);
    graph.add_follower_node(0, right);
    let before = edge_count(&graph);
    let operations: OperationChain<Operation> =
        vec![Box::new(|x| x * 2), Box::new(|x| x - 1), Box::new(|x| x * 3)];
    let frontier = alternatives(&mut graph, vec![left, right], operations);
    assert_eq!(frontier, vec![3, 4, 5]);
    assert_eq!(edge_count(&graph), before + 2 * 3);
    assert_eq!(graph.followers(left), &vec![3, 4, 5]);
    assert_eq!(graph.followers(right), &vec![3, 4, 5]);
    assert_eq!(graph.evaluate_depth(left, 1), vec![22, 10, 33]);
    assert_eq!(graph.evaluate_depth(0, 1), vec![22, 10, 33, 42, 20, 63]);
    assert_eq!(graph.evaluate_chains(0, 1), vec![22, 10, 33, 42, 20, 63]);
}

#[test]
fn an_event_twice_in_the_frontier_is_linked_twice() {
    let mut graph: EventDAG<i32, Operation> = EventDAG::new(Box::new(do_nothing));
    let frontier = sequence(&mut graph, vec![0, 0], create_ops(increment, 1));
    assert_eq!(frontier, vec![1]);
    assert_eq!(graph.followers(0), &vec![1, 1]);
    assert_eq!(graph.evaluate_depth(0, 0), vec![1, 1]);
}

#[test]
fn generate_does_what_the_named_generator_does() {
    let mut by_value: EventDAG<i32, Operation> = EventDAG::new(Box::new(do_nothing));
    let mut direct: EventDAG<i32, Operation> = EventDAG::new(Box::new(do_nothing));
    let first = Generator::Alternatives.generate(&mut by_value, vec![0], create_ops(increment, 3));
    let second = alternatives(&mut direct, vec![0], create_ops(increment, 3));
    assert_eq!(first, second);
    assert_eq!(by_value.node_chains(0), direct.node_chains(0));
    let first = Generator::Sequence.generate(&mut by_value, first, create_ops(increment, 2));
    let second = sequence(&mut direct, second, create_ops(increment, 2));
    assert_eq!(first, second);
    assert_eq!(by_value.node_chains(0), direct.node_chains(0));
    assert_eq!(by_value.evaluate_depth(0, 0), vec![3, 3, 3]);
}

#[test]
fn a_frontier_event_with_followers_gains_a_chain() {
    let mut graph: EventDAG<i32, Operation> = EventDAG::new(Box::new(do_nothing));
    let below = graph.new_node(Box::new(|x| x + 10));
    graph.add_follower_node(0, below);
    let frontier = sequence(&mut graph, vec![0], create_ops(increment, 2));
    assert_eq!(frontier, vec![3]);
    assert_eq!(graph.node_chains(0), vec![vec![0, 1], vec![0, 2, 3]]);
    assert_eq!(graph.evaluate_depth(0, 0), vec![10, 2]);
}

#[test]
fn generators_keep_a_graph_free_of_cycles() {
    let mut graph: EventDAG<i32, Operation> = EventDAG::new(Box::new(do_nothing));
    let mut frontier = vec![0];
    for round in 0..6 {
        frontier = if round % 2 == 0 {
            alternatives(&mut graph, frontier, create_ops(increment, 3))
        } else {
            sequence(&mut graph, frontier, create_ops(increment, 2))
        };
        assert!(graph.is_dag());
        assert_eq!(graph.collect_leaf_nodes(0).iter().all(|leaf| frontier.contains(leaf)), true);
    }
    assert_eq!(graph.node_chains(0).len(), 27);
    assert_eq!(graph.evaluate_depth(0, 0), vec![9; 27]);
}

#[test]
fn a_sequence_adds_one_edge_for_each_link() {
    let mut graph: EventDAG<i32, Operation> = EventDAG::new(Box::new(do_nothing));
    let other = graph.new_node(Box::new(increment));
    let before = edge_count(&graph);
    sequence(&mut graph, vec![0, other], create_ops(increment, 4));
    assert_eq!(edge_count(&graph), before + 2 + 4 - 1);
}
