use metsi_rust::event_tree::EventDAG;

type Operation = fn(i32) -> i32;

fn increment(x: i32) -> i32 {
    x + 1
}

fn double(x: i32) -> i32 {
    x * 2
}

fn create_fixture() -> EventDAG<i32, Operation> {
    let mut root = EventDAG::new(increment as Operation);
    let mut s1 = EventDAG::new(increment as Operation);
    let b1 = EventDAG::new(increment as Operation);
    let b2 = EventDAG::new(increment as Operation);
    s1.add_branch(0, b1);
    s1.add_branch(0, b2);
    root.add_branch(0, s1);
    root
}

#[test]
fn event_tree_chains_are_produced() {
    let root = create_fixture();
    let chains = root.operation_chains(0);
    assert_eq!(chains.len(), 2);
    assert_eq!(chains[0].len(), 3);
    assert_eq!(chains[1].len(), 3);
}

#[test]
fn event_tree_chains_are_evaluable() {
    let root = create_fixture();
    let results = root.evaluate_chains(0, 0);
    assert_eq!(results.len(), 2);
    assert_eq!(results[0], 3);
    assert_eq!(results[1], 3);
}

#[test]
fn event_tree_graph_is_evaluable() {
    let root = create_fixture();
    let results = root.evaluate_depth(0, 0);
    assert_eq!(results.len(), 2);
    assert_eq!(results[0], 3);
    assert_eq!(results[1], 3);
}

#[test]
fn event_tree_graph_is_extensible() {
    let mut root = create_fixture();
    let mut chains = root.operation_chains(0);
    assert_eq!(chains.len(), 2);
    assert_eq!(chains[0].len(), 3);
    assert_eq!(chains[1].len(), 3);

    let leafs = root.collect_leaf_nodes(0);
    for leaf in leafs {
        let extension = EventDAG::new(increment as Operation);
        root.add_branch(leaf, extension);
    }

    chains = root.operation_chains(0);
    assert_eq!(chains.len(), 2);
    assert_eq!(chains[0].len(), 4);
    assert_eq!(chains[1].len(), 4);
}

#[test]
fn event_tree_nodes_are_shareable() {
    let mut root = create_fixture();
    let leafs = root.collect_leaf_nodes(0);
    let anchor = leafs[0];
    root.add_branch(anchor, EventDAG::new(increment as Operation));
    let extension = root.len() - 1;
    for leaf in leafs {
        if leaf != anchor {
            root.add_follower_node(leaf, extension);
        }
    }
    let chains = root.operation_chains(0);
    assert_eq!(chains.len(), 2);
    assert_eq!(chains[0].len(), 4);
    assert_eq!(chains[1].len(), 4);
}

#[test]
fn tree_handles_follow_the_order_of_absorption() {
    let root = create_fixture();
    assert_eq!(root.len(), 4);
    assert!(!root.is_leaf(0));
    assert!(!root.is_leaf(1));
    assert!(root.is_leaf(2));
    assert!(root.is_leaf(3));
    assert_eq!(root.collect_leaf_nodes(0), vec![2, 3]);
}

#[test]
fn tree_operation_chains_hold_the_operations_in_order() {
    let mut root = EventDAG::new(increment as Operation);
    root.add_branch(0, EventDAG::new(double as Operation));
    root.add_branch(0, EventDAG::new(increment as Operation));
    let chains = root.operation_chains(0);
    assert_eq!(chains.len(), 2);
    let first: Vec<i32> = chains[0].iter().map(|operation| operation(10)).collect();
    let second: Vec<i32> = chains[1].iter().map(|operation| operation(10)).collect();
    assert_eq!(first, vec![11, 20]);
    assert_eq!(second, vec![11, 11]);
    assert_eq!(root.evaluate_depth(0, 10), vec![22, 12]);
    assert_eq!(root.evaluate_chains(0, 10), vec![22, 12]);
}

#[test]
fn tree_leaf_is_its_own_chain() {
    let root = EventDAG::new(double as Operation);
    assert_eq!(root.collect_leaf_nodes(0), vec![0]);
    assert_eq!(root.operation_chains(0).len(), 1);
    assert_eq!(root.evaluate_depth(0, 21), vec![42]);
    assert_eq!(root.evaluate_chains(0, 21), vec![42]);
}

#[test]
fn tree_tells_whether_it_is_free_of_cycles() {
    let mut root = create_fixture();
    assert!(root.is_dag());
    root.add_follower_node(3, 0);
    assert!(!root.is_dag());
}

#[test]
fn tree_evaluations_agree() {
    let mut root = EventDAG::new(increment as Operation);
    let mut left = EventDAG::new(double as Operation);
    left.add_branch(0, EventDAG::new(increment as Operation));
    left.add_branch(0, EventDAG::new(double as Operation));
    root.add_branch(0, left);
    root.add_branch(0, EventDAG::new(double as Operation));
    assert_eq!(root.collect_leaf_nodes(0), vec![2, 3, 4]);
    assert_eq!(root.evaluate_depth(0, 3), vec![9, 16, 8]);
    assert_eq!(root.evaluate_chains(0, 3), vec![9, 16, 8]);
}
