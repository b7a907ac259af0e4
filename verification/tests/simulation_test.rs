use metsi_rust::branching_generators::{generator_map, Generator};
use metsi_rust::configuration_utils::{bound_operation, ParameterMap};
use metsi_rust::event_graph::{BoxedOperation, EventDAG, EventNode, EventNodes, OperationChain};
use std::collections::HashMap;

type ParameteredOperation = fn(i32, ParameterMap) -> i32;

fn increment(val: i32, params: ParameterMap) -> i32 {
    let addition = params.get("increase").unwrap().parse::<i32>().unwrap();
    val + addition
}

fn decrement(val: i32, params: ParameterMap) -> i32 {
    let removal = params.get("decrease").unwrap().parse::<i32>().unwrap();
    val - removal
}

fn do_nothing(val: i32) -> i32 {
    val
}

#[test]
fn test_simple_run() {
    let configuration = HashMap::from([
        ("increment", ParameterMap::from([("increase", "2")])),
        ("decrement", ParameterMap::from([("decrease", "1")])),
    ]);

    let operation_map = HashMap::from([
        ("increment", increment as ParameteredOperation),
        ("decrement", decrement as ParameteredOperation),
    ]);

    let generator_map = generator_map();

    let simconfig = Vec::from([
        ("sequence", Vec::from(["increment", "increment"])),
        ("alternatives", Vec::from(["increment", "decrement"])),
        ("sequence", Vec::from(["increment", "increment"])),
    ]);

    let mut graph: EventDAG<i32, BoxedOperation<i32>> = EventDAG::new(Box::new(do_nothing));
    let root: EventNode = 0;

    let mut nodes: EventNodes = vec![root];

    let sim: Vec<(Generator, OperationChain<BoxedOperation<i32>>)> = simconfig
        .iter()
        .map(|generator_declaration| {
            let generator_fn = *generator_map.get(generator_declaration.0).unwrap();
            let operations: OperationChain<BoxedOperation<i32>> = generator_declaration
                .1
                .iter()
                .map(|opname| {
                    let op: ParameteredOperation = *operation_map.get(opname).unwrap();
                    let params = configuration.get(opname).unwrap();
                    let bound: BoxedOperation<i32> = Box::new(bound_operation(op, params.clone()));
                    bound
                })
                .collect::<OperationChain<BoxedOperation<i32>>>();
            (generator_fn, operations)
        })
        .collect();
    for generable in sim {
        nodes = generable.0.generate(&mut graph, nodes, generable.1);
    }

    let result = graph.evaluate_depth(root, 10);
    assert_eq!(vec![20, 17], result);
}
