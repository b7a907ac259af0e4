use metsi_rust::configuration_utils::{bound_operation, ParameterMap};

fn parametered_increment(val: i32, params: ParameterMap) -> i32 {
    let addition = params.get("increase").unwrap().parse::<i32>().unwrap();
    val + addition
}

#[test]
fn operation_binding_works() {
    let mut params = ParameterMap::new();
    params.insert("increase", "2");
    let operation = bound_operation(parametered_increment, params);
    let mut val = 0;
    val = operation(val);
    val = operation(val);
    assert_eq!(4, val);
}

#[test]
fn owned_binding_equals_direct_call() {
    let mut params = ParameterMap::new();
    params.insert("increase", "7");
    let operation = bound_operation(parametered_increment, params.clone());
    for x in [-3, 0, 5, 1000] {
        assert_eq!(operation(x), parametered_increment(x, params.clone()));
    }
}

#[test]
fn binding_keeps_the_parameters_it_was_given() {
    let mut params = ParameterMap::new();
    params.insert("increase", "2");
    let operation = bound_operation(parametered_increment, params.clone());
    params.insert("increase", "100");
    assert_eq!(operation(1), 3);
}
