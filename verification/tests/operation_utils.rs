use metsi_rust::operation_utils::{bound_operation, ParameterMap};

fn parametered_increment(val: i32, params: &ParameterMap) -> i32 {
    let addition = params.get("increase").unwrap().parse::<i32>().unwrap();
    val + addition
}

#[test]
fn partial_application_works() {
    let mut params = ParameterMap::new();
    params.insert("increase", "2");
    let operation = bound_operation(parametered_increment, &params);
    let mut val = 0;
    val = operation(val);
    val = operation(val);
    assert_eq!(4, val);
}

#[test]
fn borrowed_binding_equals_direct_call() {
    let mut params = ParameterMap::new();
    params.insert("increase", "7");
    let operation = bound_operation(parametered_increment, &params);
    for x in [-3, 0, 5, 1000] {
        assert_eq!(operation(x), parametered_increment(x, &params));
    }
}
