//! Binding an operation to parameters that it borrows.

use vstd::prelude::*;
use std::collections::HashMap;

verus! {

/// Named options of an operation, each a string.
pub type ParameterMap = HashMap<&'static str, &'static str>;

/// Fixes the parameters of `op`: the operation returned takes a state alone
/// and calls `op` with that state and `params`. It accepts every state that
/// `op` accepts together with `params`, and returns nothing that `op` could
/// not return for that state and `params`. The parameters are borrowed for
/// as long as the bound operation lives, so they cannot change under it.
pub fn bound_operation<'a, T: 'a, G: Fn(T, &'a ParameterMap) -> T + 'a>(
    op: G,
    params: &'a ParameterMap,
) -> (bound: impl Fn(T) -> T + 'a)
    ensures
        forall|x: T| call_requires(op, (x, params)) ==> call_requires(bound, (x,)),
        forall|x: T, y: T| call_ensures(bound, (x,), y) ==> call_ensures(op, (x, params), y),
{
    move |payload: T| -> (result: T)
        requires
            call_requires(op, (payload, params)),
        ensures
            call_ensures(op, (payload, params), result),
        { op(payload, params) }
}

} // verus!
