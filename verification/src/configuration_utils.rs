//! Binding an operation to parameters of its own.

use vstd::prelude::*;
use std::collections::HashMap;

verus! {

/// Named options of an operation, each a string.
pub type ParameterMap = HashMap<&'static str, &'static str>;

/// `bound` is `op` with the options of `params` as its second argument: it
/// accepts every state that `op` accepts together with any map that holds
/// those options, and returns nothing that `op` could not return for that
/// state and such a map.
pub open spec fn binds<T, G: Fn(T, ParameterMap) -> T, B: Fn(T) -> T>(
    bound: B,
    op: G,
    params: ParameterMap,
) -> bool {
    &&& forall|x: T|
        (forall|given: ParameterMap| given@ == params@ ==> call_requires(op, (x, given)))
            ==> call_requires(bound, (x,))
    &&& forall|x: T, y: T|
        call_ensures(bound, (x,), y) ==> exists|given: ParameterMap|
            given@ == params@ && call_ensures(op, (x, given), y)
}

/// Fixes the parameters of `op`: the operation returned takes a state alone
/// and calls `op` with that state and a copy of `params`. The bound
/// operation owns `params`, so nothing can change them later.
pub fn bound_operation<T, G: Fn(T, ParameterMap) -> T>(op: G, params: ParameterMap) -> (bound:
    impl Fn(T) -> T)
    ensures
        binds(bound, op, params),
{
    move |payload: T| -> (result: T)
        requires
            forall|given: ParameterMap| given@ == params@ ==> call_requires(op, (payload, given)),
        ensures
            exists|given: ParameterMap|
                given@ == params@ && call_ensures(op, (payload, given), result),
        { op(payload, params.clone()) }
}

} // verus!
