//! Branching simulations as graphs of state transitions.
//!
//! An event holds an operation from a state to a state, and any number of
//! events may follow it. The crate builds such graphs, lists the chains of
//! events that lead from an event to the leaves under it, and applies every
//! chain to a starting state.
//!
//! - [`event_graph`] holds the graph itself: events in one arena, named by
//!   handles, with the walks and the two evaluations.
//! - [`event_tree`] is the same graph for operations that can be copied.
//! - [`work_list`] walks and evaluates without recursion.
//! - [`branching_generators`] grows a graph at its frontier, by sequences
//!   and by alternatives.
//! - [`configuration_utils`] and [`operation_utils`] bind an operation to
//!   its parameters.
//! - [`event_model`] is the mathematical model over which all of this is
//!   stated, and [`laws`] holds what is proved of it.
//!
//! An operation is any `Fn(T) -> T`. What it does is known by its contract
//! alone, so the evaluations promise states that the operations can return:
//! where an operation can return only one state for each state it is given,
//! that is the one state it returns.

pub mod event_model;
pub mod event_graph;
pub mod event_tree;
pub mod work_list;
pub mod branching_generators;
pub mod configuration_utils;
pub mod operation_utils;
pub mod laws;
