//! What holds of every event graph, stated over the model and proved.

pub mod acyclic;
pub mod alternatives;
pub mod chains;
pub mod evaluation;
pub mod fan;
pub mod growth;
pub mod sequence;
