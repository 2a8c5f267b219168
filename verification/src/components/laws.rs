//! What holds of every graph and every component: proofs, stated over the
//! model that the contracts of the functions use.

pub mod bindings;
pub mod completion;
pub mod edges;
pub mod indices;
pub mod passes;
pub mod runs;
