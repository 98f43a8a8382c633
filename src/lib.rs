//! An incremental computation engine: a directed acyclic graph of scalar values in which
//! input nodes are set from outside and computed nodes are pure functions of their
//! dependencies. Values are computed lazily and cached; setting an input clears the cache of
//! every node that depends on it, and of no other.
mod graph;
mod laws;
mod model;
mod operations;

pub use graph::Graph;
pub use graph::NodeRef;
pub use laws::{
    lemma_invalidation_complete, lemma_invalidation_minimal, lemma_memoization, lemma_shared_input,
    lemma_shared_input_read,
};
pub use model::GraphError;
pub use model::NodeView;
pub use operations::add;
pub use operations::mul;
pub use operations::pow_const;
pub use operations::Add;
pub use operations::Arith;
pub use operations::Mul;
pub use operations::Operation;
pub use operations::Pow;
