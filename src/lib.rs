//! Style invalidation over a flattened DOM tree: given the selector
//! dependencies that a mutation touched, find the elements, siblings and
//! descendants whose style must be recomputed.

pub mod color;
pub mod dom;
pub mod invalidation_vector;
pub mod invalidator;
pub mod processor;
pub mod selector;
