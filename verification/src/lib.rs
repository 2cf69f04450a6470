//! A minimal feed-forward neural-network training engine, verified for shape
//! safety and dataflow correctness.
//!
//! The engine is generic over the scalar element type `T`; the caller supplies
//! the scalar arithmetic as closures, and every contract relates the computed
//! structures to those closures' postconditions. Shape invariants, the
//! forward/backward dataflow, gradient aggregation, parameter serialization,
//! the dataset parsing, and the random-number generator are fully specified
//! and verified; the laws module states and proves the engine's global
//! properties.

pub mod ops;
pub mod float_vec;
pub mod rand;
pub mod codec;
pub mod linear;
pub mod sigmoid;
pub mod layer;
pub mod model;
pub mod dataset;
pub mod laws;
