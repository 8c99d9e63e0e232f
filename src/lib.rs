//! A digit-binning tree for weighted random selection and removal.
//!
//! Weights are fixed-point decimals, binned to a configured number of decimal
//! places; a root-to-leaf path spells the digits of a bin's weight, and every
//! node keeps the total weight and the number of individuals below it.

pub mod bitmap;
pub mod index;
pub mod node;
mod random;
pub mod weight;

pub use index::DigitBinIndex;
pub use node::{Node, NodeContent};
pub use weight::Weight;
