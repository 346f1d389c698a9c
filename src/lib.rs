//! Weighted (probabilistic) tree automata: evaluation of trees, the search for
//! the most probable tree and the best parse.
//!
//! Probabilities are fixed-point numbers: a `u64` counts units of
//! `1 / weight::ONE`, so `weight::ONE` stands for probability 1.

pub mod weight;
pub mod tree;
pub mod integeriser;
pub mod transition;
pub mod pta;
pub mod evaluate;
pub mod query;
pub mod search;
pub mod best_parse;
pub mod laws;
pub mod text;
pub mod sexp;

pub use crate::integeriser::Integeriser;
pub use crate::pta::{PtaError, PTA};
pub use crate::sexp::SExp;
pub use crate::transition::{Integerisable, Transition};
pub use crate::tree::Tree;
pub use crate::weight::ONE;
