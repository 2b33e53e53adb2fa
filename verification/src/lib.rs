//! Exhaustive search for keyboard layouts.
//!
//! A layout assigns the characters of an alphabet to the keys of a board.
//! The crate counts character n-grams in a corpus, compiles n-gram sets and
//! key metrics into index tables, and walks the tree of partial assignments
//! depth first, cutting branches by symmetry, by per-metric constraints and
//! by a score bound that tightens with every layout found.

pub mod analyzer;
pub mod corpus;
pub mod corpus_data;
pub mod error;
pub mod generation;
pub mod layout;
pub mod ngrams;
pub mod parser;

pub use analyzer::{Analyzer, AppliedMetric};
pub use corpus_data::CorpusData;
pub use error::Error;
pub use generation::Translatable;
pub use ngrams::NGrams;
