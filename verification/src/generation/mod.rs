//! The search engine: encodings, compiled analyzers and the generator.

pub mod analysis;
pub mod generator;
pub mod internal;

pub use analysis::Analyzer;
pub use generator::{generate, optimize, Generator};
pub use internal::{Encoding, PartialLayout, Symmetries, Translatable};
