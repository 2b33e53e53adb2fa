//! Compiled tables: dense metric values and sparse n-gram weights.

pub mod analyzer;
pub mod indexes;
pub mod ndarray;
pub mod sparse_tensor;

pub use analyzer::Analyzer;
pub use indexes::Indexes;
pub use ndarray::NDArray;
pub use sparse_tensor::SparseTensor;
