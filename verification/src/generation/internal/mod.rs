//! Index-level building blocks of the search.

pub mod encoding;
pub mod partial_layout;
pub mod symmetries;
pub mod translatable;

pub use encoding::Encoding;
pub use partial_layout::{Children, PartialLayout};
pub use symmetries::Symmetries;
pub use translatable::Translatable;
