//! A board of three rows of ten keys: its keys, fingers and symmetries.

pub mod finger;
pub mod layout;
pub mod symmetries;

pub use finger::{Finger, FingerKind, Hand};
pub use layout::{Key, Layout};
pub use symmetries::{column_set_symmetries, interior_column_symmetries, sfb_distance_symmetries};
