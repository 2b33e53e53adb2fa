use vstd::prelude::*;

verus! {

/// Everything that can go wrong while preparing a search.
///
/// The search itself is total: once the tables are built it only ends with
/// or without a layout.
#[derive(Clone, Copy, Debug, PartialEq, Eq, Structural)]
pub enum Error {
    /// An input has the wrong shape, such as a value that occurs twice in
    /// an alphabet or a text of the wrong length.
    InvalidInput,
    /// An applied metric names an n-gram set or a metric that was not declared.
    UnknownName,
    /// The symmetry relation cannot be brought into a placement order.
    CycleDetected,
    /// The weights are too large for scores to stay within 64 bits.
    Overflow,
    /// A text is shorter than the n-grams that are counted in it.
    CorpusTooShort,
}

} // verus!
