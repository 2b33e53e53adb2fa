use vstd::prelude::*;

verus! {

/// A value that can be translated to a dense index and back: characters and
/// keys.
///
/// The search compares such values only for identity, so an implementation
/// has to decide exactly that.
pub trait Translatable: Copy {
    /// Whether `self` and `other` are the same value.
    fn same(&self, other: &Self) -> (r: bool)
        ensures
            r == (*self == *other),
    ;
}

impl Translatable for char {
    fn same(&self, other: &Self) -> (r: bool) {
        *self == *other
    }
}

impl Translatable for u8 {
    fn same(&self, other: &Self) -> (r: bool) {
        *self == *other
    }
}

impl Translatable for usize {
    fn same(&self, other: &Self) -> (r: bool) {
        *self == *other
    }
}

} // verus!
