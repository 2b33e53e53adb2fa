use vstd::prelude::*;

verus! {

/// A finger of one hand.
#[derive(Clone, Copy, Debug, PartialEq, Eq)]
pub struct Finger {
    pub kind: FingerKind,
    pub hand: Hand,
}

/// The fingers of a hand, from the outside in.
#[derive(Clone, Copy, Debug, PartialEq, Eq, PartialOrd, Ord)]
pub enum FingerKind {
    Pinky,
    Ring,
    Middle,
    Index,
    Thumb,
}

/// The two hands.
#[derive(Clone, Copy, Debug, PartialEq, Eq)]
pub enum Hand {
    Left,
    Right,
}

} // verus!
