use crate::generation::internal::symmetries::{callable, falls, settles};
use crate::layout::layout::Key;
use vstd::pervasive::unreached;
use vstd::prelude::*;

verus! {

/// The key that has to be given a character before `key` when the keys of
/// a column may change places: the home row comes first, then the top row,
/// then the bottom row. The two inner columns follow the column beside
/// them.
pub open spec fn interior_column_link(key: Key) -> Option<Key> {
    if key.0 == 0 {
        Some(Key(1, key.1))
    } else if key.0 == 2 {
        Some(Key(0, key.1))
    } else if key.0 == 1 && key.1 == 4 {
        Some(Key(2, 3))
    } else if key.0 == 1 && key.1 == 5 {
        Some(Key(2, 6))
    } else {
        None
    }
}

/// The key that has to be given a character before `key` when, beyond the
/// keys of a column, whole columns may change places: where the keys of the
/// column give no answer, a column follows a column of the same size.
pub open spec fn column_set_link(key: Key) -> Option<Key> {
    match interior_column_link(key) {
        Some(first) => Some(first),
        None => if key.1 == 0 || key.1 == 3 {
            None
        } else if key.1 == 6 {
            Some(Key(1, 3))
        } else if key.1 == 7 {
            Some(Key(1, 2))
        } else {
            Some(Key(1, (key.1 - 1) as usize))
        },
    }
}

/// The key that has to be given a character before `key` when the bottom
/// row may change places with the top row.
pub open spec fn sfb_distance_link(key: Key) -> Option<Key> {
    if (key.0 == 2 || key.0 == 0) && key.1 == 4 {
        Some(Key(0, 3))
    } else if (key.0 == 2 || key.0 == 0) && key.1 == 5 {
        Some(Key(0, 6))
    } else if key.0 == 2 {
        Some(Key(0, key.1))
    } else {
        None
    }
}

/// Keys in columns and columns can be swapped.
pub fn column_set_symmetries(key: Key) -> (r: Option<Key>)
    requires
        key.0 <= 2,
    ensures
        r == column_set_link(key),
{
    match interior_column_symmetries(key) {
        Some(first) => Some(first),
        None => match key.1 {
            0 | 3 => None,
            4 | 5 => unreached(),
            6 => Some(Key(1, 3)),
            7 => Some(Key(1, 2)),
            n => Some(Key(1, n - 1)),
        },
    }
}

/// Keys in columns can be swapped; the board cannot be mirrored.
pub fn interior_column_symmetries(key: Key) -> (r: Option<Key>)
    requires
        key.0 <= 2,
    ensures
        r == interior_column_link(key),
{
    match key {
        Key(0, n) => Some(Key(1, n)),
        Key(2, n) => Some(Key(0, n)),
        Key(1, 4) => Some(Key(2, 3)),
        Key(1, 5) => Some(Key(2, 6)),
        Key(1, _) => None,
        _ => unreached(),
    }
}

/// Keys in the bottom row can be swapped with the ones on top.
pub fn sfb_distance_symmetries(key: Key) -> (r: Option<Key>)
    ensures
        r == sfb_distance_link(key),
{
    match key {
        Key(2, 4) => Some(Key(0, 3)),
        Key(0, 4) => Some(Key(0, 3)),
        Key(2, 5) => Some(Key(0, 6)),
        Key(0, 5) => Some(Key(0, 6)),
        Key(2, n) => Some(Key(0, n)),
        _ => None,
    }
}

/// A measure that falls along the links between the keys of a column.
pub open spec fn interior_column_rank(key: Key) -> nat {
    let inner = key.1 == 4 || key.1 == 5;
    if key.0 == 1 && !inner {
        0
    } else if key.0 == 0 && !inner {
        1
    } else if key.0 == 2 && !inner {
        2
    } else if key.0 == 1 {
        3
    } else if key.0 == 0 {
        4
    } else if key.0 == 2 {
        5
    } else {
        0
    }
}

/// A measure that falls along the links between keys and columns.
pub open spec fn column_set_rank(key: Key) -> nat {
    let column: nat = if key.1 == 5 {
        6
    } else if key.1 == 6 {
        5
    } else {
        key.1 as nat
    };
    column * 6 + interior_column_rank(key)
}

/// A measure that falls along the links from the bottom row to the top row.
pub open spec fn sfb_distance_rank(key: Key) -> nat {
    if key.0 == 2 {
        2
    } else if key.0 == 0 && (key.1 == 4 || key.1 == 5) {
        1
    } else {
        0
    }
}

/// Following the links between the keys of a column comes to an end, and
/// the links can be followed from every key in one of the three rows.
pub proof fn lemma_interior_column_settles(keys: Seq<Key>)
    ensures
        settles(interior_column_symmetries, keys),
        (forall|i: int| 0 <= i < keys.len() ==> (#[trigger] keys[i]).0 <= 2) ==> callable(
            interior_column_symmetries,
            keys,
        ),
{
    assert(falls(interior_column_symmetries, keys, |key: Key| interior_column_rank(key)));
}

/// Following the links between keys and columns comes to an end, and the
/// links can be followed from every key in one of the three rows.
pub proof fn lemma_column_set_settles(keys: Seq<Key>)
    ensures
        settles(column_set_symmetries, keys),
        (forall|i: int| 0 <= i < keys.len() ==> (#[trigger] keys[i]).0 <= 2) ==> callable(
            column_set_symmetries,
            keys,
        ),
{
    assert(falls(column_set_symmetries, keys, |key: Key| column_set_rank(key)));
}

/// Following the links from the bottom row to the top row comes to an end,
/// and the links can be followed from every key.
pub proof fn lemma_sfb_distance_settles(keys: Seq<Key>)
    ensures
        settles(sfb_distance_symmetries, keys),
        callable(sfb_distance_symmetries, keys),
{
    assert(falls(sfb_distance_symmetries, keys, |key: Key| sfb_distance_rank(key)));
}

} // verus!
