use crate::generation::internal::translatable::Translatable;
use vstd::prelude::*;

verus! {

/// A key of the board, by row and column.
#[derive(Clone, Copy, Debug, PartialEq, Eq, Hash, PartialOrd, Ord, Structural)]
pub struct Key(pub usize, pub usize);

impl Translatable for Key {
    fn same(&self, other: &Self) -> (r: bool) {
        self.0 == other.0 && self.1 == other.1
    }
}

/// The keys of the first `upto` characters of row `y`, beside the
/// characters.
pub open spec fn row_mapping(row: Seq<char>, y: nat, upto: nat) -> Seq<(Key, char)> {
    Seq::new(upto, |x: int| (Key(y as usize, x as usize), row[x]))
}

/// The keys of the characters in the first `upto` rows, beside the
/// characters, row by row.
pub open spec fn mapping_upto(rows: Seq<Seq<char>>, upto: nat) -> Seq<(Key, char)>
    decreases upto,
{
    if upto == 0 {
        Seq::empty()
    } else {
        mapping_upto(rows, (upto - 1) as nat) + row_mapping(
            rows[upto - 1],
            (upto - 1) as nat,
            rows[upto - 1].len(),
        )
    }
}

/// Whether `a` comes before `b`: in a higher row, or in the same row
/// further to the left.
pub open spec fn key_before(a: Key, b: Key) -> bool {
    a.0 < b.0 || (a.0 == b.0 && a.1 < b.1)
}

/// The keys in a mapping of rows come row by row, and from left to right
/// in a row.
pub proof fn lemma_mapping_sorted(rows: Seq<Seq<char>>, upto: nat)
    requires
        upto <= rows.len() <= usize::MAX,
        forall|y: int| 0 <= y < rows.len() ==> (#[trigger] rows[y]).len() <= usize::MAX,
    ensures
        forall|i: int|
            0 <= i < mapping_upto(rows, upto).len() ==> (#[trigger] mapping_upto(rows, upto)[i]).0.0
                < upto,
        forall|i: int, j: int|
            0 <= i < j < mapping_upto(rows, upto).len() ==> key_before(
                mapping_upto(rows, upto)[i].0,
                mapping_upto(rows, upto)[j].0,
            ),
    decreases upto,
{
    if upto > 0 {
        lemma_mapping_sorted(rows, (upto - 1) as nat);
        let head = mapping_upto(rows, (upto - 1) as nat);
        let all = mapping_upto(rows, upto);
        assert forall|i: int| 0 <= i < all.len() implies (#[trigger] all[i]).0.0 < upto by {
            if i < head.len() {
                assert(all[i] == head[i]);
            }
        }
        assert forall|i: int, j: int| 0 <= i < j < all.len() implies key_before(
            all[i].0,
            all[j].0,
        ) by {
            if i < head.len() {
                assert(all[i] == head[i]);
            }
            if j < head.len() {
                assert(all[j] == head[j]);
            }
        }
    }
}

/// Whether `a` does not come behind `b`.
pub open spec fn key_not_behind(a: Key, b: Key) -> bool {
    a.0 < b.0 || (a.0 == b.0 && a.1 <= b.1)
}

/// `sorted` with `entry` put behind the entries whose keys do not come
/// behind its key.
pub open spec fn inserted(sorted: Seq<(Key, char)>, entry: (Key, char)) -> Seq<(Key, char)>
    decreases sorted.len(),
{
    if sorted.len() == 0 {
        seq![entry]
    } else if key_not_behind(sorted.last().0, entry.0) {
        sorted.push(entry)
    } else {
        inserted(sorted.drop_last(), entry).push(sorted.last())
    }
}

/// The first `upto` entries of `mapping` in the order of their keys;
/// entries with the same key stay in the order they had.
pub open spec fn in_order(mapping: Seq<(Key, char)>, upto: nat) -> Seq<(Key, char)>
    decreases upto,
{
    if upto == 0 {
        Seq::empty()
    } else {
        inserted(in_order(mapping, (upto - 1) as nat), mapping[upto - 1])
    }
}

/// The characters of those of the first `upto` entries of `mapping` whose
/// key is in row `y`.
pub open spec fn row_chars(mapping: Seq<(Key, char)>, y: int, upto: nat) -> Seq<char>
    decreases upto,
{
    if upto == 0 {
        Seq::empty()
    } else if mapping[upto - 1].0.0 == y {
        row_chars(mapping, y, (upto - 1) as nat).push(mapping[upto - 1].1)
    } else {
        row_chars(mapping, y, (upto - 1) as nat)
    }
}

/// The number of rows that the first `upto` entries of `mapping` reach
/// into.
pub open spec fn height(mapping: Seq<(Key, char)>, upto: nat) -> nat
    decreases upto,
{
    if upto == 0 {
        0
    } else if mapping[upto - 1].0.0 >= height(mapping, (upto - 1) as nat) {
        (mapping[upto - 1].0.0 + 1) as nat
    } else {
        height(mapping, (upto - 1) as nat)
    }
}

/// Putting an entry behind the entries at the positions before `at`, whose
/// keys do not come behind its key, and before the others, whose keys do.
proof fn lemma_inserted(sorted: Seq<(Key, char)>, entry: (Key, char), at: int)
    requires
        0 <= at <= sorted.len(),
        at > 0 ==> key_not_behind(sorted[at - 1].0, entry.0),
        forall|i: int| at <= i < sorted.len() ==> !key_not_behind(sorted[i].0, entry.0),
    ensures
        inserted(sorted, entry) == sorted.insert(at, entry),
    decreases sorted.len(),
{
    if sorted.len() == 0 {
        assert(sorted.insert(at, entry) =~= seq![entry]);
    } else if at == sorted.len() {
        assert(sorted.insert(at, entry) =~= sorted.push(entry));
    } else {
        let front = sorted.drop_last();
        assert(!key_not_behind(sorted[sorted.len() - 1].0, entry.0));
        assert forall|i: int| at <= i < front.len() implies !key_not_behind(
            front[i].0,
            entry.0,
        ) by {
            assert(front[i] == sorted[i]);
        }
        if at > 0 {
            assert(front[at - 1] == sorted[at - 1]);
        }
        lemma_inserted(front, entry, at);
        assert(front.insert(at, entry).push(sorted.last()) =~= sorted.insert(at, entry));
    }
}

/// The characters on the keys of a board, row by row.
#[derive(Clone, Debug, PartialEq, Eq)]
pub struct Layout(Vec<Vec<char>>);

impl View for Layout {
    type V = Seq<Seq<char>>;

    /// The characters, row by row.
    closed spec fn view(&self) -> Seq<Seq<char>> {
        Seq::new(self.0@.len(), |y: int| self.0@[y]@)
    }
}

impl Layout {
    /// The layout that is named after the first characters of its first
    /// row.
    pub fn qwerty() -> (r: Layout)
        ensures
            r@ == seq![
                seq!['q', 'w', 'e', 'r', 't', 'y', 'u', 'i', 'o', 'p'],
                seq!['a', 's', 'd', 'f', 'g', 'h', 'j', 'k', 'l', '\''],
                seq!['z', 'x', 'c', 'v', 'b', 'n', 'm', ',', '.', '/'],
            ],
    {
        let top: Vec<char> = vec!['q', 'w', 'e', 'r', 't', 'y', 'u', 'i', 'o', 'p'];
        let home: Vec<char> = vec!['a', 's', 'd', 'f', 'g', 'h', 'j', 'k', 'l', '\''];
        let bottom: Vec<char> = vec!['z', 'x', 'c', 'v', 'b', 'n', 'm', ',', '.', '/'];
        let ghost rows = seq![top@, home@, bottom@];
        let mut all: Vec<Vec<char>> = Vec::new();
        all.push(top);
        all.push(home);
        all.push(bottom);
        let r = Layout(all);
        proof {
            assert(r@ =~= rows);
            assert(rows[0] =~= seq!['q', 'w', 'e', 'r', 't', 'y', 'u', 'i', 'o', 'p']);
            assert(rows[1] =~= seq!['a', 's', 'd', 'f', 'g', 'h', 'j', 'k', 'l', '\'']);
            assert(rows[2] =~= seq!['z', 'x', 'c', 'v', 'b', 'n', 'm', ',', '.', '/']);
        }
        r
    }

    /// The layout with the given rows.
    pub fn from_rows(rows: Vec<Vec<char>>) -> (r: Layout)
        ensures
            r@ == Seq::new(rows@.len(), |y: int| rows@[y]@),
    {
        Layout(rows)
    }

    /// The rows of the layout.
    pub fn into_rows(self) -> (r: Vec<Vec<char>>)
        ensures
            self@ == Seq::new(r@.len(), |y: int| r@[y]@),
    {
        self.0
    }

    /// The layout with the given characters on the given keys. It has as
    /// many rows as the keys reach into. The characters of a row stand in
    /// the order of their keys, whatever the columns of the keys are.
    pub fn from_mapping(mapping: Vec<(Key, char)>) -> (r: Layout)
        requires
            mapping@.len() > 0,
            forall|i: int| 0 <= i < mapping@.len() ==> (#[trigger] mapping@[i]).0.0 < usize::MAX,
        ensures
            r@.len() == height(mapping@, mapping@.len()),
            forall|y: int|
                0 <= y < r@.len() ==> #[trigger] r@[y] == row_chars(
                    in_order(mapping@, mapping@.len()),
                    y,
                    mapping@.len(),
                ),
    {
        let mut sorted: Vec<(Key, char)> = Vec::new();
        let mut rows: usize = 0;
        let mut i: usize = 0;
        while i < mapping.len()
            invariant
                i <= mapping@.len(),
                forall|k: int|
                    0 <= k < mapping@.len() ==> (#[trigger] mapping@[k]).0.0 < usize::MAX,
                sorted@ == in_order(mapping@, i as nat),
                sorted@.len() == i,
                rows == height(mapping@, i as nat),
                forall|k: int| 0 <= k < sorted@.len() ==> (#[trigger] sorted@[k]).0.0 < rows,
            decreases mapping@.len() - i,
        {
            let entry = mapping[i];
            let mut at: usize = sorted.len();
            while at > 0 && (sorted[at - 1].0.0 > entry.0.0 || (sorted[at - 1].0.0 == entry.0.0
                && sorted[at - 1].0.1 > entry.0.1))
                invariant
                    at <= sorted@.len(),
                    forall|k: int|
                        at <= k < sorted@.len() ==> !key_not_behind(sorted@[k].0, entry.0),
                decreases at,
            {
                at -= 1;
            }
            proof {
                lemma_inserted(sorted@, entry, at as int);
            }
            let ghost before = sorted@;
            sorted.insert(at, entry);
            if entry.0.0 >= rows {
                rows = entry.0.0 + 1;
            }
            proof {
                assert forall|k: int| 0 <= k < sorted@.len() implies (#[trigger] sorted@[k]).0.0
                    < rows by {
                    if k < at {
                        assert(sorted@[k] == before[k]);
                    } else if k > at {
                        assert(sorted@[k] == before[k - 1]);
                    }
                }
            }
            i += 1;
        }
        let mut res: Vec<Vec<char>> = Vec::new();
        let mut y: usize = 0;
        while y < rows
            invariant
                y <= rows,
                res@.len() == y,
                forall|k: int| 0 <= k < y ==> (#[trigger] res@[k])@.len() == 0,
            decreases rows - y,
        {
            res.push(Vec::new());
            y += 1;
        }
        let mut i: usize = 0;
        while i < sorted.len()
            invariant
                i <= sorted@.len(),
                res@.len() == rows,
                forall|k: int| 0 <= k < sorted@.len() ==> (#[trigger] sorted@[k]).0.0 < rows,
                forall|k: int|
                    0 <= k < rows ==> (#[trigger] res@[k])@ == row_chars(sorted@, k, i as nat),
            decreases sorted@.len() - i,
        {
            let (key, c) = sorted[i];
            assert(sorted@[i as int].0.0 < rows);
            let ghost before = res@;
            res[key.0].push(c);
            proof {
                assert forall|k: int| 0 <= k < rows implies (#[trigger] res@[k])@ == row_chars(
                    sorted@,
                    k,
                    (i + 1) as nat,
                ) by {
                    if k != key.0 {
                        assert(res@[k] == before[k]);
                    }
                }
            }
            i += 1;
        }
        let r = Layout(res);
        proof {
            assert forall|y: int| 0 <= y < r@.len() implies #[trigger] r@[y] == row_chars(
                in_order(mapping@, mapping@.len()),
                y,
                mapping@.len(),
            ) by {
                assert(r@[y] == res@[y]@);
            }
        }
        r
    }

    /// Every key with its character, in the order of the keys: row by row,
    /// and from left to right in a row.
    pub fn into_mapping(self) -> (r: Vec<(Key, char)>)
        ensures
            r@ == mapping_upto(self@, self@.len()),
    {
        let mut res: Vec<(Key, char)> = Vec::new();
        let mut row: usize = 0;
        while row < self.0.len()
            invariant
                row <= self.0@.len(),
                self@.len() == self.0@.len(),
                res@ == mapping_upto(self@, row as nat),
            decreases self.0@.len() - row,
        {
            let ghost before = res@;
            let mut col: usize = 0;
            while col < self.0[row].len()
                invariant
                    row < self.0@.len(),
                    col <= self.0@[row as int]@.len(),
                    self@[row as int] == self.0@[row as int]@,
                    res@ == before + row_mapping(self@[row as int], row as nat, col as nat),
                decreases self.0@[row as int]@.len() - col,
            {
                res.push((Key(row, col), self.0[row][col]));
                proof {
                    assert(res@ =~= before + row_mapping(
                        self@[row as int],
                        row as nat,
                        (col + 1) as nat,
                    ));
                }
                col += 1;
            }
            row += 1;
        }
        res
    }
}

} // verus!
