use vstd::prelude::*;

verus! {

/// Every component of `t` is below `side`.
pub open spec fn in_range(t: Seq<usize>, side: nat) -> bool {
    forall|i: int| 0 <= i < t.len() ==> t[i] < side
}

/// The number of tuples of length `dim` with components below `side`.
pub open spec fn volume(side: nat, dim: nat) -> nat
    decreases dim,
{
    if dim == 0 {
        1
    } else {
        volume(side, (dim - 1) as nat) * side
    }
}

/// The place of `t` among the tuples of its length when they are put in
/// lexicographic order: the number that `t` spells in base `side`, first
/// component most significant.
pub open spec fn row_major(t: Seq<usize>, side: nat) -> nat
    decreases t.len(),
{
    if t.len() == 0 {
        0
    } else {
        row_major(t.drop_last(), side) * side + t.last() as nat
    }
}

/// A tuple in range has a place below the volume.
pub proof fn lemma_row_major_bound(t: Seq<usize>, side: nat)
    requires
        in_range(t, side),
    ensures
        row_major(t, side) < volume(side, t.len()),
    decreases t.len(),
{
    if t.len() > 0 {
        let p = t.drop_last();
        lemma_row_major_bound(p, side);
        let a = row_major(p, side);
        let v = volume(side, p.len());
        assert(t.last() < side);
        assert(a * side + side <= v * side) by (nonlinear_arith)
            requires
                a + 1 <= v,
        ;
    }
}

/// Two tuples of one length, both in range, that share a place are equal.
pub proof fn lemma_row_major_injective(s: Seq<usize>, t: Seq<usize>, side: nat)
    requires
        s.len() == t.len(),
        in_range(s, side),
        in_range(t, side),
        row_major(s, side) == row_major(t, side),
    ensures
        s =~= t,
    decreases s.len(),
{
    if s.len() > 0 {
        let a = row_major(s.drop_last(), side);
        let b = row_major(t.drop_last(), side);
        let x = s.last() as nat;
        let y = t.last() as nat;
        assert(s.last() < side && t.last() < side);
        assert(a == b && x == y) by (nonlinear_arith)
            requires
                a * side + x == b * side + y,
                x < side,
                y < side,
        ;
        lemma_row_major_injective(s.drop_last(), t.drop_last(), side);
        assert forall|i: int| 0 <= i < s.len() implies s[i] == t[i] by {
            if i < s.len() - 1 {
                assert(s.drop_last()[i] == t.drop_last()[i]);
            }
        }
    }
}

/// The tuple of length `dim` with the given place: the digits of `place` in
/// base `side`.
pub open spec fn tuple_at(place: nat, side: nat, dim: nat) -> Seq<usize>
    decreases dim,
{
    if dim == 0 {
        Seq::empty()
    } else {
        tuple_at(place / side, side, (dim - 1) as nat).push((place % side) as usize)
    }
}

/// The tuple at a place below the volume is in range and has this place.
pub proof fn lemma_tuple_at(place: nat, side: nat, dim: nat)
    requires
        0 < side <= usize::MAX,
        place < volume(side, dim),
    ensures
        tuple_at(place, side, dim).len() == dim,
        in_range(tuple_at(place, side, dim), side),
        row_major(tuple_at(place, side, dim), side) == place,
    decreases dim,
{
    if dim > 0 {
        let head = place / side;
        let last = place % side;
        let rest = volume(side, (dim - 1) as nat);
        assert(head * side + last == place && 0 <= last < side) by (nonlinear_arith)
            requires
                head == place / side,
                last == place % side,
                side > 0,
        ;
        assert(head < rest) by (nonlinear_arith)
            requires
                head * side + last == place,
                place < rest * side,
                0 <= last,
                side > 0,
        ;
        lemma_tuple_at(head, side, (dim - 1) as nat);
        let t = tuple_at(place, side, dim);
        let front = tuple_at(head, side, (dim - 1) as nat);
        assert(t.drop_last() =~= front);
        assert forall|i: int| 0 <= i < t.len() implies t[i] < side by {
            if i < front.len() {
                assert(t[i] == front[i]);
            }
        }
    }
}

/// A tuple in range is the tuple at its place.
pub proof fn lemma_tuple_of_place(t: Seq<usize>, side: nat)
    requires
        0 < side <= usize::MAX,
        in_range(t, side),
    ensures
        tuple_at(row_major(t, side), side, t.len()) == t,
{
    lemma_row_major_bound(t, side);
    lemma_tuple_at(row_major(t, side), side, t.len());
    lemma_row_major_injective(tuple_at(row_major(t, side), side, t.len()), t, side);
}

/// Counting up: raising component `k` by one and clearing the components
/// behind it, which were all at their highest, leads to the next place.
proof fn lemma_successor(t: Seq<usize>, u: Seq<usize>, k: int, side: nat)
    requires
        t.len() == u.len(),
        0 <= k < t.len(),
        u[k] == t[k] + 1,
        forall|j: int| 0 <= j < k ==> u[j] == t[j],
        forall|j: int| k < j < t.len() ==> #[trigger] t[j] + 1 == side,
        forall|j: int| k < j < u.len() ==> #[trigger] u[j] == 0,
    ensures
        row_major(u, side) == row_major(t, side) + 1,
    decreases t.len(),
{
    if k == t.len() - 1 {
        assert(t.drop_last() =~= u.drop_last());
    } else {
        let tp = t.drop_last();
        let up = u.drop_last();
        assert forall|j: int| k < j < tp.len() implies #[trigger] tp[j] + 1 == side by {
            assert(tp[j] == t[j]);
        }
        assert forall|j: int| k < j < up.len() implies #[trigger] up[j] == 0 by {
            assert(up[j] == u[j]);
        }
        lemma_successor(tp, up, k, side);
        let a = row_major(t.drop_last(), side);
        assert((a + 1) * side == a * side + side) by (nonlinear_arith);
    }
}

/// The tuple whose components are all at their highest has the last place.
proof fn lemma_last_place(t: Seq<usize>, side: nat)
    requires
        forall|j: int| 0 <= j < t.len() ==> #[trigger] t[j] + 1 == side,
    ensures
        row_major(t, side) + 1 == volume(side, t.len()),
    decreases t.len(),
{
    if t.len() > 0 {
        let p = t.drop_last();
        assert forall|j: int| 0 <= j < p.len() implies #[trigger] p[j] + 1 == side by {
            assert(p[j] == t[j]);
        }
        lemma_last_place(p, side);
        let a = row_major(t.drop_last(), side);
        assert((a + 1) * side == a * side + side) by (nonlinear_arith);
    }
}

/// The tuple of zeros has the first place.
proof fn lemma_first_place(t: Seq<usize>, side: nat)
    requires
        forall|j: int| 0 <= j < t.len() ==> t[j] == 0,
    ensures
        row_major(t, side) == 0,
    decreases t.len(),
{
    if t.len() > 0 {
        lemma_first_place(t.drop_last(), side);
        assert(0 * side == 0) by (nonlinear_arith);
    }
}

/// There is no tuple of positive length with components below zero.
proof fn lemma_volume_of_nothing(dim: nat)
    requires
        dim > 0,
    ensures
        volume(0, dim) == 0,
{
    assert(volume(0, (dim - 1) as nat) * 0 == 0) by (nonlinear_arith);
}

/// Walks through all tuples of `D` indices below a bound, in lexicographic
/// order, the last component changing fastest. It cannot be restarted.
pub struct Indexes<const D: usize> {
    max: usize,
    current: [usize; D],
    done: bool,
}

impl<const D: usize> Indexes<D> {
    /// The bound that every component stays below.
    pub closed spec fn side(&self) -> nat {
        self.max as nat
    }

    /// How many tuples have been handed out.
    pub closed spec fn position(&self) -> nat {
        if self.done {
            volume(self.max as nat, D as nat)
        } else {
            row_major(self.current@, self.max as nat)
        }
    }

    /// The walk is at a tuple in range, or behind the last one.
    pub closed spec fn wf(&self) -> bool {
        !self.done ==> in_range(self.current@, self.max as nat)
    }

    /// The position never passes the number of tuples.
    pub proof fn lemma_position_bound(&self)
        requires
            self.wf(),
        ensures
            self.position() <= volume(self.side(), D as nat),
    {
        if !self.done {
            lemma_row_major_bound(self.current@, self.max as nat);
        }
    }

    /// Starts before the first tuple with components below `max`.
    pub fn new(max: usize) -> (r: Self)
        ensures
            r.wf(),
            r.side() == max,
            r.position() == 0,
    {
        let r = Self { max, current: [0usize; D], done: max == 0 && D > 0 };
        proof {
            if r.done {
                lemma_volume_of_nothing(D as nat);
            } else {
                lemma_first_place(r.current@, max as nat);
            }
        }
        r
    }

    /// Hands out the tuple at the current position and moves on, or returns
    /// `None` when all tuples have been handed out.
    pub fn next(&mut self) -> (r: Option<[usize; D]>)
        requires
            old(self).wf(),
        ensures
            final(self).wf(),
            final(self).side() == old(self).side(),
            old(self).position() < volume(old(self).side(), D as nat) ==> r is Some
                && final(self).position() == old(self).position() + 1,
            old(self).position() >= volume(old(self).side(), D as nat) ==> r is None
                && final(self).position() == old(self).position(),
            r matches Some(t) ==> in_range(t@, old(self).side()) && row_major(
                t@,
                old(self).side(),
            ) == old(self).position(),
    {
        if self.done {
            return None;
        }
        proof {
            lemma_row_major_bound(self.current@, self.max as nat);
        }
        let res = self.current;
        let mut i: usize = D;
        while i > 0
            invariant
                i <= D,
                !self.done,
                !old(self).done,
                self.max == old(self).max,
                res@ == old(self).current@,
                row_major(res@, self.max as nat) < volume(self.max as nat, D as nat),
                in_range(res@, self.max as nat),
                forall|j: int| 0 <= j < i ==> self.current@[j] == res@[j],
                forall|j: int| i <= j < D ==> #[trigger] res@[j] + 1 == self.max,
                forall|j: int| i <= j < D ==> #[trigger] self.current@[j] == 0,
            decreases i,
        {
            i -= 1;
            assert(self.current@[i as int] == res@[i as int] && res@[i as int] < self.max);
            if self.current[i] + 1 < self.max {
                self.current[i] = self.current[i] + 1;
                proof {
                    lemma_successor(res@, self.current@, i as int, self.max as nat);
                    assert forall|j: int| 0 <= j < D implies self.current@[j] < self.max by {
                        if j < i {
                            assert(self.current@[j] == res@[j]);
                        }
                    }
                }
                return Some(res);
            } else {
                self.current[i] = 0;
            }
        }
        self.done = true;
        proof {
            lemma_last_place(res@, self.max as nat);
        }
        Some(res)
    }
}

} // verus!
