use crate::generation::internal::symmetries::Symmetries;
use vstd::prelude::*;

verus! {

/// What a partial layout is: `keys[c]` is the key of character `c` for every
/// `c < len`, and `keys[len..]` are the keys that are still free.
pub struct Placement {
    pub keys: Seq<usize>,
    pub len: nat,
}

impl Placement {
    /// `keys` holds every key index below its length exactly once, `len`
    /// characters at most have a key, and the free keys are in rising order.
    pub open spec fn wf(self) -> bool {
        &&& self.len <= self.keys.len()
        &&& self.keys.no_duplicates()
        &&& forall|i: int| 0 <= i < self.keys.len() ==> #[trigger] self.keys[i] < self.keys.len()
        &&& forall|v: usize| v < self.keys.len() ==> self.keys.contains(v)
        &&& forall|i: int, j: int|
            self.len <= i < j < self.keys.len() ==> self.keys[i] < self.keys[j]
    }

    /// `keys` holds key indices below its length, and `len` characters at
    /// most have a key.
    pub open spec fn bounded(self) -> bool {
        &&& self.len <= self.keys.len()
        &&& forall|i: int| 0 <= i < self.keys.len() ==> #[trigger] self.keys[i] < self.keys.len()
    }

    /// No key has a character unless the key it is linked to has an
    /// earlier one.
    pub open spec fn respects(self, symmetries: Seq<Option<usize>>) -> bool {
        forall|c: int|
            0 <= c < self.len ==> (symmetries[#[trigger] self.keys[c] as int] matches Some(p)
                ==> exists|b: int| 0 <= b < c && self.keys[b] == p)
    }

    /// The placement in which the characters `a` and `b` have changed
    /// keys.
    pub open spec fn swapped(self, a: int, b: int) -> Placement {
        Placement { keys: self.keys.update(a, self.keys[b]).update(b, self.keys[a]), len: self.len }
    }

    /// `self` places the first characters as `layout` does.
    pub open spec fn begins(self, layout: Placement) -> bool {
        &&& self.len <= layout.len
        &&& self.keys.len() == layout.keys.len()
        &&& forall|c: int| 0 <= c < self.len ==> self.keys[c] == layout.keys[c]
    }

    /// The placement with no character placed.
    pub open spec fn empty(n: nat) -> Placement {
        Placement { keys: Seq::new(n, |i: int| i as usize), len: 0 }
    }

    /// Whether the free key at position `i` may take the next character: its
    /// link, if it has one, is not among the free keys before it.
    pub open spec fn is_unique(self, symmetries: Seq<Option<usize>>, i: int) -> bool {
        match symmetries[self.keys[i] as int] {
            Some(n) => !self.keys.subrange(self.len as int, i).contains(n),
            None => true,
        }
    }

    /// The next character on the free key at position `i`: that key moves to
    /// position `len` and the free keys before it move up by one.
    pub open spec fn child(self, i: int) -> Placement {
        Placement {
            keys: Seq::new(
                self.keys.len(),
                |x: int|
                    if x < self.len || x > i {
                        self.keys[x]
                    } else if x == self.len {
                        self.keys[i]
                    } else {
                        self.keys[x - 1]
                    },
            ),
            len: self.len + 1,
        }
    }

    /// The children on the free keys from position `i` on, in order.
    pub open spec fn children_from(self, symmetries: Seq<Option<usize>>, i: int) -> Seq<Placement>
        decreases self.keys.len() - i,
    {
        if i >= self.keys.len() {
            Seq::empty()
        } else if self.is_unique(symmetries, i) {
            seq![self.child(i)] + self.children_from(symmetries, i + 1)
        } else {
            self.children_from(symmetries, i + 1)
        }
    }

    /// All children, in the order in which they are tried.
    pub open spec fn children(self, symmetries: Seq<Option<usize>>) -> Seq<Placement> {
        self.children_from(symmetries, self.len as int)
    }

    /// Of two placements that differ only in that a key and the key it is
    /// linked to have changed characters, at most one keeps to the links:
    /// the one in which the key that is linked to has the earlier character.
    pub proof fn lemma_swap_breaks_links(self, symmetries: Seq<Option<usize>>, a: int, b: int)
        requires
            self.keys.no_duplicates(),
            self.len <= self.keys.len(),
            0 <= a < b < self.len,
            symmetries[self.keys[b] as int] == Some(self.keys[a]),
            self.respects(symmetries),
        ensures
            !self.swapped(a, b).respects(symmetries),
    {
        let other = self.swapped(a, b);
        if other.respects(symmetries) {
            assert(other.keys[a] == self.keys[b]);
            let at = choose|at: int| 0 <= at < a && other.keys[at] == self.keys[a];
            assert(other.keys[at] == self.keys[at]);
        }
    }

    /// A child holds the same keys as its parent, places one more
    /// character, and leaves the placed characters where they were.
    pub proof fn lemma_child(self, i: int)
        requires
            self.wf(),
            self.len <= i < self.keys.len(),
        ensures
            self.child(i).wf(),
            self.child(i).keys.len() == self.keys.len(),
            self.child(i).len == self.len + 1,
            forall|c: int| 0 <= c < self.len ==> self.child(i).keys[c] == self.keys[c],
            self.child(i).keys[self.len as int] == self.keys[i],
    {
        let c = self.child(i);
        let back = |x: int|
            if x < self.len || x > i {
                x
            } else if x == self.len {
                i
            } else {
                x - 1
            };
        assert forall|x: int, y: int|
            0 <= x < c.keys.len() && 0 <= y < c.keys.len() && x != y implies c.keys[x]
            != c.keys[y] by {
            assert(c.keys[x] == self.keys[back(x)]);
            assert(c.keys[y] == self.keys[back(y)]);
        }
        assert forall|x: int| 0 <= x < c.keys.len() implies #[trigger] c.keys[x]
            < c.keys.len() by {
            assert(c.keys[x] == self.keys[back(x)]);
        }
        assert forall|v: usize| v < c.keys.len() implies c.keys.contains(v) by {
            assert(self.keys.contains(v));
            let at = self.keys.index_of(v);
            let to = if at < self.len || at > i {
                at
            } else if at == i {
                self.len as int
            } else {
                at + 1
            };
            assert(c.keys[to] == v);
        }
        assert forall|x: int, y: int| c.len <= x < y < c.keys.len() implies c.keys[x]
            < c.keys[y] by {
            assert(c.keys[x] == self.keys[back(x)]);
            assert(c.keys[y] == self.keys[back(y)]);
        }
    }

    /// A child on a free key that may take the next character keeps to the
    /// links if its parent does: the links point to lower keys, and the free
    /// keys are in rising order, so a link that is still free would stand
    /// before the key.
    pub proof fn lemma_child_respects(self, symmetries: Seq<Option<usize>>, i: int)
        requires
            self.wf(),
            self.len <= i < self.keys.len(),
            symmetries.len() == self.keys.len(),
            forall|k: int| 0 <= k < symmetries.len() ==> (#[trigger] symmetries[k] matches Some(p)
                ==> p < k),
            self.respects(symmetries),
            self.is_unique(symmetries, i),
        ensures
            self.child(i).respects(symmetries),
    {
        let c = self.child(i);
        self.lemma_child(i);
        assert forall|x: int| 0 <= x < c.len implies (symmetries[#[trigger] c.keys[x] as int] matches Some(
            p,
        ) ==> exists|b: int| 0 <= b < x && c.keys[b] == p) by {
            if let Some(p) = symmetries[c.keys[x] as int] {
                if x < self.len {
                    assert(c.keys[x] == self.keys[x]);
                    let b = choose|b: int| 0 <= b < x && self.keys[b] == p;
                    assert(c.keys[b] == p);
                } else {
                    let k = self.keys[i];
                    assert(p < k);
                    assert(self.keys.contains(p));
                    let at = self.keys.index_of(p);
                    if at >= self.len {
                        if at < i {
                            let free = self.keys.subrange(self.len as int, i);
                            assert(free[at - self.len] == p);
                            assert(free.contains(p));
                        } else if at > i {
                            assert(self.keys[i] < self.keys[at]);
                        }
                        assert(false);
                    }
                    assert(c.keys[at] == p);
                }
            }
        }
    }

    /// A child on a free key that may take the next character is among the
    /// children.
    pub proof fn lemma_child_among(self, symmetries: Seq<Option<usize>>, i: int, at: int)
        requires
            0 <= i <= at < self.keys.len(),
            self.is_unique(symmetries, at),
        ensures
            self.children_from(symmetries, i).contains(self.child(at)),
        decreases self.keys.len() - i,
    {
        let all = self.children_from(symmetries, i);
        if i < at {
            self.lemma_child_among(symmetries, i + 1, at);
            let rest = self.children_from(symmetries, i + 1);
            let k = rest.index_of(self.child(at));
            if self.is_unique(symmetries, i) {
                assert(all[k + 1] == rest[k]);
            }
        } else {
            assert(all[0] == self.child(at));
        }
    }

    /// A layout that keeps to the links and continues `self` is, after
    /// one character more, a child of `self`: the key of that character is
    /// free, and its link has a character already.
    pub proof fn lemma_continued(self, symmetries: Seq<Option<usize>>, layout: Placement) -> (at:
        int)
        requires
            self.wf(),
            layout.wf(),
            self.begins(layout),
            self.len < layout.len,
            layout.respects(symmetries),
        ensures
            self.len <= at < self.keys.len(),
            self.keys[at] == layout.keys[self.len as int],
            self.is_unique(symmetries, at),
            self.child(at).begins(layout),
            self.children(symmetries).contains(self.child(at)),
    {
        let next = layout.keys[self.len as int];
        assert(next < self.keys.len());
        assert(self.keys.contains(next));
        let at = self.keys.index_of(next);
        if at < self.len {
            assert(layout.keys[at] == self.keys[at]);
        }
        self.lemma_child(at);
        if let Some(n) = symmetries[self.keys[at] as int] {
            let free = self.keys.subrange(self.len as int, at);
            if free.contains(n) {
                let f = free.index_of(n);
                assert(self.keys[self.len + f] == n);
                let b = choose|b: int| 0 <= b < self.len && layout.keys[b] == n;
                assert(self.keys[b] == n);
            }
        }
        self.lemma_child_among(symmetries, self.len as int, at);
        at
    }

    /// Every child is well formed and places one character more.
    pub proof fn lemma_children_from(self, symmetries: Seq<Option<usize>>, i: int)
        requires
            self.wf(),
            self.len <= i,
        ensures
            i <= self.keys.len() ==> self.children_from(symmetries, i).len() <= self.keys.len()
                - i,
            i >= self.keys.len() ==> self.children_from(symmetries, i).len() == 0,
            forall|k: int|
                0 <= k < self.children_from(symmetries, i).len() ==> {
                    let c = #[trigger] self.children_from(symmetries, i)[k];
                    &&& c.wf()
                    &&& c.keys.len() == self.keys.len()
                    &&& c.len == self.len + 1
                    &&& forall|x: int| 0 <= x < self.len ==> c.keys[x] == self.keys[x]
                    &&& exists|p: int|
                        i <= p < self.keys.len() && self.is_unique(symmetries, p) && c
                            == #[trigger] self.child(p)
                },
        decreases self.keys.len() - i,
    {
        if i < self.keys.len() {
            self.lemma_children_from(symmetries, i + 1);
            self.lemma_child(i);
            let all = self.children_from(symmetries, i);
            let rest = self.children_from(symmetries, i + 1);
            assert forall|k: int| 0 <= k < all.len() implies {
                let c = #[trigger] all[k];
                &&& c.wf()
                &&& c.keys.len() == self.keys.len()
                &&& c.len == self.len + 1
                &&& forall|x: int| 0 <= x < self.len ==> c.keys[x] == self.keys[x]
                &&& exists|p: int|
                    i <= p < self.keys.len() && self.is_unique(symmetries, p) && c
                        == #[trigger] self.child(p)
            } by {
                if self.is_unique(symmetries, i) {
                    if k == 0 {
                        assert(all[k] == self.child(i));
                    } else {
                        assert(all[k] == rest[k - 1]);
                        let p = choose|p: int|
                            i + 1 <= p < self.keys.len() && self.is_unique(symmetries, p)
                                && rest[k - 1] == #[trigger] self.child(p);
                        assert(all[k] == self.child(p));
                    }
                } else {
                    assert(all[k] == rest[k]);
                    let p = choose|p: int|
                        i + 1 <= p < self.keys.len() && self.is_unique(symmetries, p) && rest[k]
                            == #[trigger] self.child(p);
                    assert(all[k] == self.child(p));
                }
            }
        }
    }
}

/// A prefix of an assignment of characters to keys: characters `0..len` have
/// keys, the other keys are free. Keys and characters are indices.
#[derive(Clone, Copy, Debug, PartialEq, Eq)]
pub struct PartialLayout<const N: usize> {
    // keys[..len]: the keys of the characters placed so far
    // keys[len..]: the free keys
    keys: [usize; N],
    len: usize,
}

impl<const N: usize> View for PartialLayout<N> {
    type V = Placement;

    /// The keys and the number of characters placed.
    closed spec fn view(&self) -> Placement {
        Placement { keys: self.keys@, len: self.len as nat }
    }
}

impl<const N: usize> PartialLayout<N> {
    /// The layout holds every key exactly once.
    pub open spec fn wf(&self) -> bool {
        &&& self@.keys.len() == N
        &&& self@.wf()
    }

    /// The layout with no character placed; the free keys are in rising
    /// order.
    pub fn new() -> (r: Self)
        ensures
            r.wf(),
            r@ == Placement::empty(N as nat),
    {
        let mut keys = [0usize; N];
        let mut i: usize = 0;
        while i < N
            invariant
                i <= N,
                forall|j: int| 0 <= j < i ==> keys@[j] == j,
            decreases N - i,
        {
            keys[i] = i;
            i += 1;
        }
        let r = Self { keys, len: 0 };
        proof {
            assert(r@.keys =~= Placement::empty(N as nat).keys);
            assert forall|v: usize| v < r@.keys.len() implies r@.keys.contains(v) by {
                assert(r@.keys[v as int] == v);
            }
        }
        r
    }

    /// The keys of all characters when every character has one; else the
    /// layout is handed back.
    pub fn try_complete(self) -> (r: Result<[usize; N], Self>)
        ensures
            match r {
                Ok(keys) => self@.len >= N && keys@ == self@.keys,
                Err(same) => self@.len < N && same == self,
            },
    {
        if self.len < N {
            Err(self)
        } else {
            Ok(self.keys)
        }
    }

    /// The number of characters that have a key.
    pub fn len(&self) -> (r: usize)
        ensures
            r == self@.len,
    {
        self.len
    }

    /// The key of character `index`.
    pub fn get(&self, index: usize) -> (r: usize)
        requires
            self.wf(),
            index < self@.len,
        ensures
            r == self@.keys[index as int],
            r < N,
    {
        self.keys[index]
    }

    /// The keys of the characters placed so far, in the order of the
    /// characters.
    pub fn as_ref(&self) -> (r: &[usize])
        requires
            self.wf(),
        ensures
            r@ == self@.keys.subrange(0, self@.len as int),
    {
        vstd::slice::slice_subrange(self.keys.as_slice(), 0, self.len)
    }

    /// Walks through the layouts that place one character more.
    pub fn children<'a>(&'a self, symmetries: &'a Symmetries<N>) -> (r: Children<'a, N>)
        requires
            self.wf(),
        ensures
            r.wf(),
            r.parent() == *self,
            r.symmetries() == *symmetries,
            r.remaining() == self@.children(symmetries@),
    {
        Children::new(self, symmetries)
    }
}

/// The walk through the children of a layout: one child for every free key
/// whose link is not a free key before it.
pub struct Children<'a, const N: usize> {
    parent: &'a PartialLayout<N>,
    symmetries: &'a Symmetries<N>,
    i: usize,
}

impl<'a, const N: usize> Children<'a, N> {
    /// The layout whose children these are.
    pub closed spec fn parent(&self) -> PartialLayout<N> {
        *self.parent
    }

    /// The links between the keys.
    pub closed spec fn symmetries(&self) -> Symmetries<N> {
        *self.symmetries
    }

    /// The position of the free key that is tried next.
    pub closed spec fn cursor(&self) -> nat {
        self.i as nat
    }

    /// The children that are still to come.
    pub open spec fn remaining(&self) -> Seq<Placement> {
        self.parent()@.children_from(self.symmetries()@, self.cursor() as int)
    }

    /// The parent is well formed and the cursor is among its free keys or
    /// behind them.
    pub open spec fn wf(&self) -> bool {
        &&& self.parent().wf()
        &&& self.parent()@.len <= self.cursor() <= N
    }

    /// Starts at the first free key of `parent`.
    pub fn new(parent: &'a PartialLayout<N>, symmetries: &'a Symmetries<N>) -> (r: Self)
        requires
            parent.wf(),
        ensures
            r.wf(),
            r.parent() == *parent,
            r.symmetries() == *symmetries,
            r.cursor() == parent@.len,
    {
        Self { parent, symmetries, i: parent.len }
    }

    /// Whether the free key under the cursor may take the next character.
    pub fn is_unique(&self) -> (r: bool)
        requires
            self.wf(),
            self.cursor() < N,
        ensures
            r == self.parent()@.is_unique(self.symmetries()@, self.cursor() as int),
    {
        match self.symmetries.0[self.parent.keys[self.i]] {
            Some(n) => {
                let mut j: usize = self.parent.len;
                while j < self.i
                    invariant
                        self.parent.len <= j <= self.i < N,
                        self.symmetries.0@[self.parent.keys@[self.i as int] as int] == Some(n),
                        forall|x: int| self.parent.len <= x < j ==> self.parent.keys@[x] != n,
                    decreases self.i - j,
                {
                    if self.parent.keys[j] == n {
                        proof {
                            let free = self.parent.keys@.subrange(
                                self.parent.len as int,
                                self.i as int,
                            );
                            assert(free[j - self.parent.len] == n);
                            assert(free.contains(n));
                        }
                        return false;
                    }
                    j += 1;
                }
                true
            },
            None => true,
        }
    }

    /// The next child, or `None` when the free keys are used up.
    pub fn next(&mut self) -> (r: Option<PartialLayout<N>>)
        requires
            old(self).wf(),
        ensures
            final(self).wf(),
            final(self).parent() == old(self).parent(),
            final(self).symmetries() == old(self).symmetries(),
            match r {
                Some(child) => {
                    &&& child.wf()
                    &&& old(self).remaining().len() > 0
                    &&& child@ == old(self).remaining()[0]
                    &&& final(self).remaining() == old(self).remaining().drop_first()
                },
                None => old(self).remaining().len() == 0 && final(self).remaining().len() == 0,
            },
    {
        while self.i < N
            invariant
                self.wf(),
                self.parent() == old(self).parent(),
                self.symmetries() == old(self).symmetries(),
                self.remaining() == old(self).remaining(),
            decreases N - self.i,
        {
            if self.is_unique() {
                let mut child = *self.parent;
                let at = self.i;
                let moved = child.keys[at];
                let mut x: usize = at;
                while x > child.len
                    invariant
                        child.len == self.parent.len,
                        child.len <= x <= at < N,
                        forall|y: int| 0 <= y <= x ==> child.keys@[y] == self.parent.keys@[y],
                        forall|y: int| at < y < N ==> child.keys@[y] == self.parent.keys@[y],
                        forall|y: int| x < y <= at ==> child.keys@[y] == self.parent.keys@[y - 1],
                    decreases x,
                {
                    child.keys[x] = child.keys[x - 1];
                    x -= 1;
                }
                child.keys[child.len] = moved;
                child.len += 1;
                self.i += 1;
                proof {
                    let parent = old(self).parent()@;
                    parent.lemma_child(at as int);
                    assert(child@.keys =~= parent.child(at as int).keys);
                    assert(old(self).remaining() =~= seq![parent.child(at as int)]
                        + self.remaining());
                    assert(old(self).remaining().drop_first() =~= self.remaining());
                }
                return Some(child);
            } else {
                self.i += 1;
            }
        }
        None
    }
}

} // verus!
