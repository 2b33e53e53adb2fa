use crate::error::Error;
use crate::generation::internal::encoding::Encoding;
use crate::generation::internal::translatable::Translatable;
use vstd::prelude::*;

verus! {

/// Every step on `path` is one that `sym` can take.
pub open spec fn follows<Key, F: Fn(Key) -> Option<Key>>(sym: F, path: Seq<Key>) -> bool {
    forall|i: int| 0 <= i < path.len() - 1 ==> sym.ensures((#[trigger] path[i],), Some(path[i + 1]))
}

/// The values on `path` from position 1 up to, but without, position `end`
/// are not among `keys`.
pub open spec fn passes_outside<Key>(keys: Seq<Key>, path: Seq<Key>, end: int) -> bool {
    forall|i: int| 1 <= i < end ==> !keys.contains(#[trigger] path[i])
}

/// `link` is what following `sym` from `keys[a]` leads to: the index of the
/// first value among `keys` that the walk meets after leaving `keys[a]`, or
/// `None` when the walk ends before it meets one.
pub open spec fn link_holds<Key, F: Fn(Key) -> Option<Key>>(
    sym: F,
    keys: Seq<Key>,
    a: int,
    link: Option<usize>,
) -> bool {
    exists|path: Seq<Key>|
        {
            &&& path.len() >= 1
            &&& #[trigger] path[0] == keys[a]
            &&& follows(sym, path)
            &&& match link {
                Some(b) => {
                    &&& path.len() >= 2
                    &&& b < keys.len()
                    &&& path.last() == keys[b as int]
                    &&& passes_outside(keys, path, path.len() - 1)
                },
                None => {
                    &&& sym.ensures((path.last(),), None)
                    &&& passes_outside(keys, path, path.len() as int)
                },
            }
        }
}

/// `sym` can be called on every one of `keys` and on whatever it returns.
pub open spec fn callable<Key, F: Fn(Key) -> Option<Key>>(sym: F, keys: Seq<Key>) -> bool {
    &&& forall|k: Key| keys.contains(k) ==> sym.requires((k,))
    &&& forall|k: Key, t: Key|
        sym.requires((k,)) && #[trigger] sym.ensures((k,), Some(t)) ==> sym.requires((t,))
}

/// `rank` falls with every step that `sym` can take from a value not among
/// `keys`.
pub open spec fn falls<Key, F: Fn(Key) -> Option<Key>>(
    sym: F,
    keys: Seq<Key>,
    rank: spec_fn(Key) -> nat,
) -> bool {
    forall|k: Key, t: Key|
        !keys.contains(k) && sym.requires((k,)) && #[trigger] sym.ensures((k,), Some(t))
            ==> rank(t) < rank(k)
}

/// Outside of `keys` the walk along `sym` always comes to an end: some
/// measure falls with every step that starts at a value not among `keys`.
pub open spec fn settles<Key, F: Fn(Key) -> Option<Key>>(sym: F, keys: Seq<Key>) -> bool {
    exists|rank: spec_fn(Key) -> nat| #[trigger] falls(sym, keys, rank)
}

/// `links` holds, for every key, what following `sym` from it leads to.
pub open spec fn links_hold<Key, F: Fn(Key) -> Option<Key>>(
    sym: F,
    keys: Seq<Key>,
    links: Seq<Option<usize>>,
) -> bool {
    &&& links.len() == keys.len()
    &&& forall|a: int| 0 <= a < keys.len() ==> link_holds(sym, keys, a, #[trigger] links[a])
}

/// The indices below `upto` whose link is `target`, in rising order.
pub open spec fn members(links: Seq<Option<usize>>, target: Option<usize>, upto: nat) -> Seq<usize>
    decreases upto,
{
    if upto == 0 {
        Seq::empty()
    } else {
        let rest = members(links, target, (upto - 1) as nat);
        if links[upto - 1] == target {
            rest.push((upto - 1) as usize)
        } else {
            rest
        }
    }
}

/// Depth-first walk over the forest that `links` describes: the index on top
/// of `stack` is placed next and the indices linked to it go on the stack in
/// its stead, at most `fuel` times.
pub open spec fn unwind(
    links: Seq<Option<usize>>,
    stack: Seq<usize>,
    placed: Seq<usize>,
    fuel: nat,
) -> Seq<usize>
    decreases fuel,
{
    if fuel == 0 || stack.len() == 0 {
        placed
    } else {
        let k = stack.last();
        unwind(
            links,
            stack.drop_last() + members(links, Some(k), links.len()),
            placed.push(k),
            (fuel - 1) as nat,
        )
    }
}

/// The order in which the keys are given characters: every index without a
/// link starts a tree, an index comes before the indices linked to it, and no
/// tree is interrupted by another.
pub open spec fn placement_order(links: Seq<Option<usize>>) -> Seq<usize> {
    unwind(links, members(links, None, links.len()), Seq::empty(), links.len())
}

/// The keys in placement order and, for each place, the place of the key it
/// is linked to; `None` when the links run in a circle, so that the order
/// misses a key.
pub open spec fn arranged<Key>(keys: Seq<Key>, links: Seq<Option<usize>>) -> Option<
    (Seq<Key>, Seq<Option<usize>>),
> {
    let order = placement_order(links);
    if order.len() == keys.len() {
        Some(
            (
                Seq::new(keys.len(), |i: int| keys[order[i] as int]),
                Seq::new(
                    keys.len(),
                    |i: int|
                        match links[order[i] as int] {
                            Some(p) => Some(order.index_of(p) as usize),
                            None => None,
                        },
                ),
            ),
        )
    } else {
        None
    }
}

/// Distinct numbers below `n` are at most `n` many.
proof fn lemma_distinct_bounded(s: Seq<usize>, n: nat)
    requires
        s.no_duplicates(),
        forall|i: int| 0 <= i < s.len() ==> s[i] < n,
    ensures
        s.len() <= n,
    decreases n,
{
    if s.len() > 0 {
        if n == 0 {
            assert(s[0] < n);
        } else {
            let top = (n - 1) as usize;
            let t = if s.contains(top) {
                s.remove(s.index_of(top))
            } else {
                s
            };
            assert forall|i: int| 0 <= i < t.len() implies t[i] < n - 1 by {
                if s.contains(top) {
                    let at = s.index_of(top);
                    if i < at {
                        assert(t[i] == s[i]);
                    } else {
                        assert(t[i] == s[i + 1]);
                    }
                }
            }
            assert(t.no_duplicates()) by {
                if s.contains(top) {
                    let at = s.index_of(top);
                    assert forall|i: int, j: int|
                        0 <= i < t.len() && 0 <= j < t.len() && i != j implies t[i] != t[j] by {
                        let si = if i < at { i } else { i + 1 };
                        let sj = if j < at { j } else { j + 1 };
                        assert(t[i] == s[si] && t[j] == s[sj]);
                    }
                }
            }
            lemma_distinct_bounded(t, (n - 1) as nat);
        }
    }
}

/// As many distinct numbers below `n` as there are numbers below `n` hold
/// every one of them.
proof fn lemma_distinct_onto(s: Seq<usize>, n: nat, v: usize)
    requires
        s.no_duplicates(),
        forall|i: int| 0 <= i < s.len() ==> s[i] < n,
        s.len() == n,
        v < n,
    ensures
        s.contains(v),
{
    if !s.contains(v) {
        let t = Seq::new(
            s.len(),
            |i: int|
                if s[i] > v {
                    (s[i] - 1) as usize
                } else {
                    s[i]
                },
        );
        assert forall|i: int| 0 <= i < t.len() implies t[i] < n - 1 by {
            assert(s[i] != v);
        }
        assert forall|i: int, j: int| 0 <= i < t.len() && 0 <= j < t.len() && i != j implies t[i]
            != t[j] by {
            assert(s[i] != v && s[j] != v && s[i] != s[j]);
        }
        lemma_distinct_bounded(t, (n - 1) as nat);
    }
}

/// Members are below `upto`, carry the link asked for, and rise.
proof fn lemma_members(links: Seq<Option<usize>>, target: Option<usize>, upto: nat)
    requires
        upto <= links.len() <= usize::MAX,
    ensures
        forall|i: int|
            0 <= i < members(links, target, upto).len() ==> {
                let m = #[trigger] members(links, target, upto)[i];
                m < upto && links[m as int] == target
            },
        forall|i: int, j: int|
            0 <= i < j < members(links, target, upto).len() ==> members(links, target, upto)[i]
                < members(links, target, upto)[j],
        forall|a: int|
            0 <= a < upto && links[a] == target ==> members(links, target, upto).contains(
                a as usize,
            ),
    decreases upto,
{
    if upto > 0 {
        let rest = members(links, target, (upto - 1) as nat);
        lemma_members(links, target, (upto - 1) as nat);
        let all = members(links, target, upto);
        assert forall|i: int| 0 <= i < all.len() implies {
            let m = #[trigger] all[i];
            m < upto && links[m as int] == target
        } by {
            if i < rest.len() {
                assert(all[i] == rest[i]);
            }
        }
        assert forall|i: int, j: int| 0 <= i < j < all.len() implies all[i] < all[j] by {
            assert(all[i] == rest[i]);
            if j < rest.len() {
                assert(all[j] == rest[j]);
            }
        }
        assert forall|a: int| 0 <= a < upto && links[a] == target implies all.contains(
            a as usize,
        ) by {
            if a < upto - 1 {
                assert(rest.contains(a as usize));
                let i = rest.index_of(a as usize);
                assert(all[i] == a as usize);
            } else {
                assert(all[all.len() - 1] == a as usize);
            }
        }
    }
}

/// For each place in the order, the place of the key that must be given a
/// character before it, if there is such a key.
pub struct Symmetries<const N: usize>(pub [Option<usize>; N]);

impl<const N: usize> View for Symmetries<N> {
    type V = Seq<Option<usize>>;

    /// The link of every place.
    open spec fn view(&self) -> Seq<Option<usize>> {
        self.0@
    }
}

/// What holds of the walk while it lasts: all indices are in range, none is
/// met twice, whatever is placed or waiting has its link placed, and every
/// placed index comes after its link.
spec fn walking(links: Seq<Option<usize>>, placed: Seq<usize>, stack: Seq<usize>) -> bool {
    &&& forall|i: int| 0 <= i < placed.len() ==> #[trigger] placed[i] < links.len()
    &&& forall|i: int| 0 <= i < stack.len() ==> #[trigger] stack[i] < links.len()
    &&& (placed + stack).no_duplicates()
    &&& forall|i: int|
        0 <= i < stack.len() ==> (links[#[trigger] stack[i] as int] matches Some(p)
            ==> placed.contains(p))
    &&& forall|i: int|
        0 <= i < placed.len() ==> (links[#[trigger] placed[i] as int] matches Some(p) ==> exists|
            j: int,
        |
            0 <= j < i && placed[j] == p)
}

/// In a sequence without repetition a value is found where it stands.
proof fn lemma_index_of_unique(s: Seq<usize>, j: int)
    requires
        s.no_duplicates(),
        0 <= j < s.len(),
    ensures
        s.index_of(s[j]) == j,
{
    assert(s.contains(s[j]));
}

impl<const N: usize> Symmetries<N> {
    /// Every link points to an earlier place.
    pub open spec fn ordered(&self) -> bool {
        forall|i: int| 0 <= i < N ==> (#[trigger] self@[i] matches Some(p) ==> p < i)
    }

    /// Resolves the relation "`symmetries(k)` has to be given a character
    /// before `k`" on `keys`. The relation is followed through values that
    /// are not among `keys`, so each key is linked to the nearest one of
    /// `keys` that it leads to. Returns the keys in placement order and the
    /// links between the places.
    ///
    /// Fails with [`Error::InvalidInput`] when a key occurs twice and with
    /// [`Error::CycleDetected`] when the links run in a circle.
    pub fn new<Key: Translatable, F: Fn(Key) -> Option<Key>>(keys: [Key; N], symmetries: &F) -> (r:
        Result<(Encoding<Key, N>, Self), Error>)
        requires
            callable(*symmetries, keys@),
            settles(*symmetries, keys@),
        ensures
            !keys@.no_duplicates() <==> r matches Err(Error::InvalidInput),
            r matches Ok((e, _)) ==> forall|i: int| 0 <= i < N ==> keys@.contains(#[trigger] e@[i]),
            r matches Ok((e, _)) ==> forall|i: int| 0 <= i < N ==> e@.contains(#[trigger] keys@[i]),
            keys@.no_duplicates() ==> exists|links: Seq<Option<usize>>|
                {
                    &&& #[trigger] links_hold(*symmetries, keys@, links)
                    &&& match r {
                        Ok((e, s)) => e.wf() && s.ordered() && arranged(keys@, links) == Some(
                            (e@, s@),
                        ),
                        Err(err) => err == Error::CycleDetected && arranged(keys@, links)
                            is None,
                    }
                },
    {
        let input = match Encoding::new(keys) {
            Ok(input) => input,
            Err(err) => {
                return Err(err);
            },
        };
        let mut links: [Option<usize>; N] = [None; N];
        let mut a: usize = 0;
        while a < N
            invariant
                a <= N,
                input.wf(),
                input@ == keys@,
                callable(*symmetries, keys@),
                settles(*symmetries, keys@),
                forall|b: int| 0 <= b < a ==> link_holds(*symmetries, keys@, b, #[trigger] links@[b]),
                forall|b: int| 0 <= b < a ==> (#[trigger] links@[b] matches Some(c) ==> c < N),
            decreases N - a,
        {
            let link = nearest_present(&input, symmetries, a);
            links[a] = link;
            a += 1;
        }
        let r = Self::arrange(&input, &links);
        proof {
            assert(links_hold(*symmetries, keys@, links@));
        }
        r
    }

    /// Brings `keys` into placement order. `links[a]` is the index of the key
    /// that has to be given a character before `keys[a]`, if there is one.
    /// Fails with [`Error::CycleDetected`] when the links run in a circle.
    pub fn arrange<Key: Translatable>(keys: &Encoding<Key, N>, links: &[Option<usize>; N]) -> (r:
        Result<(Encoding<Key, N>, Self), Error>)
        requires
            keys.wf(),
            forall|a: int| 0 <= a < N ==> (#[trigger] links@[a] matches Some(b) ==> b < N),
        ensures
            match r {
                Ok((e, s)) => e.wf() && s.ordered() && arranged(keys@, links@) == Some((e@, s@)),
                Err(err) => err == Error::CycleDetected && arranged(keys@, links@) is None,
            },
            r matches Ok((e, _)) ==> forall|i: int| 0 <= i < N ==> keys@.contains(#[trigger] e@[i]),
            r matches Ok((e, _)) ==> forall|i: int| 0 <= i < N ==> e@.contains(#[trigger] keys@[i]),
    {
        let mut stack: Vec<usize> = Vec::new();
        let mut a: usize = 0;
        while a < N
            invariant
                a <= N,
                links@.len() == N,
                stack@ == members(links@, None, a as nat),
            decreases N - a,
        {
            if links[a].is_none() {
                stack.push(a);
            }
            a += 1;
        }
        let mut order: Vec<usize> = Vec::new();
        let mut place = [0usize; N];
        proof {
            lemma_members(links@, None, N as nat);
            assert(order@ + stack@ =~= stack@);
            assert(walking(links@, order@, stack@));
        }
        while stack.len() > 0
            invariant
                links@.len() == N,
                keys.wf(),
                forall|a: int| 0 <= a < N ==> (#[trigger] links@[a] matches Some(b) ==> b < N),
                walking(links@, order@, stack@),
                order@.len() <= N,
                unwind(links@, stack@, order@, (N - order@.len()) as nat) == placement_order(
                    links@,
                ),
                forall|i: int| 0 <= i < order@.len() ==> place@[#[trigger] order@[i] as int] == i,
            decreases N - order@.len(),
        {
            let ghost before = order@;
            let ghost waiting = stack@;
            proof {
                lemma_distinct_bounded(before + waiting, N as nat);
            }
            let k = stack.pop().unwrap();
            let ghost rest = stack@;
            assert(k == waiting[waiting.len() - 1]);
            assert(rest == waiting.drop_last());
            place[k] = order.len();
            order.push(k);
            proof {
                // `k` was waiting, so it had not been placed
                assert((before + waiting)[before.len() + waiting.len() - 1] == k);
                assert forall|i: int| 0 <= i < before.len() implies before[i] != k by {
                    assert((before + waiting)[i] == before[i]);
                }
                assert forall|i: int| 0 <= i < rest.len() implies rest[i] != k by {
                    assert((before + waiting)[before.len() + i] == rest[i]);
                }
                assert forall|i: int| 0 <= i < order@.len() implies place@[#[trigger] order@[i] as int]
                    == i by {
                    if i < before.len() {
                        assert(order@[i] == before[i]);
                    }
                }
                assert(walking(links@, order@, rest)) by {
                    assert forall|i: int, j: int|
                        0 <= i < (order@ + rest).len() && 0 <= j < (order@ + rest).len() && i
                            != j implies (order@ + rest)[i] != (order@ + rest)[j] by {
                        let f = |x: int|
                            if x < before.len() {
                                x
                            } else if x == before.len() {
                                before.len() + waiting.len() - 1
                            } else {
                                x - 1
                            };
                        assert((order@ + rest)[i] == (before + waiting)[f(i)]);
                        assert((order@ + rest)[j] == (before + waiting)[f(j)]);
                    }
                    assert forall|i: int| 0 <= i < rest.len() implies (links@[#[trigger] rest[i] as int] matches Some(
                        p,
                    ) ==> order@.contains(p)) by {
                        assert(rest[i] == waiting[i]);
                        if let Some(p) = links@[rest[i] as int] {
                            assert(before.contains(p));
                            let at = before.index_of(p);
                            assert(order@[at] == p);
                        }
                    }
                    assert forall|i: int| 0 <= i < order@.len() implies (links@[#[trigger] order@[i] as int] matches Some(
                        p,
                    ) ==> exists|j: int| 0 <= j < i && order@[j] == p) by {
                        if let Some(p) = links@[order@[i] as int] {
                            if i < before.len() {
                                assert(order@[i] == before[i]);
                                let j = choose|j: int| 0 <= j < i && before[j] == p;
                                assert(order@[j] == p);
                            } else {
                                assert(before.contains(p));
                                let j = before.index_of(p);
                                assert(order@[j] == p);
                            }
                        }
                    }
                }
            }
            let mut a: usize = 0;
            while a < N
                invariant
                    a <= N,
                    links@.len() == N,
                    k < N,
                    order@ == before.push(k),
                    walking(links@, order@, stack@),
                    stack@ == rest + members(links@, Some(k), a as nat),
                    forall|i: int| 0 <= i < before.len() ==> before[i] != k,
                    forall|i: int| 0 <= i < rest.len() ==> rest[i] != k,
                    walking(links@, before, waiting),
                    waiting.len() > 0,
                    rest == waiting.drop_last(),
                    k == waiting.last(),
                decreases N - a,
            {
                let linked = match links[a] {
                    Some(p) => p == k,
                    None => false,
                };
                if linked {
                    let ghost held = stack@;
                    stack.push(a);
                    proof {
                        lemma_members(links@, Some(k), a as nat);
                        let found = members(links@, Some(k), a as nat);
                        // `a` is new: had it been met, `k` would have been placed before
                        assert forall|i: int| 0 <= i < (before + waiting).len() implies (before
                            + waiting)[i] != a by {
                            if i < before.len() {
                                if before[i] == a {
                                    let j = choose|j: int| 0 <= j < i && before[j] == k;
                                }
                            } else {
                                if waiting[i - before.len()] == a {
                                    assert(before.contains(k));
                                    let j = before.index_of(k);
                                }
                            }
                        }
                        assert forall|i: int, j: int|
                            0 <= i < (order@ + stack@).len() && 0 <= j < (order@ + stack@).len()
                                && i != j implies (order@ + stack@)[i] != (order@ + stack@)[j] by {
                            let last = (order@ + stack@).len() - 1;
                            if i < last && j < last {
                                assert((order@ + stack@)[i] == (order@ + held)[i]);
                                assert((order@ + stack@)[j] == (order@ + held)[j]);
                            } else {
                                let other = if i < last { i } else { j };
                                assert((order@ + stack@)[last] == a);
                                assert((order@ + stack@)[other] == (order@ + held)[other]);
                                if other < before.len() {
                                    assert((order@ + held)[other] == (before + waiting)[other]);
                                } else if other == before.len() {
                                    assert((order@ + held)[other] == k);
                                    assert((before + waiting)[before.len() + waiting.len() - 1] == k);
                                } else if other < order@.len() + rest.len() {
                                    assert((order@ + held)[other] == (before + waiting)[other - 1]);
                                } else {
                                    assert((order@ + held)[other] == found[other - order@.len()
                                        - rest.len()]);
                                }
                            }
                        }
                        assert forall|i: int| 0 <= i < stack@.len() implies (links@[#[trigger] stack@[i] as int] matches Some(
                            p,
                        ) ==> order@.contains(p)) by {
                            if i < held.len() {
                                assert(stack@[i] == held[i]);
                            } else {
                                assert(order@[before.len() as int] == k);
                            }
                        }
                        assert forall|i: int| 0 <= i < stack@.len() implies #[trigger] stack@[i]
                            < links@.len() by {
                            if i < held.len() {
                                assert(stack@[i] == held[i]);
                            }
                        }
                        assert(stack@ =~= rest + members(links@, Some(k), (a + 1) as nat));
                    }
                }
                a += 1;
            }
            assert(waiting.drop_last() + members(links@, Some(k), links@.len()) == stack@);
        }
        proof {
            assert(placement_order(links@) == order@);
            assert(order@ + stack@ =~= order@);
            lemma_distinct_bounded(order@, N as nat);
        }
        if order.len() != N {
            return Err(Error::CycleDetected);
        }
        let encoding = keys.permuted(&order);
        proof {
            assert forall|a: int| 0 <= a < N implies encoding@.contains(#[trigger] keys@[a]) by {
                lemma_distinct_onto(order@, N as nat, a as usize);
                let at = order@.index_of(a as usize);
                assert(encoding@[at] == keys@[a]);
            }
        }
        let mut inner: [Option<usize>; N] = [None; N];
        let mut i: usize = 0;
        while i < N
            invariant
                i <= N,
                links@.len() == N,
                order@.len() == N,
                order@.no_duplicates(),
                walking(links@, order@, stack@),
                forall|j: int| 0 <= j < N ==> place@[#[trigger] order@[j] as int] == j,
                forall|j: int|
                    0 <= j < i ==> #[trigger] inner@[j] == match links@[order@[j] as int] {
                        Some(p) => Some(order@.index_of(p) as usize),
                        None => None,
                    },
                forall|j: int| 0 <= j < i ==> (#[trigger] inner@[j] matches Some(p) ==> p < j),
            decreases N - i,
        {
            inner[i] = match links[order[i]] {
                Some(p) => {
                    proof {
                        let j = choose|j: int| 0 <= j < i && order@[j] == p;
                        lemma_index_of_unique(order@, j);
                    }
                    Some(place[p])
                },
                None => None,
            };
            i += 1;
        }
        let symmetries = Symmetries(inner);
        proof {
            let (e, s) = arranged(keys@, links@)->0;
            assert(e =~= encoding@);
            assert(s =~= symmetries@);
        }
        Ok((encoding, symmetries))
    }
}

/// Follows `sym` from `keys[a]` until it meets one of `keys` or ends.
fn nearest_present<Key: Translatable, F: Fn(Key) -> Option<Key>, const N: usize>(
    keys: &Encoding<Key, N>,
    sym: &F,
    a: usize,
) -> (r: Option<usize>)
    requires
        keys.wf(),
        a < N,
        callable(*sym, keys@),
        settles(*sym, keys@),
    ensures
        link_holds(*sym, keys@, a as int, r),
        r matches Some(b) ==> b < N,
{
    let ghost rank = choose|rank: spec_fn(Key) -> nat| #[trigger] falls(*sym, keys@, rank);
    let mut target = keys.decode(a);
    let ghost mut path = seq![target];
    assert(keys@.contains(target));
    loop
        invariant
            keys.wf(),
            callable(*sym, keys@),
            sym.requires((target,)),
            falls(*sym, keys@, rank),
            path.len() >= 1,
            path[0] == keys@[a as int],
            path.last() == target,
            follows(*sym, path),
            passes_outside(keys@, path, path.len() as int),
        decreases (if path.len() == 1 { 1int } else { 0int }), rank(target),
    {
        match sym(target) {
            None => {
                return None;
            },
            Some(t) => {
                let ghost longer = path.push(t);
                proof {
                    assert forall|i: int| 0 <= i < longer.len() - 1 implies sym.ensures(
                        (#[trigger] longer[i],),
                        Some(longer[i + 1]),
                    ) by {
                        if i < path.len() - 1 {
                            assert(longer[i] == path[i]);
                            assert(sym.ensures((path[i],), Some(path[i + 1])));
                        }
                    }
                    assert forall|i: int| 1 <= i < longer.len() - 1 implies !keys@.contains(
                        #[trigger] longer[i],
                    ) by {
                        assert(longer[i] == path[i]);
                    }
                    if path.len() > 1 {
                        assert(!keys@.contains(path[path.len() - 1]));
                    }
                }
                match keys.encode(&t) {
                    Some(b) => {
                        assert(longer[0] == keys@[a as int]);
                        return Some(b);
                    },
                    None => {
                        proof {
                            assert forall|i: int| 1 <= i < longer.len() implies !keys@.contains(
                                #[trigger] longer[i],
                            ) by {
                                if i < longer.len() - 1 {
                                    assert(longer[i] == path[i]);
                                }
                            }
                            path = longer;
                        }
                        target = t;
                    },
                }
            },
        }
    }
}

} // verus!
