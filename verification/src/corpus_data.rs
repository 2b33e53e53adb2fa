use crate::error::Error;
use crate::ngrams::{bumped, count_of, NGrams};
use vstd::prelude::*;

verus! {

/// The entries of a map of counts, one by one.
pub type Listing = Seq<(Seq<char>, nat)>;

/// At how many of the first `upto` positions of `text` the n-gram `w`
/// stands.
pub open spec fn occurrences(text: Seq<char>, w: Seq<char>, upto: nat) -> nat
    decreases upto,
{
    if upto == 0 {
        0
    } else {
        occurrences(text, w, (upto - 1) as nat) + if text.subrange(upto - 1, upto - 1 + w.len())
            == w {
            1nat
        } else {
            0nat
        }
    }
}

/// The number of positions at which an n-gram of `n` characters can stand
/// in `text`.
pub open spec fn starts(text: Seq<char>, n: nat) -> nat {
    if text.len() >= n {
        (text.len() - n + 1) as nat
    } else {
        0
    }
}

/// `base` with the n-grams of `n` characters counted that stand at the first
/// `upto` positions of `text`.
pub open spec fn tallied_upto(base: Map<Seq<char>, nat>, text: Seq<char>, n: nat, upto: nat) -> Map<
    Seq<char>,
    nat,
> {
    Map::new(
        |w: Seq<char>| base.dom().contains(w) || (w.len() == n && occurrences(text, w, upto) > 0),
        |w: Seq<char>|
            count_of(base, w) + if w.len() == n {
                occurrences(text, w, upto)
            } else {
                0
            },
    )
}

/// `base` with all n-grams of `n` characters in `text` counted.
pub open spec fn tallied(base: Map<Seq<char>, nat>, text: Seq<char>, n: nat) -> Map<
    Seq<char>,
    nat,
> {
    tallied_upto(base, text, n, starts(text, n))
}

/// The sum of two maps of counts.
pub open spec fn merged(a: Map<Seq<char>, nat>, b: Map<Seq<char>, nat>) -> Map<Seq<char>, nat> {
    Map::new(
        |w: Seq<char>| a.dom().contains(w) || b.dom().contains(w),
        |w: Seq<char>| count_of(a, w) + count_of(b, w),
    )
}

/// `listing` lists `map`: every entry once, with its count.
pub open spec fn lists(listing: Listing, map: Map<Seq<char>, nat>) -> bool {
    &&& forall|i: int|
        0 <= i < listing.len() ==> map.dom().contains((#[trigger] listing[i]).0) && map[listing[i].0]
            == listing[i].1
    &&& forall|i: int, j: int| 0 <= i < j < listing.len() ==> listing[i].0 != listing[j].0
    &&& forall|k: Seq<char>|
        map.dom().contains(k) ==> exists|i: int|
            0 <= i < listing.len() && (#[trigger] listing[i]).0 == k
}

/// How often `w` is counted in the first `upto` entries of `listing`.
pub open spec fn listed(listing: Listing, w: Seq<char>, upto: nat) -> nat
    decreases upto,
{
    if upto == 0 {
        0
    } else {
        listed(listing, w, (upto - 1) as nat) + if listing[upto - 1].0 == w {
            listing[upto - 1].1
        } else {
            0
        }
    }
}

/// Whether `w` has one of the first `upto` entries of `listing`.
pub open spec fn among(listing: Listing, w: Seq<char>, upto: nat) -> bool {
    exists|i: int| 0 <= i < upto && (#[trigger] listing[i]).0 == w
}

/// `base` with the first `upto` entries of `listing` added.
pub open spec fn merged_upto(base: Map<Seq<char>, nat>, listing: Listing, upto: nat) -> Map<
    Seq<char>,
    nat,
> {
    Map::new(
        |w: Seq<char>| base.dom().contains(w) || among(listing, w, upto),
        |w: Seq<char>| count_of(base, w) + listed(listing, w, upto),
    )
}

/// The n-grams of `k` characters with which the first `upto` n-grams in
/// `listing` begin, each counted as often as the n-gram.
pub open spec fn project_heads(listing: Listing, k: nat, upto: nat) -> Map<Seq<char>, nat>
    decreases upto,
{
    if upto == 0 {
        Map::empty()
    } else {
        bumped(
            project_heads(listing, k, (upto - 1) as nat),
            listing[upto - 1].0.subrange(0, k as int),
            listing[upto - 1].1,
        )
    }
}

/// `base` with `by` more occurrences of each n-gram of `k` characters that
/// stands in `t` at a position from 1 up to, but without, `upto`.
pub open spec fn project_inner(
    base: Map<Seq<char>, nat>,
    t: Seq<char>,
    by: nat,
    k: nat,
    upto: nat,
) -> Map<Seq<char>, nat>
    decreases upto,
{
    if upto <= 1 {
        base
    } else {
        bumped(
            project_inner(base, t, by, k, (upto - 1) as nat),
            t.subrange(upto - 1, upto - 1 + k),
            by,
        )
    }
}

/// `base` with the inner n-grams of the first `upto` tails in `listing`
/// counted, each as often as the tail.
pub open spec fn project_tails(
    base: Map<Seq<char>, nat>,
    listing: Listing,
    k: nat,
    inner: nat,
    upto: nat,
) -> Map<Seq<char>, nat>
    decreases upto,
{
    if upto == 0 {
        base
    } else {
        project_inner(
            project_tails(base, listing, k, inner, (upto - 1) as nat),
            listing[upto - 1].0,
            listing[upto - 1].1,
            k,
            inner,
        )
    }
}

/// The counts of the n-grams of `k` characters that follow from counts of
/// n-grams of `n` characters: every n-gram adds its count to the n-gram it
/// begins with, and every tail adds its count to the n-grams that stand in
/// it at the positions from 1 up to, but without, `n - k`.
pub open spec fn projected(ngrams: Listing, tails: Listing, n: nat, k: nat) -> Map<Seq<char>, nat> {
    project_tails(
        project_heads(ngrams, k, ngrams.len()),
        tails,
        k,
        (n - k) as nat,
        tails.len(),
    )
}

/// Every count fits in 64 bits.
pub open spec fn fits(map: Map<Seq<char>, nat>) -> bool {
    forall|w: Seq<char>| count_of(map, w) <= u64::MAX
}

/// `w` stands at no more of the first positions than at all of them.
pub proof fn lemma_occurrences_grow(text: Seq<char>, w: Seq<char>, a: nat, b: nat)
    requires
        a <= b,
    ensures
        occurrences(text, w, a) <= occurrences(text, w, b),
    decreases b,
{
    if a < b {
        lemma_occurrences_grow(text, w, a, (b - 1) as nat);
    }
}

/// Counting the n-gram at position `upto` leads from the count of the first
/// `upto` positions to that of the first `upto + 1`.
pub proof fn lemma_tallied_step(base: Map<Seq<char>, nat>, text: Seq<char>, n: nat, upto: nat)
    requires
        upto + n <= text.len(),
    ensures
        bumped(tallied_upto(base, text, n, upto), text.subrange(upto as int, (upto + n) as int), 1)
            == tallied_upto(base, text, n, upto + 1),
{
    let before = tallied_upto(base, text, n, upto);
    let window = text.subrange(upto as int, (upto + n) as int);
    let after = tallied_upto(base, text, n, upto + 1);
    assert(bumped(before, window, 1) =~= after);
}

/// How often `w` is counted in a listing is its count in the map that is
/// listed.
pub proof fn lemma_listed(listing: Listing, map: Map<Seq<char>, nat>, w: Seq<char>, upto: nat)
    requires
        lists(listing, map),
        upto <= listing.len(),
    ensures
        listed(listing, w, upto) == if among(listing, w, upto) {
            map[w]
        } else {
            0
        },
        upto == listing.len() ==> listed(listing, w, upto) == count_of(map, w),
    decreases upto,
{
    if upto > 0 {
        lemma_listed(listing, map, w, (upto - 1) as nat);
        if among(listing, w, (upto - 1) as nat) {
            let i = choose|i: int| 0 <= i < upto - 1 && (#[trigger] listing[i]).0 == w;
            assert(listing[i].0 != listing[upto - 1].0);
            assert(among(listing, w, upto));
        } else if listing[upto - 1].0 == w {
            assert(among(listing, w, upto));
        } else {
            if among(listing, w, upto) {
                let i = choose|i: int| 0 <= i < upto && (#[trigger] listing[i]).0 == w;
                assert(i < upto - 1);
                assert(among(listing, w, (upto - 1) as nat));
            }
        }
    }
    if upto == listing.len() {
        if map.dom().contains(w) {
            let i = choose|i: int| 0 <= i < listing.len() && (#[trigger] listing[i]).0 == w;
            assert(among(listing, w, upto));
        } else if among(listing, w, upto) {
            let i = choose|i: int| 0 <= i < upto && (#[trigger] listing[i]).0 == w;
            assert(map.dom().contains(listing[i].0));
        }
    }
}

/// Adding entry `upto` of a listing leads from the sum with its first
/// `upto` entries to that with its first `upto + 1`.
pub proof fn lemma_merged_step(
    base: Map<Seq<char>, nat>,
    listing: Listing,
    map: Map<Seq<char>, nat>,
    upto: nat,
)
    requires
        lists(listing, map),
        upto < listing.len(),
    ensures
        bumped(merged_upto(base, listing, upto), listing[upto as int].0, listing[upto as int].1)
            == merged_upto(base, listing, upto + 1),
        count_of(merged_upto(base, listing, upto), listing[upto as int].0) + listing[upto as int].1
            == count_of(merged(base, map), listing[upto as int].0),
{
    let before = merged_upto(base, listing, upto);
    let key = listing[upto as int].0;
    let by = listing[upto as int].1;
    let after = merged_upto(base, listing, upto + 1);
    lemma_listed(listing, map, key, upto);
    assert(!among(listing, key, upto)) by {
        if among(listing, key, upto) {
            let i = choose|i: int| 0 <= i < upto && (#[trigger] listing[i]).0 == key;
            assert(listing[i].0 != listing[upto as int].0);
        }
    }
    assert forall|w: Seq<char>| among(listing, w, upto + 1) <==> (among(listing, w, upto) || w
        == key) by {
        if among(listing, w, upto + 1) {
            let i = choose|i: int| 0 <= i < upto + 1 && (#[trigger] listing[i]).0 == w;
            if i < upto {
                assert(among(listing, w, upto));
            }
        }
        if among(listing, w, upto) {
            let i = choose|i: int| 0 <= i < upto && (#[trigger] listing[i]).0 == w;
            assert(among(listing, w, upto + 1));
        }
        if w == key {
            assert(listing[upto as int].0 == w);
            assert(among(listing, w, upto + 1));
        }
    }
    assert(bumped(before, key, by) =~= after);
}

/// The sum with all entries of a listing is the sum with the map that is
/// listed.
pub proof fn lemma_merged_all(base: Map<Seq<char>, nat>, listing: Listing, map: Map<Seq<char>, nat>)
    requires
        lists(listing, map),
    ensures
        merged_upto(base, listing, listing.len()) == merged(base, map),
{
    let a = merged_upto(base, listing, listing.len());
    let b = merged(base, map);
    assert forall|w: Seq<char>| a.dom().contains(w) <==> b.dom().contains(w) by {
        lemma_listed(listing, map, w, listing.len());
        if among(listing, w, listing.len()) {
            let i = choose|i: int| 0 <= i < listing.len() && (#[trigger] listing[i]).0 == w;
            assert(map.dom().contains(listing[i].0));
        }
        if map.dom().contains(w) {
            let i = choose|i: int| 0 <= i < listing.len() && (#[trigger] listing[i]).0 == w;
            assert(among(listing, w, listing.len()));
        }
    }
    assert forall|w: Seq<char>| a.dom().contains(w) implies a[w] == b[w] by {
        lemma_listed(listing, map, w, listing.len());
    }
    assert(a =~= b);
}

/// Counts never fall when more is counted.
pub proof fn lemma_project_inner_grows(
    base: Map<Seq<char>, nat>,
    t: Seq<char>,
    by: nat,
    k: nat,
    a: nat,
    b: nat,
    w: Seq<char>,
)
    requires
        a <= b,
    ensures
        count_of(project_inner(base, t, by, k, a), w) <= count_of(
            project_inner(base, t, by, k, b),
            w,
        ),
        count_of(base, w) <= count_of(project_inner(base, t, by, k, a), w),
    decreases b,
{
    if a < b {
        lemma_project_inner_grows(base, t, by, k, a, (b - 1) as nat, w);
    } else if a > 1 {
        lemma_project_inner_grows(base, t, by, k, (a - 1) as nat, (a - 1) as nat, w);
    }
}

/// Counts never fall when more tails are counted.
pub proof fn lemma_project_tails_grows(
    base: Map<Seq<char>, nat>,
    listing: Listing,
    k: nat,
    inner: nat,
    a: nat,
    b: nat,
    w: Seq<char>,
)
    requires
        a <= b,
    ensures
        count_of(project_tails(base, listing, k, inner, a), w) <= count_of(
            project_tails(base, listing, k, inner, b),
            w,
        ),
        count_of(base, w) <= count_of(project_tails(base, listing, k, inner, a), w),
    decreases b,
{
    if a < b {
        lemma_project_tails_grows(base, listing, k, inner, a, (b - 1) as nat, w);
        lemma_project_inner_grows(
            project_tails(base, listing, k, inner, (b - 1) as nat),
            listing[b - 1].0,
            listing[b - 1].1,
            k,
            inner,
            inner,
            w,
        );
    } else if a > 0 {
        lemma_project_tails_grows(base, listing, k, inner, (a - 1) as nat, (a - 1) as nat, w);
        lemma_project_inner_grows(
            project_tails(base, listing, k, inner, (a - 1) as nat),
            listing[a - 1].0,
            listing[a - 1].1,
            k,
            inner,
            inner,
            w,
        );
    }
}

/// Counts never fall when more n-grams are counted.
pub proof fn lemma_project_heads_grows(listing: Listing, k: nat, a: nat, b: nat, w: Seq<char>)
    requires
        a <= b,
    ensures
        count_of(project_heads(listing, k, a), w) <= count_of(project_heads(listing, k, b), w),
    decreases b,
{
    if a < b {
        lemma_project_heads_grows(listing, k, a, (b - 1) as nat, w);
    }
}

/// The sum of the counts of those of the first `upto` n-grams in `listing`
/// that begin with `w`.
pub open spec fn prefix_mass(listing: Listing, w: Seq<char>, upto: nat) -> nat
    decreases upto,
{
    if upto == 0 {
        0
    } else {
        prefix_mass(listing, w, (upto - 1) as nat) + if listing[upto - 1].0.subrange(
            0,
            w.len() as int,
        ) == w {
            listing[upto - 1].1
        } else {
            0
        }
    }
}

/// At how many of the positions from 1 up to, but without, `upto` the
/// n-gram `w` stands in `t`.
pub open spec fn inner_hits(t: Seq<char>, w: Seq<char>, upto: nat) -> nat
    decreases upto,
{
    if upto <= 1 {
        0
    } else {
        inner_hits(t, w, (upto - 1) as nat) + if t.subrange(upto - 1, upto - 1 + w.len()) == w {
            1nat
        } else {
            0nat
        }
    }
}

/// The sum over the first `upto` tails in `listing` of the count of the
/// tail times the number of positions from 1 up to, but without, `inner` at
/// which `w` stands in it.
pub open spec fn interior_mass(listing: Listing, w: Seq<char>, inner: nat, upto: nat) -> nat
    decreases upto,
{
    if upto == 0 {
        0
    } else {
        interior_mass(listing, w, inner, (upto - 1) as nat) + listing[upto - 1].1 * inner_hits(
            listing[upto - 1].0,
            w,
            inner,
        )
    }
}

/// The count of a shorter n-gram in a projection is the sum of the counts
/// of the n-grams that begin with it, plus, for every tail, its count times
/// the number of inner positions at which the shorter n-gram stands in it.
pub proof fn lemma_projected_count(ngrams: Listing, tails: Listing, n: nat, k: nat, w: Seq<char>)
    requires
        w.len() == k,
        k <= n,
    ensures
        count_of(projected(ngrams, tails, n, k), w) == prefix_mass(ngrams, w, ngrams.len())
            + interior_mass(tails, w, (n - k) as nat, tails.len()),
{
    lemma_heads_count(ngrams, k, w, ngrams.len());
    lemma_tails_count(
        project_heads(ngrams, k, ngrams.len()),
        tails,
        k,
        (n - k) as nat,
        w,
        tails.len(),
    );
}

/// The count of `w` among the heads is the mass of the n-grams that begin
/// with it.
proof fn lemma_heads_count(listing: Listing, k: nat, w: Seq<char>, upto: nat)
    requires
        w.len() == k,
    ensures
        count_of(project_heads(listing, k, upto), w) == prefix_mass(listing, w, upto),
    decreases upto,
{
    if upto > 0 {
        lemma_heads_count(listing, k, w, (upto - 1) as nat);
    }
}

/// Counting the inner n-grams of a tail adds its count once for every
/// inner position at which `w` stands in it.
proof fn lemma_inner_count(
    base: Map<Seq<char>, nat>,
    t: Seq<char>,
    by: nat,
    k: nat,
    w: Seq<char>,
    upto: nat,
)
    requires
        w.len() == k,
    ensures
        count_of(project_inner(base, t, by, k, upto), w) == count_of(base, w) + by * inner_hits(
            t,
            w,
            upto,
        ),
    decreases upto,
{
    if upto > 1 {
        lemma_inner_count(base, t, by, k, w, (upto - 1) as nat);
        let h = inner_hits(t, w, (upto - 1) as nat);
        assert(by * (h + 1) == by * h + by) by (nonlinear_arith);
    } else {
        assert(by * 0 == 0) by (nonlinear_arith);
    }
}

/// Counting the inner n-grams of tails adds their interior mass.
proof fn lemma_tails_count(
    base: Map<Seq<char>, nat>,
    listing: Listing,
    k: nat,
    inner: nat,
    w: Seq<char>,
    upto: nat,
)
    requires
        w.len() == k,
    ensures
        count_of(project_tails(base, listing, k, inner, upto), w) == count_of(base, w)
            + interior_mass(listing, w, inner, upto),
    decreases upto,
{
    if upto > 0 {
        lemma_tails_count(base, listing, k, inner, w, (upto - 1) as nat);
        lemma_inner_count(
            project_tails(base, listing, k, inner, (upto - 1) as nat),
            listing[upto - 1].0,
            listing[upto - 1].1,
            k,
            w,
            inner,
        );
    }
}

/// An n-gram that stands at one of the first `upto` positions occurs.
pub proof fn lemma_occurs(text: Seq<char>, w: Seq<char>, at: nat, upto: nat)
    requires
        at < upto,
        text.subrange(at as int, (at + w.len()) as int) == w,
    ensures
        occurrences(text, w, upto) >= 1,
    decreases upto,
{
    if at < upto - 1 {
        lemma_occurs(text, w, at, (upto - 1) as nat);
    }
}

/// The sum, over those of the first `upto` n-grams in `listing` that begin
/// with `w`, of the number of the first `reach` positions of `text` at
/// which the n-gram stands.
spec fn head_hits(listing: Listing, text: Seq<char>, w: Seq<char>, reach: nat, upto: nat) -> nat
    decreases upto,
{
    if upto == 0 {
        0
    } else {
        head_hits(listing, text, w, reach, (upto - 1) as nat) + if listing[upto - 1].0.subrange(
            0,
            w.len() as int,
        ) == w {
            occurrences(text, listing[upto - 1].0, reach)
        } else {
            0
        }
    }
}

/// How many of the first `upto` entries of `listing` are for `t`.
spec fn present(listing: Listing, t: Seq<char>, upto: nat) -> nat
    decreases upto,
{
    if upto == 0 {
        0
    } else {
        present(listing, t, (upto - 1) as nat) + if listing[upto - 1].0 == t {
            1nat
        } else {
            0nat
        }
    }
}

/// A listing without repetition has one entry for an n-gram that is among
/// its entries, and none for another.
proof fn lemma_present(listing: Listing, t: Seq<char>, upto: nat)
    requires
        upto <= listing.len(),
        forall|i: int, j: int| 0 <= i < j < listing.len() ==> listing[i].0 != listing[j].0,
    ensures
        present(listing, t, upto) == if among(listing, t, upto) {
            1nat
        } else {
            0nat
        },
    decreases upto,
{
    if upto > 0 {
        lemma_present(listing, t, (upto - 1) as nat);
        if among(listing, t, (upto - 1) as nat) {
            let i = choose|i: int| 0 <= i < upto - 1 && (#[trigger] listing[i]).0 == t;
            assert(listing[i].0 != listing[upto - 1].0);
            assert(among(listing, t, upto));
        } else if listing[upto - 1].0 == t {
            assert(among(listing, t, upto));
        } else if among(listing, t, upto) {
            let i = choose|i: int| 0 <= i < upto && (#[trigger] listing[i]).0 == t;
            assert(among(listing, t, (upto - 1) as nat));
        }
    }
}

/// One more position of the text adds one to the sum for every entry of
/// the n-gram that stands there, if that n-gram begins with `w`.
proof fn lemma_head_hits_step(
    listing: Listing,
    text: Seq<char>,
    w: Seq<char>,
    n: nat,
    reach: nat,
    upto: nat,
)
    requires
        upto <= listing.len(),
        forall|i: int| 0 <= i < listing.len() ==> (#[trigger] listing[i]).0.len() == n,
    ensures
        head_hits(listing, text, w, reach + 1, upto) == head_hits(listing, text, w, reach, upto)
            + if text.subrange(reach as int, (reach + n) as int).subrange(0, w.len() as int) == w {
            present(listing, text.subrange(reach as int, (reach + n) as int), upto)
        } else {
            0
        },
    decreases upto,
{
    if upto > 0 {
        lemma_head_hits_step(listing, text, w, n, reach, (upto - 1) as nat);
        assert(listing[upto - 1].0.len() == n);
    }
}

/// Summed over the n-grams of a text that begin with `w`, the numbers of
/// the positions at which they stand are the number of the positions at
/// which `w` stands.
proof fn lemma_head_hits(
    listing: Listing,
    text: Seq<char>,
    w: Seq<char>,
    n: nat,
    reach: nat,
)
    requires
        w.len() <= n,
        reach + n <= text.len() + 1,
        lists(listing, tallied(Map::empty(), text, n)),
    ensures
        head_hits(listing, text, w, reach, listing.len()) == occurrences(text, w, reach),
    decreases reach,
{
    let map = tallied(Map::<Seq<char>, nat>::empty(), text, n);
    assert forall|i: int| 0 <= i < listing.len() implies (#[trigger] listing[i]).0.len() == n by {
        assert(map.dom().contains(listing[i].0));
    }
    if reach > 0 {
        let at = (reach - 1) as nat;
        lemma_head_hits(listing, text, w, n, at);
        lemma_head_hits_step(listing, text, w, n, at, listing.len());
        let win = text.subrange(at as int, (at + n) as int);
        assert(win.subrange(0, w.len() as int) =~= text.subrange(at as int, (at + w.len()) as int));
        lemma_occurs(text, win, at, starts(text, n));
        assert(map.dom().contains(win));
        let i = choose|i: int| 0 <= i < listing.len() && (#[trigger] listing[i]).0 == win;
        assert(among(listing, win, listing.len()));
        lemma_present(listing, win, listing.len());
    } else {
        lemma_head_hits_zero(listing, text, w, listing.len());
    }
}

/// Nothing stands at no position.
proof fn lemma_head_hits_zero(listing: Listing, text: Seq<char>, w: Seq<char>, upto: nat)
    ensures
        head_hits(listing, text, w, 0, upto) == 0,
    decreases upto,
{
    if upto > 0 {
        lemma_head_hits_zero(listing, text, w, (upto - 1) as nat);
    }
}

/// In the counts of a text the count of an n-gram is the number of the
/// positions at which it stands.
proof fn lemma_prefix_mass_of_text(
    listing: Listing,
    text: Seq<char>,
    w: Seq<char>,
    n: nat,
    upto: nat,
)
    requires
        upto <= listing.len(),
        lists(listing, tallied(Map::empty(), text, n)),
    ensures
        prefix_mass(listing, w, upto) == head_hits(listing, text, w, starts(text, n), upto),
    decreases upto,
{
    if upto > 0 {
        lemma_prefix_mass_of_text(listing, text, w, n, (upto - 1) as nat);
        let map = tallied(Map::<Seq<char>, nat>::empty(), text, n);
        assert(map.dom().contains(listing[upto - 1].0));
        assert(map[listing[upto - 1].0] == listing[upto - 1].1);
    }
}

/// The inner positions of the tail of a text are the positions of the text
/// behind the one at which the tail starts.
proof fn lemma_inner_hits_of_tail(text: Seq<char>, w: Seq<char>, n: nat, upto: nat)
    requires
        n <= text.len(),
        1 <= upto,
        upto + w.len() <= n + 1,
    ensures
        inner_hits(text.subrange(text.len() - n, text.len() as int), w, upto) + occurrences(
            text,
            w,
            (text.len() - n + 1) as nat,
        ) == occurrences(text, w, (text.len() - n + upto) as nat),
    decreases upto,
{
    if upto > 1 {
        lemma_inner_hits_of_tail(text, w, n, (upto - 1) as nat);
        let tail = text.subrange(text.len() - n, text.len() as int);
        let at = text.len() - n + upto - 1;
        assert(tail.subrange(upto - 1, upto - 1 + w.len()) =~= text.subrange(at, at + w.len()));
    }
}

/// What the projection of the counts of one text holds. For n-grams as
/// long as those that were counted, the count of `w` is the number of its
/// occurrences in the text. For shorter n-grams it is the number of the
/// occurrences that start before the last position at which an n-gram of
/// that length can stand: the occurrence at the very end of the text, if
/// `w` stands there, is left out.
pub proof fn lemma_projection_of_text(
    text: Seq<char>,
    ngrams: Listing,
    tails: Listing,
    n: nat,
    k: nat,
    w: Seq<char>,
)
    requires
        k <= n <= text.len(),
        w.len() == k,
        lists(ngrams, tallied(Map::empty(), text, n)),
        lists(
            tails,
            bumped(Map::empty(), text.subrange(text.len() - n, text.len() as int), 1),
        ),
    ensures
        count_of(projected(ngrams, tails, n, k), w) == occurrences(
            text,
            w,
            if k < n {
                (text.len() - k) as nat
            } else {
                starts(text, n)
            },
        ),
{
    let tail = text.subrange(text.len() - n, text.len() as int);
    let ends = bumped(Map::<Seq<char>, nat>::empty(), tail, 1);
    lemma_projected_count(ngrams, tails, n, k, w);
    lemma_prefix_mass_of_text(ngrams, text, w, n, ngrams.len());
    lemma_head_hits(ngrams, text, w, n, starts(text, n));
    // the tails are one entry, for the one tail
    assert(ends.dom().contains(tail));
    let at = choose|i: int| 0 <= i < tails.len() && (#[trigger] tails[i]).0 == tail;
    assert(tails.len() == 1) by {
        if tails.len() > 1 {
            let other = if at == 0 {
                1int
            } else {
                0int
            };
            assert(ends.dom().contains(tails[other].0));
            if at < other {
                assert(tails[at].0 != tails[other].0);
            } else {
                assert(tails[other].0 != tails[at].0);
            }
        }
    }
    assert(tails[0] == (tail, 1nat)) by {
        assert(ends[tails[0].0] == tails[0].1);
    }
    let inner = (n - k) as nat;
    assert(interior_mass(tails, w, inner, 1) == inner_hits(tail, w, inner)) by {
        assert(interior_mass(tails, w, inner, 0) == 0);
        let h = inner_hits(tail, w, inner);
        assert(1 * h == h) by (nonlinear_arith);
    }
    if k < n {
        lemma_inner_hits_of_tail(text, w, n, inner);
    }
}

/// The projection of the counts of one text counts the occurrences of
/// every n-gram of `k` characters in the text, but for the n-gram at the
/// very end of the text where `k` is less than the length that was counted.
pub proof fn lemma_projection_counts_occurrences(
    text: Seq<char>,
    ngrams: Listing,
    tails: Listing,
    n: nat,
    k: nat,
    w: Seq<char>,
)
    requires
        k <= n <= text.len(),
        w.len() == k,
        lists(ngrams, tallied(Map::empty(), text, n)),
        lists(
            tails,
            bumped(Map::empty(), text.subrange(text.len() - n, text.len() as int), 1),
        ),
        k == n || text.subrange(text.len() - k, text.len() as int) != w,
    ensures
        count_of(projected(ngrams, tails, n, k), w) == occurrences(text, w, starts(text, k)),
{
    lemma_projection_of_text(text, ngrams, tails, n, k, w);
}

/// Adding counts is commutative.
pub proof fn lemma_merged_commutative(a: Map<Seq<char>, nat>, b: Map<Seq<char>, nat>)
    ensures
        merged(a, b) == merged(b, a),
{
    assert(merged(a, b) =~= merged(b, a));
}

/// Adding counts is associative.
pub proof fn lemma_merged_associative(
    a: Map<Seq<char>, nat>,
    b: Map<Seq<char>, nat>,
    c: Map<Seq<char>, nat>,
)
    ensures
        merged(merged(a, b), c) == merged(a, merged(b, c)),
{
    assert(merged(merged(a, b), c) =~= merged(a, merged(b, c)));
}

/// Counting a text on top of counts gives the same as adding the counts of
/// the text alone.
pub proof fn lemma_tallied_is_merged(base: Map<Seq<char>, nat>, text: Seq<char>, n: nat)
    ensures
        tallied(base, text, n) == merged(base, tallied(Map::empty(), text, n)),
{
    assert(tallied(base, text, n) =~= merged(base, tallied(Map::empty(), text, n)));
}

/// Counting an n-gram on top of counts gives the same as adding the count
/// of the n-gram alone.
pub proof fn lemma_bumped_is_merged(base: Map<Seq<char>, nat>, key: Seq<char>, by: nat)
    ensures
        bumped(base, key, by) == merged(base, bumped(Map::empty(), key, by)),
{
    assert(bumped(base, key, by) =~= merged(base, bumped(Map::empty(), key, by)));
}

/// Counting two texts one after the other gives the same as adding the
/// counts of each text alone: no n-gram is counted that begins in one text
/// and ends in the other.
pub proof fn lemma_two_texts(a: Seq<char>, b: Seq<char>, n: nat)
    ensures
        tallied(tallied(Map::empty(), a, n), b, n) == merged(
            tallied(Map::empty(), a, n),
            tallied(Map::empty(), b, n),
        ),
{
    lemma_tallied_is_merged(tallied(Map::empty(), a, n), b, n);
}

/// The characters of `text` from `at` on, `N` of them.
pub fn window<const N: usize>(text: &[char], at: usize) -> (r: [char; N])
    requires
        at + N <= text@.len(),
    ensures
        r@ == text@.subrange(at as int, at + N),
{
    let mut r = ['\0'; N];
    let mut j: usize = 0;
    let len = text.len();
    while j < N
        invariant
            j <= N,
            at + N <= text@.len(),
            len == text@.len(),
            forall|x: int| 0 <= x < j ==> r@[x] == text@[at + x],
        decreases N - j,
    {
        r[j] = text[at + j];
        j += 1;
    }
    assert(r@ =~= text@.subrange(at as int, at + N));
    r
}

/// Counts of the n-grams of `N` characters in a corpus of texts, and of the
/// n-gram that each text ends with. The second count is what it takes to
/// derive the counts of shorter n-grams, which also stand inside the last
/// n-gram of a text.
#[derive(Clone, Debug)]
pub struct CorpusData<const N: usize> {
    ngrams: NGrams<N>,
    // the last n-gram of every text; it is counted in `ngrams` as well
    tails: NGrams<N>,
}

impl<const N: usize> Default for CorpusData<N> {
    /// The data of a corpus without texts.
    fn default() -> (r: Self)
        ensures
            r.wf(),
            r.counts()@ == Map::<Seq<char>, nat>::empty(),
            r.tails()@ == Map::<Seq<char>, nat>::empty(),
    {
        CorpusData::new()
    }
}

impl<const N: usize> CorpusData<N> {
    /// The counts of all n-grams.
    pub closed spec fn counts(&self) -> NGrams<N> {
        self.ngrams
    }

    /// The counts of the n-grams that a text ends with.
    pub closed spec fn tails(&self) -> NGrams<N> {
        self.tails
    }

    /// No n-gram has two entries, and every tail is counted as an n-gram as
    /// well.
    pub open spec fn wf(&self) -> bool {
        &&& self.counts().wf()
        &&& self.tails().wf()
        &&& forall|w: Seq<char>| self.tails().count(w) <= self.counts().count(w)
    }

    /// For the data of a single text, the counts of the n-grams of `k`
    /// characters that [`Self::ngrams`] derives are the numbers of their
    /// occurrences in the text, but for the n-gram at the very end of the
    /// text where `k` is less than `N`.
    pub proof fn lemma_ngrams_of_text(&self, text: Seq<char>, k: nat, w: Seq<char>)
        requires
            self.wf(),
            k <= N <= text.len(),
            w.len() == k,
            self.counts()@ == tallied(Map::empty(), text, N as nat),
            self.tails()@ == bumped(
                Map::empty(),
                text.subrange(text.len() - N, text.len() as int),
                1,
            ),
            k == N || text.subrange(text.len() - k, text.len() as int) != w,
        ensures
            count_of(
                projected(self.counts().listing(), self.tails().listing(), N as nat, k),
                w,
            ) == occurrences(text, w, starts(text, k)),
    {
        self.counts().lemma_listing();
        self.tails().lemma_listing();
        lemma_projection_counts_occurrences(
            text,
            self.counts().listing(),
            self.tails().listing(),
            N as nat,
            k,
            w,
        );
    }

    /// The data of a corpus without texts.
    pub fn new() -> (r: Self)
        ensures
            r.wf(),
            r.counts()@ == Map::<Seq<char>, nat>::empty(),
            r.tails()@ == Map::<Seq<char>, nat>::empty(),
    {
        Self { ngrams: NGrams::new(), tails: NGrams::new() }
    }

    /// The data with the given counts. Fails with [`Error::InvalidInput`]
    /// when a tail is counted more often as a tail than as an n-gram.
    pub fn from_counts(ngrams: NGrams<N>, tails: NGrams<N>) -> (r: Result<Self, Error>)
        requires
            ngrams.wf(),
            tails.wf(),
        ensures
            r is Ok <==> forall|w: Seq<char>| tails.count(w) <= ngrams.count(w),
            r matches Ok(data) ==> data.wf() && data.counts() == ngrams && data.tails() == tails,
            r matches Err(err) ==> err == Error::InvalidInput,
    {
        let mut i: usize = 0;
        proof {
            tails.lemma_listing();
        }
        while i < tails.len()
            invariant
                i <= tails.listing().len(),
                ngrams.wf(),
                tails.wf(),
                lists(tails.listing(), tails@),
                forall|j: int|
                    0 <= j < i ==> (#[trigger] tails.listing()[j]).1 <= ngrams.count(
                        tails.listing()[j].0,
                    ),
            decreases tails.listing().len() - i,
        {
            let tail = tails.ngram_at(i);
            if ngrams.occurrences(&tail) < tails.count_at(i) {
                proof {
                    assert(tails@.dom().contains(tails.listing()[i as int].0));
                    assert(tails.count(tail@) > ngrams.count(tail@));
                }
                return Err(Error::InvalidInput);
            }
            i += 1;
        }
        proof {
            assert forall|w: Seq<char>| tails.count(w) <= ngrams.count(w) by {
                if tails@.dom().contains(w) {
                    let j = choose|j: int|
                        0 <= j < tails.listing().len() && (#[trigger] tails.listing()[j]).0 == w;
                    assert(tails@[tails.listing()[j].0] == tails.listing()[j].1);
                }
            }
        }
        Ok(Self { ngrams, tails })
    }

    /// Counts the n-grams of `text`. Fails with [`Error::CorpusTooShort`],
    /// and counts nothing, when `text` has fewer than `N` characters.
    pub fn add(&mut self, text: &[char]) -> (r: Result<(), Error>)
        requires
            old(self).wf(),
            text@.len() >= N ==> fits(tallied(old(self).counts()@, text@, N as nat)) && fits(
                bumped(old(self).tails()@, text@.subrange(text@.len() - N, text@.len() as int), 1),
            ),
        ensures
            final(self).wf(),
            text@.len() < N ==> r == Err::<(), Error>(Error::CorpusTooShort) && *final(self)
                == *old(self),
            text@.len() >= N ==> {
                &&& r is Ok
                &&& final(self).counts()@ == tallied(old(self).counts()@, text@, N as nat)
                &&& final(self).tails()@ == bumped(
                    old(self).tails()@,
                    text@.subrange(text@.len() - N, text@.len() as int),
                    1,
                )
            },
    {
        if text.len() < N {
            return Err(Error::CorpusTooShort);
        }
        let last = text.len() - N;
        let ghost base = self.ngrams@;
        let ghost whole = tallied(base, text@, N as nat);
        let mut p: usize = 0;
        while p < last
            invariant
                p <= last,
                last + N == text@.len(),
                self.ngrams.wf(),
                self.tails == old(self).tails,
                base == old(self).ngrams@,
                whole == tallied(base, text@, N as nat),
                fits(whole),
                self.ngrams@ == tallied_upto(base, text@, N as nat, p as nat),
            decreases last - p,
        {
            let ngram = window::<N>(text, p);
            proof {
                lemma_tallied_step(base, text@, N as nat, p as nat);
                lemma_occurrences_grow(text@, ngram@, (p + 1) as nat, (last + 1) as nat);
                assert(count_of(whole, ngram@) <= u64::MAX);
            }
            self.ngrams.bump(ngram, 1);
            p += 1;
        }
        let tail = window::<N>(text, last);
        proof {
            lemma_tallied_step(base, text@, N as nat, last as nat);
            assert(count_of(whole, tail@) <= u64::MAX);
            assert(count_of(bumped(old(self).tails@, tail@, 1), tail@) <= u64::MAX);
        }
        self.tails.bump(tail, 1);
        self.ngrams.bump(tail, 1);
        proof {
            assert forall|w: Seq<char>| self.tails().count(w) <= self.counts().count(w) by {
                assert(old(self).tails().count(w) <= old(self).counts().count(w));
                if w == tail@ {
                    lemma_occurrences_grow(text@, w, last as nat, last as nat);
                }
            }
        }
        Ok(())
    }

    /// Adds the counts of `other`.
    pub fn append(&mut self, other: &Self)
        requires
            old(self).wf(),
            other.wf(),
            fits(merged(old(self).counts()@, other.counts()@)),
            fits(merged(old(self).tails()@, other.tails()@)),
        ensures
            final(self).wf(),
            final(self).counts()@ == merged(old(self).counts()@, other.counts()@),
            final(self).tails()@ == merged(old(self).tails()@, other.tails()@),
    {
        add_all(&mut self.ngrams, &other.ngrams);
        add_all(&mut self.tails, &other.tails);
        proof {
            assert forall|w: Seq<char>| self.tails().count(w) <= self.counts().count(w) by {
                assert(old(self).tails().count(w) <= old(self).counts().count(w));
                assert(other.tails().count(w) <= other.counts().count(w));
            }
        }
    }

    /// The counts of all n-grams, by reference.
    pub fn ngram_counts(&self) -> (r: &NGrams<N>)
        ensures
            *r == self.counts(),
    {
        &self.ngrams
    }

    /// The counts of the n-grams that a text ends with, by reference.
    pub fn tail_counts(&self) -> (r: &NGrams<N>)
        ensures
            *r == self.tails(),
    {
        &self.tails
    }

    /// The counts of all n-grams.
    pub fn into_ngrams(self) -> (r: NGrams<N>)
        ensures
            r == self.counts(),
    {
        self.ngrams
    }

    /// The counts of the n-grams of `K` characters, for `K` up to `N`.
    /// Every n-gram adds its count to the shorter n-gram that it begins
    /// with. Every tail adds its count to the shorter n-grams that stand in
    /// it at the positions from 1 up to, but without, `N - K`.
    pub fn ngrams<const K: usize>(&self) -> (r: NGrams<K>)
        requires
            self.wf(),
            K <= N,
            fits(projected(self.counts().listing(), self.tails().listing(), N as nat, K as nat)),
        ensures
            r.wf(),
            r@ == projected(self.counts().listing(), self.tails().listing(), N as nat, K as nat),
    {
        let ghost heads = self.ngrams.listing();
        let ghost ends = self.tails.listing();
        let ghost whole = projected(heads, ends, N as nat, K as nat);
        let ghost inner = (N - K) as nat;
        let mut ngrams: NGrams<K> = NGrams::new();
        let mut i: usize = 0;
        proof {
            self.ngrams.lemma_listing();
            self.tails.lemma_listing();
        }
        while i < self.ngrams.len()
            invariant
                i <= heads.len(),
                K <= N,
                heads == self.ngrams.listing(),
                ends == self.tails.listing(),
                forall|j: int| 0 <= j < heads.len() ==> (#[trigger] heads[j]).0.len() == N,
                whole == projected(heads, ends, N as nat, K as nat),
                inner == N - K,
                fits(whole),
                ngrams.wf(),
                ngrams@ == project_heads(heads, K as nat, i as nat),
            decreases heads.len() - i,
        {
            let ngram = self.ngrams.ngram_at(i);
            let by = self.ngrams.count_at(i);
            let head = part::<N, K>(&ngram, 0);
            proof {
                let w = head@;
                lemma_project_heads_grows(heads, K as nat, (i + 1) as nat, heads.len(), w);
                lemma_project_tails_grows(
                    project_heads(heads, K as nat, heads.len()),
                    ends,
                    K as nat,
                    inner,
                    ends.len(),
                    ends.len(),
                    w,
                );
                assert(count_of(whole, w) <= u64::MAX);
            }
            ngrams.bump(head, by);
            i += 1;
        }
        let ghost base = project_heads(heads, K as nat, heads.len());
        let mut i: usize = 0;
        while i < self.tails.len()
            invariant
                i <= ends.len(),
                K <= N,
                heads == self.ngrams.listing(),
                ends == self.tails.listing(),
                forall|j: int| 0 <= j < ends.len() ==> (#[trigger] ends[j]).0.len() == N,
                whole == project_tails(base, ends, K as nat, inner, ends.len()),
                inner == N - K,
                fits(whole),
                ngrams.wf(),
                ngrams@ == project_tails(base, ends, K as nat, inner, i as nat),
            decreases ends.len() - i,
        {
            let tail = self.tails.ngram_at(i);
            let by = self.tails.count_at(i);
            let ghost before = ngrams@;
            let mut at: usize = 1;
            while at < N - K
                invariant
                    1 <= at,
                    at <= N - K || at == 1,
                    K <= N,
                    i < ends.len(),
                    tail@ == ends[i as int].0,
                    by == ends[i as int].1,
                    whole == project_tails(base, ends, K as nat, inner, ends.len()),
                    inner == N - K,
                    fits(whole),
                    before == project_tails(base, ends, K as nat, inner, i as nat),
                    ngrams.wf(),
                    ngrams@ == project_inner(before, tail@, by as nat, K as nat, at as nat),
                decreases N - K - at,
            {
                let piece = part::<N, K>(&tail, at);
                proof {
                    let w = piece@;
                    lemma_project_inner_grows(
                        before,
                        tail@,
                        by as nat,
                        K as nat,
                        (at + 1) as nat,
                        inner,
                        w,
                    );
                    lemma_project_tails_grows(
                        base,
                        ends,
                        K as nat,
                        inner,
                        (i + 1) as nat,
                        ends.len(),
                        w,
                    );
                    assert(count_of(whole, w) <= u64::MAX);
                }
                ngrams.bump(piece, by);
                at += 1;
            }
            proof {
                assert(project_inner(before, tail@, by as nat, K as nat, at as nat)
                    == project_inner(before, tail@, by as nat, K as nat, inner));
            }
            i += 1;
        }
        ngrams
    }
}

/// The characters of `ngram` from `at` on, `K` of them.
pub fn part<const N: usize, const K: usize>(ngram: &[char; N], at: usize) -> (r: [char; K])
    requires
        at + K <= N,
    ensures
        r@ == ngram@.subrange(at as int, at + K),
{
    let mut r = ['\0'; K];
    let mut j: usize = 0;
    while j < K
        invariant
            j <= K,
            at + K <= N,
            forall|x: int| 0 <= x < j ==> r@[x] == ngram@[at + x],
        decreases K - j,
    {
        r[j] = ngram[at + j];
        j += 1;
    }
    assert(r@ =~= ngram@.subrange(at as int, at + K));
    r
}

/// Adds the counts of `from` to `to`.
fn add_all<const N: usize>(to: &mut NGrams<N>, from: &NGrams<N>)
    requires
        old(to).wf(),
        from.wf(),
        fits(merged(old(to)@, from@)),
    ensures
        final(to).wf(),
        final(to)@ == merged(old(to)@, from@),
{
    let ghost base = to@;
    let ghost listing = from.listing();
    proof {
        from.lemma_listing();
        assert(lists(listing, from@));
    }
    let mut i: usize = 0;
    while i < from.len()
        invariant
            i <= listing.len(),
            listing == from.listing(),
            lists(listing, from@),
            base == old(to)@,
            fits(merged(base, from@)),
            to.wf(),
            to@ == merged_upto(base, listing, i as nat),
        decreases listing.len() - i,
    {
        let ngram = from.ngram_at(i);
        let by = from.count_at(i);
        proof {
            lemma_merged_step(base, listing, from@, i as nat);
            assert(count_of(merged(base, from@), ngram@) <= u64::MAX);
        }
        to.bump(ngram, by);
        i += 1;
    }
    proof {
        lemma_merged_all(base, listing, from@);
    }
}

} // verus!
