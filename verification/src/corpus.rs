use crate::corpus_data::{occurrences, Listing};
use crate::ngrams::{bumped, NGrams};
use crate::parser::characters;
use vstd::prelude::*;

verus! {

/// The character that stands for the shift key.
pub const SHIFT: char = '\u{21E7}';

/// Whether `c` is a capital letter of the basic alphabet.
pub open spec fn is_capital(c: char) -> bool {
    'A' <= c && c <= 'Z'
}

/// What has to be typed for `text`: before every capital letter stands the
/// character for the shift key.
pub open spec fn unshifted(text: Seq<char>) -> Seq<char>
    decreases text.len(),
{
    if text.len() == 0 {
        Seq::empty()
    } else if is_capital(text[0]) {
        seq![SHIFT, text[0]] + unshifted(text.drop_first())
    } else {
        seq![text[0]] + unshifted(text.drop_first())
    }
}

/// At how many of the first `upto` positions of `text` the first character
/// of the pair `w` stands, with the second one two positions on.
pub open spec fn skips(text: Seq<char>, w: Seq<char>, upto: nat) -> nat
    decreases upto,
{
    if upto == 0 {
        0
    } else {
        skips(text, w, (upto - 1) as nat) + if text[upto - 1] == w[0] && text[(upto + 1) as int] == w[1] {
            1nat
        } else {
            0nat
        }
    }
}

/// The weight of the pair `w` from the first `pairs` positions at which a
/// pair of neighbours starts and the first `gaps` positions at which a pair
/// with one character between starts: neighbours count four times.
pub open spec fn pair_weight(text: Seq<char>, w: Seq<char>, pairs: nat, gaps: nat) -> nat {
    4 * occurrences(text, w, pairs) + skips(text, w, gaps)
}

/// The weights of all pairs with a weight other than zero.
pub open spec fn weights_upto(text: Seq<char>, pairs: nat, gaps: nat) -> Map<Seq<char>, nat> {
    Map::new(
        |w: Seq<char>| w.len() == 2 && pair_weight(text, w, pairs, gaps) > 0,
        |w: Seq<char>| pair_weight(text, w, pairs, gaps),
    )
}

/// The weights of the pairs of characters in `text`: four for every time
/// that the two are neighbours, one for every time that one character
/// stands between them.
pub open spec fn pair_weights(text: Seq<char>) -> Map<Seq<char>, nat> {
    weights_upto(
        text,
        if text.len() >= 1 {
            (text.len() - 1) as nat
        } else {
            0
        },
        if text.len() >= 2 {
            (text.len() - 2) as nat
        } else {
            0
        },
    )
}

/// Nothing stands at more positions than there are.
pub proof fn lemma_counts_bounded(text: Seq<char>, w: Seq<char>, upto: nat)
    ensures
        occurrences(text, w, upto) <= upto,
        skips(text, w, upto) <= upto,
    decreases upto,
{
    if upto > 0 {
        lemma_counts_bounded(text, w, (upto - 1) as nat);
    }
}

/// Counting the pair of neighbours at position `pairs` leads to the weights
/// with one more such position.
pub proof fn lemma_near_step(text: Seq<char>, pairs: nat, gaps: nat)
    requires
        pairs + 2 <= text.len(),
    ensures
        bumped(
            weights_upto(text, pairs, gaps),
            seq![text[pairs as int], text[pairs as int + 1]],
            4,
        ) == weights_upto(text, pairs + 1, gaps),
{
    let pair = seq![text[pairs as int], text[pairs as int + 1]];
    let before = weights_upto(text, pairs, gaps);
    let after = weights_upto(text, pairs + 1, gaps);
    assert(text.subrange(pairs as int, pairs as int + 2) =~= pair);
    assert forall|w: Seq<char>| w.len() == 2 implies pair_weight(text, w, pairs + 1, gaps)
        == pair_weight(text, w, pairs, gaps) + if w == pair {
        4nat
    } else {
        0nat
    } by {
        assert(text.subrange(pairs as int, pairs as int + w.len()) == pair);
    }
    assert(bumped(before, pair, 4) =~= after);
}

/// Counting the pair with one character between at position `gaps` leads
/// to the weights with one more such position.
pub proof fn lemma_far_step(text: Seq<char>, pairs: nat, gaps: nat)
    requires
        gaps + 3 <= text.len(),
    ensures
        bumped(
            weights_upto(text, pairs, gaps),
            seq![text[gaps as int], text[gaps as int + 2]],
            1,
        ) == weights_upto(text, pairs, gaps + 1),
{
    let pair = seq![text[gaps as int], text[gaps as int + 2]];
    let before = weights_upto(text, pairs, gaps);
    let after = weights_upto(text, pairs, gaps + 1);
    assert forall|w: Seq<char>| w.len() == 2 implies pair_weight(text, w, pairs, gaps + 1)
        == pair_weight(text, w, pairs, gaps) + if w == pair {
        1nat
    } else {
        0nat
    } by {
        if text[gaps as int] == w[0] && text[gaps as int + 2] == w[1] {
            assert(w =~= pair);
        }
    }
    assert(bumped(before, pair, 1) =~= after);
}

/// Walks through what has to be typed for a text.
pub struct Unshift<'a> {
    chars: &'a [char],
    at: usize,
    shifted: Option<char>,
}

impl<'a> Unshift<'a> {
    /// The characters that are still to come.
    pub closed spec fn remaining(&self) -> Seq<char> {
        match self.shifted {
            Some(c) => seq![c] + unshifted(self.chars@.subrange(self.at as int, self.chars@.len() as int)),
            None => unshifted(self.chars@.subrange(self.at as int, self.chars@.len() as int)),
        }
    }

    /// The walk has not left the text.
    pub closed spec fn wf(&self) -> bool {
        self.at <= self.chars@.len()
    }

    /// Starts before the first character of `chars`.
    pub fn new(chars: &'a [char]) -> (r: Self)
        ensures
            r.wf(),
            r.remaining() == unshifted(chars@),
    {
        assert(chars@.subrange(0, chars@.len() as int) =~= chars@);
        Self { chars, at: 0, shifted: None }
    }

    /// The next character, or `None` at the end.
    pub fn next(&mut self) -> (r: Option<char>)
        requires
            old(self).wf(),
        ensures
            final(self).wf(),
            match r {
                Some(c) => {
                    &&& old(self).remaining().len() > 0
                    &&& c == old(self).remaining()[0]
                    &&& final(self).remaining() == old(self).remaining().drop_first()
                },
                None => old(self).remaining().len() == 0 && final(self).remaining().len() == 0,
            },
    {
        let ghost rest = self.chars@.subrange(self.at as int, self.chars@.len() as int);
        match self.shifted {
            Some(c) => {
                self.shifted = None;
                assert((seq![c] + unshifted(rest)).drop_first() =~= unshifted(rest));
                Some(c)
            },
            None => {
                if self.at < self.chars.len() {
                    let c = self.chars[self.at];
                    self.at += 1;
                    let ghost later = self.chars@.subrange(self.at as int, self.chars@.len() as int);
                    proof {
                        assert(rest.drop_first() =~= later);
                        assert(rest[0] == c);
                    }
                    if 'A' <= c && c <= 'Z' {
                        self.shifted = Some(c);
                        assert((seq![SHIFT, c] + unshifted(later)).drop_first() =~= seq![c]
                            + unshifted(later));
                        Some(SHIFT)
                    } else {
                        assert((seq![c] + unshifted(later)).drop_first() =~= unshifted(later));
                        Some(c)
                    }
                } else {
                    None
                }
            },
        }
    }
}

/// What has to be typed for `text`.
pub fn unshift(text: &[char]) -> (r: Vec<char>)
    ensures
        r@ == unshifted(text@),
{
    let mut walk = Unshift::new(text);
    let mut r: Vec<char> = Vec::new();
    loop
        invariant
            walk.wf(),
            r@ + walk.remaining() == unshifted(text@),
        ensures
            r@ == unshifted(text@),
        decreases walk.remaining().len(),
    {
        let ghost left = walk.remaining();
        match walk.next() {
            Some(c) => {
                r.push(c);
                assert(r@ + walk.remaining() =~= r@.drop_last() + left);
            },
            None => {
                assert(r@ + walk.remaining() =~= r@);
                break ;
            },
        }
    }
    r
}

/// The weights of the pairs of characters in `chars`.
pub fn calc_weights(chars: &[char]) -> (r: NGrams<2>)
    requires
        5 * chars@.len() <= u64::MAX,
    ensures
        r.wf(),
        r@ == pair_weights(chars@),
{
    let mut map: NGrams<2> = NGrams::new();
    let len = chars.len();
    assert(map@ =~= weights_upto(chars@, 0, 0));
    if len < 2 {
        return map;
    }
    let first = [chars[0], chars[1]];
    proof {
        lemma_near_step(chars@, 0, 0);
        assert(first@ =~= seq![chars@[0], chars@[1]]);
    }
    map.bump(first, 4);
    let mut j: usize = 2;
    while j < len
        invariant
            2 <= j <= len,
            len == chars@.len(),
            5 * chars@.len() <= u64::MAX,
            map.wf(),
            map@ == weights_upto(chars@, (j - 1) as nat, (j - 2) as nat),
        decreases len - j,
    {
        let near = [chars[j - 1], chars[j]];
        let far = [chars[j - 2], chars[j]];
        proof {
            lemma_counts_bounded(chars@, near@, (j - 1) as nat);
            lemma_counts_bounded(chars@, near@, (j - 2) as nat);
            lemma_near_step(chars@, (j - 1) as nat, (j - 2) as nat);
            assert(near@ =~= seq![chars@[j - 1], chars@[j as int]]);
        }
        map.bump(near, 4);
        proof {
            lemma_counts_bounded(chars@, far@, j as nat);
            lemma_counts_bounded(chars@, far@, (j - 2) as nat);
            lemma_far_step(chars@, j as nat, (j - 2) as nat);
            assert(far@ =~= seq![chars@[j - 2], chars@[j as int]]);
        }
        map.bump(far, 1);
        j += 1;
    }
    map
}

/// The weights of the pairs of characters that are typed for `text`, the
/// shift key included.
pub fn weights(text: &str) -> (r: NGrams<2>)
    requires
        10 * text@.len() <= u64::MAX,
    ensures
        r.wf(),
        r@ == pair_weights(unshifted(text@)),
{
    let chars = characters(text);
    let typed = unshift(chars.as_slice());
    proof {
        lemma_unshifted_len(text@);
    }
    calc_weights(typed.as_slice())
}

/// What has to be typed for a text is at most twice as long as the text.
pub proof fn lemma_unshifted_len(text: Seq<char>)
    ensures
        text.len() <= unshifted(text).len() <= 2 * text.len(),
    decreases text.len(),
{
    if text.len() > 0 {
        lemma_unshifted_len(text.drop_first());
    }
}

/// The sum of the weights of those of the first `upto` pairs in `listing`
/// that hold `c`.
pub open spec fn frequency_upto(listing: Listing, c: char, upto: nat) -> nat
    decreases upto,
{
    if upto == 0 {
        0
    } else {
        frequency_upto(listing, c, (upto - 1) as nat) + if listing[upto - 1].0[0] == c
            || listing[upto - 1].0[1] == c {
            listing[upto - 1].1
        } else {
            0
        }
    }
}

/// How much `c` is typed: the sum of the weights of the pairs that hold it.
pub open spec fn frequency_of(listing: Listing, c: char) -> nat {
    frequency_upto(listing, c, listing.len())
}

/// `sorted` with `c` put behind the characters that are typed no less.
pub open spec fn placed(sorted: Seq<char>, c: char, listing: Listing) -> Seq<char>
    decreases sorted.len(),
{
    if sorted.len() == 0 {
        seq![c]
    } else if frequency_of(listing, sorted.last()) >= frequency_of(listing, c) {
        sorted.push(c)
    } else {
        placed(sorted.drop_last(), c, listing).push(sorted.last())
    }
}

/// The first `upto` characters of `alphabet`, those that are typed most
/// first; characters that are typed equally much stay in the order they
/// had.
pub open spec fn ranked(alphabet: Seq<char>, listing: Listing, upto: nat) -> Seq<char>
    decreases upto,
{
    if upto == 0 {
        Seq::empty()
    } else {
        placed(ranked(alphabet, listing, (upto - 1) as nat), alphabet[upto - 1], listing)
    }
}

/// Putting `c` behind the characters at the positions before `at`, which
/// are typed no less, and before the others, which are typed less.
proof fn lemma_placed(sorted: Seq<char>, c: char, listing: Listing, at: int)
    requires
        0 <= at <= sorted.len(),
        at > 0 ==> frequency_of(listing, sorted[at - 1]) >= frequency_of(listing, c),
        forall|i: int|
            at <= i < sorted.len() ==> frequency_of(listing, sorted[i]) < frequency_of(listing, c),
    ensures
        placed(sorted, c, listing) == sorted.insert(at, c),
    decreases sorted.len(),
{
    if sorted.len() == 0 {
        assert(sorted.insert(at, c) =~= seq![c]);
    } else if at == sorted.len() {
        assert(sorted.insert(at, c) =~= sorted.push(c));
    } else {
        let front = sorted.drop_last();
        assert(frequency_of(listing, sorted[sorted.len() - 1]) < frequency_of(listing, c));
        assert forall|i: int| at <= i < front.len() implies frequency_of(listing, front[i])
            < frequency_of(listing, c) by {
            assert(front[i] == sorted[i]);
        }
        if at > 0 {
            assert(front[at - 1] == sorted[at - 1]);
        }
        lemma_placed(front, c, listing, at);
        assert(front.insert(at, c).push(sorted.last()) =~= sorted.insert(at, c));
    }
}

/// Whether the characters of `chars` stand in falling order of frequency.
pub open spec fn falling(chars: Seq<char>, listing: Listing) -> bool {
    forall|i: int, j: int|
        0 <= i < j < chars.len() ==> frequency_of(listing, chars[i]) >= frequency_of(
            listing,
            chars[j],
        )
}

/// Putting a character into characters in falling order of frequency keeps
/// the order, and adds this character and no other.
proof fn lemma_placed_falling(sorted: Seq<char>, c: char, listing: Listing)
    requires
        falling(sorted, listing),
    ensures
        falling(placed(sorted, c, listing), listing),
        placed(sorted, c, listing).len() == sorted.len() + 1,
        placed(sorted, c, listing).to_multiset() == sorted.to_multiset().insert(c),
        forall|i: int|
            0 <= i < placed(sorted, c, listing).len() ==> frequency_of(
                listing,
                #[trigger] placed(sorted, c, listing)[i],
            ) >= frequency_of(listing, c) || (sorted.len() > 0 && frequency_of(
                listing,
                placed(sorted, c, listing)[i],
            ) >= frequency_of(listing, sorted.last())),
    decreases sorted.len(),
{
    broadcast use vstd::seq_lib::group_to_multiset_ensures;

    let all = placed(sorted, c, listing);
    if sorted.len() == 0 {
        assert(seq![c] =~= sorted.push(c));
    } else if frequency_of(listing, sorted.last()) >= frequency_of(listing, c) {
        assert forall|i: int, j: int| 0 <= i < j < all.len() implies frequency_of(listing, all[i])
            >= frequency_of(listing, all[j]) by {
            if j < sorted.len() {
                assert(all[i] == sorted[i] && all[j] == sorted[j]);
            } else {
                assert(all[i] == sorted[i]);
                assert(i == sorted.len() - 1 || frequency_of(listing, sorted[i]) >= frequency_of(
                    listing,
                    sorted[sorted.len() - 1],
                ));
            }
        }
        assert forall|i: int| 0 <= i < all.len() implies frequency_of(listing, #[trigger] all[i])
            >= frequency_of(listing, c) by {
            if i < sorted.len() {
                assert(all[i] == sorted[i]);
                assert(i == sorted.len() - 1 || frequency_of(listing, sorted[i]) >= frequency_of(
                    listing,
                    sorted[sorted.len() - 1],
                ));
            }
        }
    } else {
        let front = sorted.drop_last();
        let last = sorted.last();
        assert forall|i: int, j: int| 0 <= i < j < front.len() implies frequency_of(
            listing,
            front[i],
        ) >= frequency_of(listing, front[j]) by {
            assert(front[i] == sorted[i] && front[j] == sorted[j]);
        }
        lemma_placed_falling(front, c, listing);
        let inner = placed(front, c, listing);
        assert(all == inner.push(last));
        assert(sorted =~= front.push(last));
        assert(all.to_multiset() =~= sorted.to_multiset().insert(c));
        assert forall|i: int| 0 <= i < all.len() implies frequency_of(listing, #[trigger] all[i])
            >= frequency_of(listing, last) by {
            if i < inner.len() {
                assert(all[i] == inner[i]);
                if frequency_of(listing, inner[i]) < frequency_of(listing, c) {
                    assert(front.len() > 0);
                    assert(front.last() == sorted[sorted.len() - 2]);
                }
            }
        }
        assert forall|i: int, j: int| 0 <= i < j < all.len() implies frequency_of(listing, all[i])
            >= frequency_of(listing, all[j]) by {
            if j < inner.len() {
                assert(all[i] == inner[i] && all[j] == inner[j]);
            }
        }
    }
}

/// The ranked characters are the characters of the alphabet, each as often
/// as it stands there, in falling order of frequency.
pub proof fn lemma_ranked(alphabet: Seq<char>, listing: Listing, upto: nat)
    requires
        upto <= alphabet.len(),
    ensures
        ranked(alphabet, listing, upto).len() == upto,
        ranked(alphabet, listing, upto).to_multiset() == alphabet.take(upto as int).to_multiset(),
        falling(ranked(alphabet, listing, upto), listing),
    decreases upto,
{
    broadcast use vstd::seq_lib::group_to_multiset_ensures;

    if upto > 0 {
        lemma_ranked(alphabet, listing, (upto - 1) as nat);
        lemma_placed_falling(
            ranked(alphabet, listing, (upto - 1) as nat),
            alphabet[upto - 1],
            listing,
        );
        assert(alphabet.take(upto as int) =~= alphabet.take(upto - 1).push(alphabet[upto - 1]));
    } else {
        assert(alphabet.take(0) =~= Seq::<char>::empty());
    }
}

/// How much `c` is typed according to `weights`.
pub fn frequency(weights: &NGrams<2>, c: char) -> (r: u128)
    requires
        weights.wf(),
    ensures
        r == frequency_of(weights.listing(), c),
{
    let mut sum: u128 = 0;
    let mut i: usize = 0;
    let ghost listing = weights.listing();
    let count = weights.len();
    proof {
        weights.lemma_listing();
    }
    while i < count
        invariant
            i <= listing.len(),
            listing == weights.listing(),
            count == listing.len(),
            forall|j: int|
                0 <= j < listing.len() ==> (#[trigger] listing[j]).0.len() == 2 && listing[j].1
                    <= u64::MAX,
            sum == frequency_upto(listing, c, i as nat),
            sum <= i * u64::MAX,
        decreases listing.len() - i,
    {
        let pair = weights.ngram_at(i);
        let weight = weights.count_at(i);
        proof {
            assert(listing[i as int].1 <= u64::MAX);
            assert(i * u64::MAX + u64::MAX == (i + 1) * u64::MAX) by (nonlinear_arith);
            assert((i + 1) * u64::MAX <= usize::MAX * u64::MAX) by (nonlinear_arith)
                requires
                    i + 1 <= usize::MAX,
            ;
            assert(usize::MAX * u64::MAX <= u128::MAX) by (nonlinear_arith)
                requires
                    usize::MAX <= u64::MAX,
            ;
        }
        if pair[0] == c || pair[1] == c {
            sum = sum + weight as u128;
        }
        i += 1;
    }
    sum
}

/// The characters of `alphabet`, those that are typed most first, which
/// lets a search cut early. Characters that are typed equally much stay in
/// the order they had.
pub fn by_frequency<const N: usize>(alphabet: [char; N], weights: &NGrams<2>) -> (r: [char; N])
    requires
        weights.wf(),
    ensures
        r@ == ranked(alphabet@, weights.listing(), N as nat),
        r@.to_multiset() == alphabet@.to_multiset(),
        falling(r@, weights.listing()),
{
    proof {
        lemma_ranked(alphabet@, weights.listing(), N as nat);
        assert(alphabet@.take(N as int) =~= alphabet@);
    }
    let ghost listing = weights.listing();
    let mut sorted: Vec<(u128, char)> = Vec::new();
    let mut i: usize = 0;
    while i < N
        invariant
            i <= N,
            weights.wf(),
            listing == weights.listing(),
            sorted@.len() == i,
            forall|k: int|
                0 <= k < sorted@.len() ==> (#[trigger] sorted@[k]).0 == frequency_of(
                    listing,
                    sorted@[k].1,
                ),
            Seq::new(sorted@.len(), |k: int| sorted@[k].1) == ranked(alphabet@, listing, i as nat),
        decreases N - i,
    {
        let c = alphabet[i];
        let typed = frequency(weights, c);
        let mut at: usize = sorted.len();
        while at > 0 && sorted[at - 1].0 < typed
            invariant
                at <= sorted@.len(),
                forall|k: int| at <= k < sorted@.len() ==> sorted@[k].0 < typed,
            decreases at,
        {
            at -= 1;
        }
        let ghost before = sorted@;
        let ghost chars = Seq::new(before.len(), |k: int| before[k].1);
        proof {
            assert forall|k: int| at <= k < chars.len() implies frequency_of(listing, chars[k])
                < frequency_of(listing, c) by {
                assert(before[k].0 == frequency_of(listing, before[k].1));
            }
            if at > 0 {
                assert(before[at - 1].0 == frequency_of(listing, before[at - 1].1));
            }
            lemma_placed(chars, c, listing, at as int);
        }
        sorted.insert(at, (typed, c));
        proof {
            assert(Seq::new(sorted@.len(), |k: int| sorted@[k].1) =~= chars.insert(at as int, c));
            assert forall|k: int| 0 <= k < sorted@.len() implies (#[trigger] sorted@[k]).0
                == frequency_of(listing, sorted@[k].1) by {
                if k < at {
                    assert(sorted@[k] == before[k]);
                } else if k > at {
                    assert(sorted@[k] == before[k - 1]);
                }
            }
        }
        i += 1;
    }
    let mut r = alphabet;
    let mut i: usize = 0;
    while i < N
        invariant
            i <= N,
            sorted@.len() == N,
            forall|k: int| 0 <= k < i ==> r@[k] == sorted@[k].1,
        decreases N - i,
    {
        r[i] = sorted[i].1;
        i += 1;
    }
    assert(r@ =~= Seq::new(sorted@.len(), |k: int| sorted@[k].1));
    r
}

} // verus!
