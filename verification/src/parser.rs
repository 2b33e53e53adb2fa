use crate::corpus_data::window;
use crate::error::Error;
use crate::ngrams::NGrams;
use vstd::prelude::*;

verus! {

/// The characters of `text`.
pub fn characters(text: &str) -> (r: Vec<char>)
    ensures
        r@ == text@,
{
    let mut r: Vec<char> = Vec::new();
    for c in it: text.chars()
        invariant
            r@ == it.seq().take(it.index() as int),
            it.seq() == text@,
    {
        r.push(c);
    }
    r
}

/// The characters of `text` as an array, when there are exactly `N`.
pub fn char_array<const N: usize>(text: &str) -> (r: Option<[char; N]>)
    ensures
        match r {
            Some(array) => array@ == text@,
            None => text@.len() != N,
        },
{
    let chars = characters(text);
    if chars.len() != N {
        return None;
    }
    let array = window::<N>(chars.as_slice(), 0);
    assert(text@.subrange(0, N as int) =~= text@);
    Some(array)
}

/// An alphabet of 30 characters. Fails with [`Error::InvalidInput`] when
/// `text` has more or fewer.
pub fn parse_alphabet(text: &str) -> (r: Result<[char; 30], Error>)
    ensures
        match r {
            Ok(alphabet) => alphabet@ == text@,
            Err(err) => err == Error::InvalidInput && text@.len() != 30,
        },
{
    match char_array::<30>(text) {
        Some(alphabet) => Ok(alphabet),
        None => Err(Error::InvalidInput),
    }
}

/// Every name in `entries` has two characters, and no name occurs twice.
pub open spec fn well_keyed(entries: Seq<(String, u64)>) -> bool {
    &&& forall|i: int| 0 <= i < entries.len() ==> (#[trigger] entries[i]).0@.len() == 2
    &&& forall|i: int, j: int| 0 <= i < j < entries.len() ==> entries[i].0@ != entries[j].0@
}

/// `map` holds for every entry its weight under its name, and nothing
/// else.
pub open spec fn holds(map: Map<Seq<char>, nat>, entries: Seq<(String, u64)>) -> bool {
    &&& forall|i: int|
        0 <= i < entries.len() ==> map.dom().contains((#[trigger] entries[i]).0@) && map[entries[i].0@]
            == entries[i].1
    &&& forall|k: Seq<char>|
        map.dom().contains(k) ==> exists|i: int|
            0 <= i < entries.len() && (#[trigger] entries[i]).0@ == k
}

/// The weights of bigrams from entries of a name and a weight. Fails with
/// [`Error::InvalidInput`] when a name has more or fewer than two
/// characters or occurs twice.
pub fn bigrams(entries: &Vec<(String, u64)>) -> (r: Result<NGrams<2>, Error>)
    ensures
        r is Ok <==> well_keyed(entries@),
        r matches Ok(weights) ==> weights.wf() && holds(weights@, entries@),
        r matches Err(err) ==> err == Error::InvalidInput,
{
    let mut weights: NGrams<2> = NGrams::new();
    let mut i: usize = 0;
    while i < entries.len()
        invariant
            i <= entries@.len(),
            weights.wf(),
            well_keyed(entries@.take(i as int)),
            holds(weights@, entries@.take(i as int)),
        decreases entries@.len() - i,
    {
        let ghost done = entries@.take(i as int);
        let ghost more = entries@.take(i + 1);
        let bigram = match char_array::<2>(entries[i].0.as_str()) {
            Some(bigram) => bigram,
            None => {
                return Err(Error::InvalidInput);
            },
        };
        if weights.insert(bigram, entries[i].1).is_some() {
            proof {
                let j = choose|j: int| 0 <= j < done.len() && (#[trigger] done[j]).0@ == bigram@;
                assert(entries@[j] == done[j]);
            }
            return Err(Error::InvalidInput);
        }
        proof {
            assert(more[i as int] == entries@[i as int]);
            assert forall|a: int| 0 <= a < more.len() implies (#[trigger] more[a]).0@.len() == 2 by {
                if a < i {
                    assert(more[a] == done[a]);
                }
            }
            assert forall|a: int, b: int| 0 <= a < b < more.len() implies more[a].0@
                != more[b].0@ by {
                assert(more[a] == done[a]);
                if b < i {
                    assert(more[b] == done[b]);
                }
            }
            assert forall|a: int| 0 <= a < more.len() implies weights@.dom().contains(
                (#[trigger] more[a]).0@,
            ) && weights@[more[a].0@] == more[a].1 by {
                if a < i {
                    assert(more[a] == done[a]);
                }
            }
            assert forall|k: Seq<char>| weights@.dom().contains(k) implies exists|a: int|
                0 <= a < more.len() && (#[trigger] more[a]).0@ == k by {
                if k == bigram@ {
                    assert(more[i as int].0@ == k);
                } else {
                    let a = choose|a: int| 0 <= a < done.len() && (#[trigger] done[a]).0@ == k;
                    assert(more[a] == done[a]);
                }
            }
        }
        i += 1;
    }
    assert(entries@.take(i as int) =~= entries@);
    Ok(weights)
}

/// The alphabet, if one is given, and the weights of the bigrams, from
/// their textual parts. Fails with [`Error::InvalidInput`] when the
/// alphabet has more or fewer than 30 characters, or when the name of a
/// bigram has more or fewer than two characters or occurs twice.
pub fn options(alphabet: Option<&str>, entries: &Vec<(String, u64)>) -> (r: Result<
    (Option<[char; 30]>, NGrams<2>),
    Error,
>)
    ensures
        r is Ok <==> (alphabet matches Some(text) ==> text@.len() == 30) && well_keyed(entries@),
        r matches Ok((letters, weights)) ==> {
            &&& weights.wf()
            &&& holds(weights@, entries@)
            &&& match alphabet {
                Some(text) => letters matches Some(array) && array@ == text@,
                None => letters is None,
            }
        },
        r matches Err(err) ==> err == Error::InvalidInput,
{
    let letters = match alphabet {
        Some(text) => match parse_alphabet(text) {
            Ok(letters) => Some(letters),
            Err(err) => {
                return Err(err);
            },
        },
        None => None,
    };
    match bigrams(entries) {
        Ok(weights) => Ok((letters, weights)),
        Err(err) => Err(err),
    }
}

} // verus!
