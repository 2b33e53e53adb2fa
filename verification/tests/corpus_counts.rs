use layoutgen::corpus_data::CorpusData;
use layoutgen::error::Error;
use layoutgen::ngrams::NGrams;

fn chars(text: &str) -> Vec<char> {
    text.chars().collect()
}

fn built<const N: usize>(text: &str) -> CorpusData<N> {
    let mut data = CorpusData::<N>::new();
    assert_eq!(data.add(&chars(text)), Ok(()));
    data
}

fn counts<const N: usize>(entries: &[(&str, u64)]) -> NGrams<N> {
    let mut map = NGrams::<N>::new();
    for (name, count) in entries {
        let key: [char; N] = chars(name).try_into().unwrap();
        assert_eq!(map.insert(key, *count), None);
    }
    map
}

#[test]
fn new_corpus_is_empty() {
    let data = CorpusData::<3>::new();
    assert_eq!(data.ngram_counts().len(), 0);
    assert_eq!(data.tail_counts().len(), 0);
}

#[test]
fn trigrams_of_abcab() {
    let data = built::<3>("abcab");
    assert!(data.ngram_counts().same_counts(&counts::<3>(&[("abc", 1), ("bca", 1), ("cab", 1)])));
    assert!(data.tail_counts().same_counts(&counts::<3>(&[("cab", 1)])));
}

#[test]
fn bigrams_of_abcab_from_trigrams() {
    // the inner windows of the tail are taken from position 1 up to, but
    // without, N - K, so the bigram at the very end of the text is left out
    let data = built::<3>("abcab");
    let bigrams = data.ngrams::<2>();
    assert!(bigrams.same_counts(&counts::<2>(&[("ab", 1), ("bc", 1), ("ca", 1)])));
}

#[test]
fn unigrams_of_abcab_from_trigrams() {
    // positions 0, 1, 2 from the heads, position 3 from inside the tail
    let data = built::<3>("abcab");
    let unigrams = data.ngrams::<1>();
    assert!(unigrams.same_counts(&counts::<1>(&[("a", 2), ("b", 1), ("c", 1)])));
}

#[test]
fn projection_to_the_same_length_keeps_the_counts() {
    let data = built::<3>("abcabc");
    let same = data.ngrams::<3>();
    assert!(same.same_counts(&counts::<3>(&[("abc", 2), ("bca", 1), ("cab", 1)])));
    assert!(same.same_counts(data.ngram_counts()));
}

#[test]
fn corpus_ab_as_bigrams() {
    let data = built::<2>("ab");
    assert!(data.ngram_counts().same_counts(&counts::<2>(&[("ab", 1)])));
    assert!(data.tail_counts().same_counts(&counts::<2>(&[("ab", 1)])));
    let unigrams = data.ngrams::<1>();
    assert!(unigrams.same_counts(&counts::<1>(&[("a", 1)])));
}

#[test]
fn repeated_ngrams_are_counted() {
    let data = built::<2>("aaaa");
    assert_eq!(data.ngram_counts().occurrences(&['a', 'a']), 3);
    assert_eq!(data.tail_counts().occurrences(&['a', 'a']), 1);
    assert_eq!(data.ngram_counts().get(&['a', 'b']), None);
}

#[test]
fn text_shorter_than_n_is_refused() {
    let mut data = built::<3>("abcab");
    assert_eq!(data.add(&chars("ab")), Err(Error::CorpusTooShort));
    assert_eq!(data.add(&chars("")), Err(Error::CorpusTooShort));
    assert!(data.ngram_counts().same_counts(&counts::<3>(&[("abc", 1), ("bca", 1), ("cab", 1)])));
    assert!(data.tail_counts().same_counts(&counts::<3>(&[("cab", 1)])));
}

#[test]
fn text_of_exactly_n_characters() {
    let data = built::<3>("abc");
    assert!(data.ngram_counts().same_counts(&counts::<3>(&[("abc", 1)])));
    assert!(data.tail_counts().same_counts(&counts::<3>(&[("abc", 1)])));
}

#[test]
fn two_texts_keep_two_tails() {
    let mut data = built::<2>("abc");
    assert_eq!(data.add(&chars("bcd")), Ok(()));
    assert!(data.ngram_counts().same_counts(&counts::<2>(&[("ab", 1), ("bc", 2), ("cd", 1)])));
    assert!(data.tail_counts().same_counts(&counts::<2>(&[("bc", 1), ("cd", 1)])));
}

#[test]
fn append_sums_counts() {
    let mut left = built::<2>("abc");
    let right = built::<2>("bcd");
    left.append(&right);
    assert!(left.ngram_counts().same_counts(&counts::<2>(&[("ab", 1), ("bc", 2), ("cd", 1)])));
    assert!(left.tail_counts().same_counts(&counts::<2>(&[("bc", 1), ("cd", 1)])));
}

#[test]
fn append_is_commutative() {
    let a = built::<2>("abcab");
    let b = built::<2>("cabba");
    let mut ab = a.clone();
    ab.append(&b);
    let mut ba = b.clone();
    ba.append(&a);
    assert!(ab.ngram_counts().same_counts(ba.ngram_counts()));
    assert!(ab.tail_counts().same_counts(ba.tail_counts()));
}

#[test]
fn append_is_associative() {
    let a = built::<2>("abcab");
    let b = built::<2>("cabba");
    let c = built::<2>("bab");
    let mut left = a.clone();
    left.append(&b);
    left.append(&c);
    let mut bc = b.clone();
    bc.append(&c);
    let mut right = a.clone();
    right.append(&bc);
    assert!(left.ngram_counts().same_counts(right.ngram_counts()));
    assert!(left.tail_counts().same_counts(right.tail_counts()));
}

#[test]
fn append_equals_adding_both_texts() {
    let mut both = built::<3>("abcab");
    assert_eq!(both.add(&chars("cabba")), Ok(()));
    let mut sum = built::<3>("abcab");
    sum.append(&built::<3>("cabba"));
    assert!(both.ngram_counts().same_counts(sum.ngram_counts()));
    assert!(both.tail_counts().same_counts(sum.tail_counts()));
}

#[test]
fn into_ngrams_hands_out_the_counts() {
    let data = built::<2>("abab");
    let ngrams = data.into_ngrams();
    assert!(ngrams.same_counts(&counts::<2>(&[("ab", 2), ("ba", 1)])));
}

#[test]
fn ngram_map_insert_and_bump() {
    let mut map = NGrams::<2>::new();
    assert_eq!(map.insert(['a', 'b'], 3), None);
    assert_eq!(map.insert(['a', 'b'], 5), Some(3));
    map.bump(['a', 'b'], 2);
    map.bump(['b', 'a'], 1);
    assert_eq!(map.get(&['a', 'b']), Some(7));
    assert_eq!(map.get(&['b', 'a']), Some(1));
    assert_eq!(map.occurrences(&['c', 'c']), 0);
    assert_eq!(map.len(), 2);
    assert_eq!(map.ngram_at(0), ['a', 'b']);
    assert_eq!(map.count_at(1), 1);
}

#[test]
fn ngram_maps_differ_by_a_zero_entry() {
    let mut with_zero = NGrams::<1>::new();
    with_zero.insert(['a'], 0);
    let without = NGrams::<1>::new();
    assert!(with_zero.covers(&without));
    assert!(!without.covers(&with_zero));
    assert!(!with_zero.same_counts(&without));
}

#[test]
fn data_from_counts_needs_every_tail_among_the_ngrams() {
    let data =
        CorpusData::from_counts(counts::<2>(&[("ab", 2), ("bc", 1)]), counts::<2>(&[("ab", 1)]))
            .unwrap();
    assert_eq!(data.ngram_counts().occurrences(&['a', 'b']), 2);
    assert_eq!(data.tail_counts().occurrences(&['a', 'b']), 1);
    assert!(matches!(
        CorpusData::from_counts(counts::<2>(&[("ab", 2)]), counts::<2>(&[("ab", 3)])),
        Err(Error::InvalidInput)
    ));
    assert!(matches!(
        CorpusData::from_counts(counts::<2>(&[("ab", 2)]), counts::<2>(&[("bc", 1)])),
        Err(Error::InvalidInput)
    ));
    assert!(CorpusData::from_counts(counts::<2>(&[]), counts::<2>(&[("bc", 0)])).is_ok());
}

#[test]
fn default_data_is_empty() {
    let data = CorpusData::<2>::default();
    assert_eq!(data.ngram_counts().len(), 0);
    assert_eq!(data.tail_counts().len(), 0);
    assert_eq!(NGrams::<3>::default().len(), 0);
}

#[test]
fn total_sums_all_counts() {
    assert_eq!(counts::<2>(&[("ab", 2), ("bc", 5)]).total(), Some(7));
    assert_eq!(NGrams::<2>::new().total(), Some(0));
    assert_eq!(counts::<2>(&[("ab", u64::MAX), ("bc", 1)]).total(), None);
    assert_eq!(counts::<2>(&[("ab", u64::MAX), ("bc", 0)]).total(), Some(u64::MAX));
}

#[test]
fn entries_are_kept_in_dictionary_order() {
    let mut map = NGrams::<2>::new();
    for name in ["mb", "ab", "zz", "ma", "aa", "ba", "az"] {
        let key: [char; 2] = chars(name).try_into().unwrap();
        assert_eq!(map.insert(key, name.len() as u64), None);
    }
    let listed: Vec<String> =
        (0..map.len()).map(|i| map.ngram_at(i).iter().collect::<String>()).collect();
    assert_eq!(listed, vec!["aa", "ab", "az", "ba", "ma", "mb", "zz"]);
    for name in ["mb", "ab", "zz", "ma", "aa", "ba", "az"] {
        let key: [char; 2] = chars(name).try_into().unwrap();
        assert_eq!(map.get(&key), Some(2));
        map.bump(key, 1);
        assert_eq!(map.get(&key), Some(3));
    }
    assert_eq!(map.get(&['a', 'c']), None);
    assert_eq!(map.get(&['z', 'a']), None);
    assert_eq!(map.len(), 7);
}
