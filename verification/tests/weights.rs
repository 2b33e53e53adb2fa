use layoutgen::corpus::{by_frequency, calc_weights, frequency, unshift, weights, Unshift, SHIFT};
use layoutgen::error::Error;
use layoutgen::ngrams::NGrams;
use layoutgen::parser::{bigrams, char_array, characters, options, parse_alphabet};

fn chars(text: &str) -> Vec<char> {
    text.chars().collect()
}

fn counts(entries: &[(&str, u64)]) -> NGrams<2> {
    let mut map = NGrams::<2>::new();
    for (name, count) in entries {
        let key: [char; 2] = chars(name).try_into().unwrap();
        assert_eq!(map.insert(key, *count), None);
    }
    map
}

#[test]
fn capitals_are_typed_with_shift() {
    assert_eq!(unshift(&chars("aBc")), vec!['a', SHIFT, 'B', 'c']);
    assert_eq!(unshift(&chars("AZ")), vec![SHIFT, 'A', SHIFT, 'Z']);
    assert_eq!(unshift(&chars("a1[é")), chars("a1[é"));
    assert_eq!(unshift(&chars("")), Vec::<char>::new());
}

#[test]
fn unshift_walks_character_by_character() {
    let text = chars("Ab");
    let mut walk = Unshift::new(&text);
    assert_eq!(walk.next(), Some(SHIFT));
    assert_eq!(walk.next(), Some('A'));
    assert_eq!(walk.next(), Some('b'));
    assert_eq!(walk.next(), None);
    assert_eq!(walk.next(), None);
}

#[test]
fn neighbours_weigh_four_and_skips_one() {
    let map = calc_weights(&chars("abc"));
    assert!(map.same_counts(&counts(&[("ab", 4), ("bc", 4), ("ac", 1)])));
}

#[test]
fn weights_add_up() {
    // ab ba ab as neighbours, aa bb as skips
    let map = calc_weights(&chars("abab"));
    assert!(map.same_counts(&counts(&[("ab", 8), ("ba", 4), ("aa", 1), ("bb", 1)])));
    let map = calc_weights(&chars("aaa"));
    assert!(map.same_counts(&counts(&[("aa", 9)])));
}

#[test]
fn short_texts_have_no_weights() {
    assert_eq!(calc_weights(&chars("")).len(), 0);
    assert_eq!(calc_weights(&chars("a")).len(), 0);
    assert!(calc_weights(&chars("ab")).same_counts(&counts(&[("ab", 4)])));
}

#[test]
fn weights_of_a_text_count_the_shift() {
    let map = weights("aB");
    let mut expected = NGrams::<2>::new();
    expected.insert(['a', SHIFT], 4);
    expected.insert([SHIFT, 'B'], 4);
    expected.insert(['a', 'B'], 1);
    assert!(map.same_counts(&expected));
}

#[test]
fn characters_of_a_text() {
    assert_eq!(characters("héllo"), vec!['h', 'é', 'l', 'l', 'o']);
    assert_eq!(characters(""), Vec::<char>::new());
}

#[test]
fn char_array_needs_the_exact_length() {
    assert_eq!(char_array::<3>("abc"), Some(['a', 'b', 'c']));
    assert_eq!(char_array::<3>("ab"), None);
    assert_eq!(char_array::<3>("abcd"), None);
    assert_eq!(char_array::<2>("éß"), Some(['é', 'ß']));
    assert_eq!(char_array::<0>(""), Some([]));
}

#[test]
fn alphabet_has_thirty_characters() {
    let text = "abcdefghijklmnopqrstuvwxyz',./";
    let alphabet = parse_alphabet(text).unwrap();
    assert_eq!(alphabet.to_vec(), chars(text));
    assert_eq!(parse_alphabet("abc"), Err(Error::InvalidInput));
    assert_eq!(parse_alphabet("abcdefghijklmnopqrstuvwxyz',./;"), Err(Error::InvalidInput));
}

#[test]
fn bigram_weights_from_entries() {
    let entries = vec![("ab".to_string(), 3), ("ba".to_string(), 0)];
    let map = bigrams(&entries).unwrap();
    assert!(map.same_counts(&counts(&[("ab", 3), ("ba", 0)])));
    assert_eq!(bigrams(&Vec::new()).unwrap().len(), 0);
}

#[test]
fn bigram_names_need_two_characters() {
    assert!(matches!(bigrams(&vec![("abc".to_string(), 3)]), Err(Error::InvalidInput)));
    assert!(matches!(bigrams(&vec![("a".to_string(), 3)]), Err(Error::InvalidInput)));
    assert!(matches!(
        bigrams(&vec![("ab".to_string(), 3), ("".to_string(), 1)]),
        Err(Error::InvalidInput)
    ));
}

#[test]
fn a_bigram_twice_is_refused() {
    let entries = vec![("ab".to_string(), 3), ("cd".to_string(), 1), ("ab".to_string(), 3)];
    assert!(matches!(bigrams(&entries), Err(Error::InvalidInput)));
}

#[test]
fn options_hold_alphabet_and_weights() {
    let entries = vec![("ab".to_string(), 3)];
    let text = "abcdefghijklmnopqrstuvwxyz',./";
    let (alphabet, map) = options(Some(text), &entries).unwrap();
    assert_eq!(alphabet.unwrap().to_vec(), chars(text));
    assert!(map.same_counts(&counts(&[("ab", 3)])));
    let (alphabet, map) = options(None, &entries).unwrap();
    assert_eq!(alphabet, None);
    assert_eq!(map.len(), 1);
    assert!(matches!(options(Some("abc"), &entries), Err(Error::InvalidInput)));
    assert!(matches!(
        options(Some(text), &vec![("abc".to_string(), 3)]),
        Err(Error::InvalidInput)
    ));
}

#[test]
fn frequency_sums_the_pairs_that_hold_a_character() {
    let map = counts(&[("ab", 4), ("ba", 2), ("aa", 1), ("cd", 7)]);
    assert_eq!(frequency(&map, 'a'), 7);
    assert_eq!(frequency(&map, 'b'), 6);
    assert_eq!(frequency(&map, 'c'), 7);
    assert_eq!(frequency(&map, 'x'), 0);
    let huge = counts(&[("ab", u64::MAX), ("ac", u64::MAX)]);
    assert_eq!(frequency(&huge, 'a'), 2 * u64::MAX as u128);
}

#[test]
fn alphabet_is_sorted_by_falling_frequency() {
    let map = counts(&[("ab", 4), ("bc", 2), ("dd", 9), ("ef", 6)]);
    // a: 4, b: 6, c: 2, d: 9, e: 6, f: 6, g: 0
    assert_eq!(
        by_frequency(['a', 'b', 'c', 'd', 'e', 'f', 'g'], &map),
        ['d', 'b', 'e', 'f', 'a', 'c', 'g']
    );
    assert_eq!(by_frequency(['g', 'f', 'e'], &map), ['f', 'e', 'g']);
    assert_eq!(by_frequency::<0>([], &map), []);
}
