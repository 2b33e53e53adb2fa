use layoutgen::analyzer::{Analyzer as Description, AppliedMetric};
use layoutgen::error::Error;
use layoutgen::generation::analysis::analyzer::Analyzer;
use layoutgen::generation::internal::symmetries::Symmetries;
use layoutgen::generation::{generate, optimize, Encoding, Generator, PartialLayout};
use layoutgen::ngrams::NGrams;

type Metric2 = fn([u8; 2]) -> u64;
type Metric3 = fn([u8; 3]) -> u64;

fn distance(keys: [u8; 2]) -> u64 {
    keys[0].abs_diff(keys[1]) as u64
}

fn sfb(keys: [u8; 2]) -> u64 {
    if keys[0] == keys[1] {
        1
    } else {
        0
    }
}

fn zero_before_one(keys: [u8; 2]) -> u64 {
    if keys == [0, 1] {
        1
    } else {
        0
    }
}

fn spread(keys: [u8; 3]) -> u64 {
    keys[0].abs_diff(keys[2]) as u64
}

fn no_links(_: u8) -> Option<u8> {
    None
}

fn chain(key: u8) -> Option<u8> {
    match key {
        2 => Some(1),
        1 => Some(0),
        _ => None,
    }
}

fn circle(key: u8) -> Option<u8> {
    match key {
        0 => Some(1),
        1 => Some(0),
        _ => None,
    }
}

fn bigram_counts(entries: &[([char; 2], u64)]) -> NGrams<2> {
    let mut ngrams = NGrams::new();
    for (ngram, count) in entries {
        ngrams.insert(*ngram, *count);
    }
    ngrams
}

fn applied(ngrams: &str, metric: &str, constraint: Option<u64>, weight: u64) -> AppliedMetric {
    AppliedMetric { ngrams: ngrams.to_string(), metric: metric.to_string(), constraint, weight }
}

fn no_trigrams() -> Analyzer<3, 0, 3> {
    Analyzer::from_tables(Vec::new(), Vec::new(), []).unwrap()
}

fn bigram_analyzer(
    entries: &[([char; 2], u64)],
    metric: Metric2,
    constraint: Option<u64>,
    weight: u64,
) -> Analyzer<3, 1, 2> {
    let chars = Encoding::new(['a', 'b', 'c']).unwrap();
    let keys = Encoding::new([0u8, 1, 2]).unwrap();
    let sets = vec![("text".to_string(), bigram_counts(entries))];
    let metrics: Vec<(String, Metric2)> = vec![("metric".to_string(), metric)];
    let description = Description {
        ngram_sets: &sets,
        metrics: &metrics,
        applied_metrics: [applied("text", "metric", constraint, weight)],
    };
    Analyzer::new(&chars, &keys, &description).unwrap()
}

fn all_found(generator: &mut Generator<1, 0, 3>) -> Vec<([usize; 3], u64)> {
    let mut found = Vec::new();
    while let Some(layout) = generator.next() {
        found.push(layout);
    }
    found
}

fn from_scratch(entries: &[([char; 2], u64)], metric: Metric2, weight: u64, layout: &[usize; 3]) -> u64 {
    let mut sum = 0;
    for (ngram, count) in entries {
        let first = layout[(ngram[0] as u8 - b'a') as usize] as u8;
        let second = layout[(ngram[1] as u8 - b'a') as usize] as u8;
        sum += metric([first, second]) * count;
    }
    sum * weight
}

const TEXT: [([char; 2], u64); 2] = [(['a', 'b'], 5), (['b', 'c'], 2)];

#[test]
fn every_layout_is_visited_depth_first() {
    let bigrams = bigram_analyzer(&TEXT, distance, None, 3);
    let trigrams = no_trigrams();
    let symmetries = Symmetries([None, None, None]);
    let mut generator =
        Generator::new(PartialLayout::new(), &bigrams, &trigrams, &symmetries, u64::MAX);
    assert_eq!(
        all_found(&mut generator),
        vec![
            ([2, 1, 0], 21),
            ([2, 0, 1], 36),
            ([1, 2, 0], 27),
            ([1, 0, 2], 27),
            ([0, 2, 1], 36),
            ([0, 1, 2], 21),
        ]
    );
    assert_eq!(generator.next(), None);
}

#[test]
fn found_layouts_are_permutations() {
    let bigrams = bigram_analyzer(&TEXT, distance, None, 3);
    let trigrams = no_trigrams();
    let symmetries = Symmetries([None, None, None]);
    let mut generator =
        Generator::new(PartialLayout::new(), &bigrams, &trigrams, &symmetries, u64::MAX);
    for (layout, _) in all_found(&mut generator) {
        let mut keys = layout.to_vec();
        keys.sort();
        assert_eq!(keys, vec![0, 1, 2]);
    }
}

#[test]
fn reported_sums_equal_sums_from_scratch() {
    let bigrams = bigram_analyzer(&TEXT, distance, None, 3);
    let trigrams = no_trigrams();
    let symmetries = Symmetries([None, None, None]);
    let mut generator =
        Generator::new(PartialLayout::new(), &bigrams, &trigrams, &symmetries, u64::MAX);
    let found = all_found(&mut generator);
    assert_eq!(found.len(), 6);
    for (layout, total) in found {
        assert_eq!(total, from_scratch(&TEXT, distance, 3, &layout));
    }
}

#[test]
fn the_bound_cuts_layouts_and_branches() {
    let bigrams = bigram_analyzer(&TEXT, distance, None, 3);
    let trigrams = no_trigrams();
    let symmetries = Symmetries([None, None, None]);
    let mut generator = Generator::new(PartialLayout::new(), &bigrams, &trigrams, &symmetries, 30);
    assert_eq!(
        all_found(&mut generator),
        vec![([2, 1, 0], 21), ([1, 2, 0], 27), ([1, 0, 2], 27), ([0, 1, 2], 21)]
    );
}

#[test]
fn a_bound_of_zero_finds_nothing() {
    let bigrams = bigram_analyzer(&TEXT, distance, None, 3);
    let trigrams = no_trigrams();
    let symmetries = Symmetries([None, None, None]);
    let mut generator = Generator::new(PartialLayout::new(), &bigrams, &trigrams, &symmetries, 0);
    assert_eq!(generator.next(), None);
}

#[test]
fn every_layout_found_is_better_than_the_last() {
    let bigrams = bigram_analyzer(&[(['a', 'b'], 5), (['a', 'c'], 1)], distance, None, 1);
    let trigrams = no_trigrams();
    let symmetries = Symmetries([None, None, None]);
    let mut generator =
        Generator::new(PartialLayout::new(), &bigrams, &trigrams, &symmetries, u64::MAX);
    let mut found = Vec::new();
    while let Some((layout, total)) = generator.next() {
        generator.set_max(total);
        found.push((layout, total));
    }
    // a on 2, b on 1, c on 0 costs 5 + 2; a on 1 with b and c beside it costs 5 + 1
    assert_eq!(found, vec![([2, 1, 0], 7), ([1, 2, 0], 6)]);
    for pair in found.windows(2) {
        assert!(pair[1].1 < pair[0].1);
    }
}

#[test]
fn a_constraint_cuts_without_weight() {
    // a on key 0 and b on key 1 together break the constraint, though the
    // metric adds nothing to the weighted sum
    let bigrams = bigram_analyzer(&[(['a', 'b'], 5)], zero_before_one, Some(0), 0);
    let trigrams = no_trigrams();
    let symmetries = Symmetries([None, None, None]);
    let mut generator =
        Generator::new(PartialLayout::new(), &bigrams, &trigrams, &symmetries, u64::MAX);
    let found = all_found(&mut generator);
    assert_eq!(
        found,
        vec![([2, 1, 0], 0), ([2, 0, 1], 0), ([1, 2, 0], 0), ([1, 0, 2], 0), ([0, 2, 1], 0)]
    );
    for (layout, total) in found {
        assert!(!(layout[0] == 0 && layout[1] == 1));
        assert_eq!(total, 0);
    }
}

#[test]
fn linked_keys_are_filled_in_order() {
    let bigrams = bigram_analyzer(&TEXT, distance, None, 3);
    let trigrams = no_trigrams();
    // key 1 waits for key 0
    let symmetries = Symmetries([None, Some(0), None]);
    let mut generator =
        Generator::new(PartialLayout::new(), &bigrams, &trigrams, &symmetries, u64::MAX);
    let found = all_found(&mut generator);
    assert_eq!(found, vec![([2, 0, 1], 36), ([0, 2, 1], 36), ([0, 1, 2], 21)]);
    for (layout, _) in found {
        let zero = layout.iter().position(|key| *key == 0).unwrap();
        let one = layout.iter().position(|key| *key == 1).unwrap();
        assert!(zero < one);
    }
}

#[test]
fn same_finger_bigram_scores_nothing_on_distinct_keys() {
    let chars = Encoding::new(['a', 'b', 'c']).unwrap();
    let keys = Encoding::new([0u8, 1, 2]).unwrap();
    let bigrams = bigram_analyzer(&[(['a', 'b'], 5)], sfb, None, 1);
    let trigrams = no_trigrams();
    let symmetries = Symmetries([None, None, None]);
    let (pairs, score) =
        optimize(&chars, &keys, &bigrams, &trigrams, &symmetries, 10).unwrap();
    assert_eq!(score, 0);
    assert_eq!(pairs.len(), 3);
    assert_eq!(pairs[0].1, 'a');
    assert_eq!(pairs[1].1, 'b');
    assert_eq!(pairs[2].1, 'c');
    assert_ne!(pairs[0].0, pairs[1].0);
}

#[test]
fn optimize_returns_the_last_layout_found() {
    let chars = Encoding::new(['a', 'b', 'c']).unwrap();
    let keys = Encoding::new([10u8, 11, 12]).unwrap();
    let bigrams = bigram_analyzer(&[(['a', 'b'], 5), (['a', 'c'], 1)], distance, None, 1);
    let trigrams = no_trigrams();
    let symmetries = Symmetries([None, None, None]);
    let found = optimize(&chars, &keys, &bigrams, &trigrams, &symmetries, u64::MAX);
    assert_eq!(found, Some((vec![(11, 'a'), (12, 'b'), (10, 'c')], 6)));
    assert_eq!(optimize(&chars, &keys, &bigrams, &trigrams, &symmetries, 6), None);
    assert_eq!(
        optimize(&chars, &keys, &bigrams, &trigrams, &symmetries, 7),
        Some((vec![(11, 'a'), (12, 'b'), (10, 'c')], 6))
    );
}

fn descriptions<'a>(
    sets2: &'a Vec<(String, NGrams<2>)>,
    metrics2: &'a Vec<(String, Metric2)>,
    sets3: &'a Vec<(String, NGrams<3>)>,
    metrics3: &'a Vec<(String, Metric3)>,
    name: &str,
) -> (Description<'a, Metric2, 1, 2>, Description<'a, Metric3, 1, 3>) {
    (
        Description {
            ngram_sets: sets2,
            metrics: metrics2,
            applied_metrics: [applied("text", name, None, 1)],
        },
        Description {
            ngram_sets: sets3,
            metrics: metrics3,
            applied_metrics: [applied("text", "spread", None, 2)],
        },
    )
}

fn trigram_counts(count: u64) -> NGrams<3> {
    let mut ngrams = NGrams::new();
    ngrams.insert(['a', 'b', 'c'], count);
    ngrams
}

#[test]
fn generate_finds_the_best_layout() {
    let sets2 = vec![("text".to_string(), bigram_counts(&[(['a', 'b'], 5), (['a', 'c'], 1)]))];
    let metrics2: Vec<(String, Metric2)> = vec![("distance".to_string(), distance)];
    let sets3 = vec![("text".to_string(), trigram_counts(1))];
    let metrics3: Vec<(String, Metric3)> = vec![("spread".to_string(), spread)];
    let (bigrams, trigrams) = descriptions(&sets2, &metrics2, &sets3, &metrics3, "distance");
    let found = generate(['a', 'b', 'c'], [0u8, 1, 2], &bigrams, &trigrams, &no_links, u64::MAX);
    // a in the middle: ab costs 5, ac costs 1, and a to c is spread over 1, twice
    assert_eq!(found, Ok(Some((vec![(1, 'a'), (0, 'b'), (2, 'c')], 8))));
    let none = generate(['a', 'b', 'c'], [0u8, 1, 2], &bigrams, &trigrams, &no_links, 8);
    assert_eq!(none, Ok(None));
}

#[test]
fn generate_keeps_to_the_links() {
    let sets2 = vec![("text".to_string(), bigram_counts(&[(['a', 'b'], 5), (['a', 'c'], 1)]))];
    let metrics2: Vec<(String, Metric2)> = vec![("distance".to_string(), distance)];
    let sets3 = vec![("text".to_string(), trigram_counts(1))];
    let metrics3: Vec<(String, Metric3)> = vec![("spread".to_string(), spread)];
    let (bigrams, trigrams) = descriptions(&sets2, &metrics2, &sets3, &metrics3, "distance");
    let found = generate(['a', 'b', 'c'], [0u8, 1, 2], &bigrams, &trigrams, &chain, u64::MAX);
    // the only layout: a on 0, b on 1, c on 2
    assert_eq!(found, Ok(Some((vec![(0, 'a'), (1, 'b'), (2, 'c')], 5 + 2 + 2 * 2))));
}

#[test]
fn generate_refuses_what_cannot_be_searched() {
    let sets2 = vec![("text".to_string(), bigram_counts(&[(['a', 'b'], 5)]))];
    let metrics2: Vec<(String, Metric2)> = vec![("distance".to_string(), distance)];
    let sets3 = vec![("text".to_string(), trigram_counts(1))];
    let metrics3: Vec<(String, Metric3)> = vec![("spread".to_string(), spread)];
    let (bigrams, trigrams) = descriptions(&sets2, &metrics2, &sets3, &metrics3, "distance");
    assert_eq!(
        generate(['a', 'b', 'a'], [0u8, 1, 2], &bigrams, &trigrams, &no_links, 10),
        Err(Error::InvalidInput)
    );
    assert_eq!(
        generate(['a', 'b', 'c'], [0u8, 1, 1], &bigrams, &trigrams, &no_links, 10),
        Err(Error::InvalidInput)
    );
    assert_eq!(
        generate(['a', 'b', 'c'], [0u8, 1, 2], &bigrams, &trigrams, &circle, 10),
        Err(Error::CycleDetected)
    );
    let (unknown, trigrams) = descriptions(&sets2, &metrics2, &sets3, &metrics3, "sfb");
    assert_eq!(
        generate(['a', 'b', 'c'], [0u8, 1, 2], &unknown, &trigrams, &no_links, 10),
        Err(Error::UnknownName)
    );
}

#[test]
fn generate_refuses_weights_that_are_too_large() {
    let sets2 = vec![("text".to_string(), bigram_counts(&[(['a', 'b'], u64::MAX / 2)]))];
    let metrics2: Vec<(String, Metric2)> = vec![("distance".to_string(), distance)];
    let sets3 = vec![("text".to_string(), trigram_counts(1))];
    let metrics3: Vec<(String, Metric3)> = vec![("spread".to_string(), spread)];
    let (bigrams, trigrams) = descriptions(&sets2, &metrics2, &sets3, &metrics3, "distance");
    // peak 2 times the mass fits, but not together with the trigrams
    assert_eq!(
        generate(['a', 'b', 'c'], [0u8, 1, 2], &bigrams, &trigrams, &no_links, 10),
        Err(Error::Overflow)
    );
}

#[test]
fn one_key_without_metrics_is_found() {
    let sets2: Vec<(String, NGrams<2>)> = Vec::new();
    let metrics2: Vec<(String, Metric2)> = Vec::new();
    let sets3: Vec<(String, NGrams<3>)> = Vec::new();
    let metrics3: Vec<(String, Metric3)> = Vec::new();
    let bigrams = Description { ngram_sets: &sets2, metrics: &metrics2, applied_metrics: [] };
    let trigrams = Description { ngram_sets: &sets3, metrics: &metrics3, applied_metrics: [] };
    assert_eq!(
        generate(['a'], [0u8], &bigrams, &trigrams, &no_links, 1),
        Ok(Some((vec![(0, 'a')], 0)))
    );
    assert_eq!(generate(['a'], [0u8], &bigrams, &trigrams, &no_links, 0), Ok(None));
}

#[test]
fn a_constraint_of_zero_decides_between_two_layouts() {
    let mut counts = NGrams::new();
    counts.insert(['a', 'b'], 1);
    let sets2 = vec![("text".to_string(), counts)];
    let metrics2: Vec<(String, Metric2)> = vec![("metric".to_string(), zero_before_one)];
    let sets3: Vec<(String, NGrams<3>)> = Vec::new();
    let metrics3: Vec<(String, Metric3)> = Vec::new();
    let bigrams = Description {
        ngram_sets: &sets2,
        metrics: &metrics2,
        applied_metrics: [applied("text", "metric", Some(0), 0)],
    };
    let trigrams = Description { ngram_sets: &sets3, metrics: &metrics3, applied_metrics: [] };
    assert_eq!(
        generate(['a', 'b'], [0u8, 1], &bigrams, &trigrams, &no_links, 10),
        Ok(Some((vec![(1, 'a'), (0, 'b')], 0)))
    );
}
