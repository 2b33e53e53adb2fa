use layoutgen::analyzer::{Analyzer as Description, AppliedMetric};
use layoutgen::error::Error;
use layoutgen::generation::analysis::analyzer::Analyzer;
use layoutgen::generation::analysis::{Indexes, NDArray, SparseTensor};
use layoutgen::generation::internal::symmetries::Symmetries;
use layoutgen::generation::{Encoding, PartialLayout};
use layoutgen::ngrams::NGrams;

type Metric2 = fn([u8; 2]) -> u64;

fn distance(keys: [u8; 2]) -> u64 {
    keys[0].abs_diff(keys[1]) as u64
}

fn same_key(keys: [u8; 2]) -> u64 {
    if keys[0] == keys[1] {
        1
    } else {
        0
    }
}

fn weight_of(ngram: [char; 2]) -> u64 {
    match ngram {
        ['a', 'b'] => 5,
        ['b', 'c'] => 2,
        ['c', 'c'] => 7,
        _ => 0,
    }
}

fn bigram_counts() -> NGrams<2> {
    let mut ngrams = NGrams::new();
    ngrams.insert(['a', 'b'], 5);
    ngrams.insert(['b', 'c'], 2);
    ngrams
}

fn applied(ngrams: &str, metric: &str, constraint: Option<u64>, weight: u64) -> AppliedMetric {
    AppliedMetric { ngrams: ngrams.to_string(), metric: metric.to_string(), constraint, weight }
}

#[test]
fn indexes_of_one_component() {
    let mut iter = Indexes::<1>::new(3);
    assert_eq!(iter.next(), Some([0]));
    assert_eq!(iter.next(), Some([1]));
    assert_eq!(iter.next(), Some([2]));
    assert_eq!(iter.next(), None);
    assert_eq!(iter.next(), None);
}

#[test]
fn indexes_below_zero_are_none() {
    let mut iter = Indexes::<2>::new(0);
    assert_eq!(iter.next(), None);
}

#[test]
fn indexes_without_components_are_one_tuple() {
    let mut iter = Indexes::<0>::new(5);
    assert_eq!(iter.next(), Some([]));
    assert_eq!(iter.next(), None);
}

#[test]
fn dense_table_holds_the_metric_of_every_tuple() {
    let keys = Encoding::new([10u8, 13, 11]).unwrap();
    let metric: Metric2 = distance;
    let table = NDArray::<3, 2>::new(&keys, &metric);
    assert_eq!(table.get([0, 0]), 0);
    assert_eq!(table.get([0, 1]), 3);
    assert_eq!(table.get([1, 0]), 3);
    assert_eq!(table.get([1, 2]), 2);
    assert_eq!(table.get([2, 0]), 1);
    assert_eq!(table.max_value(), 3);
}

#[test]
fn dense_table_of_three_components() {
    let keys = Encoding::new([1u8, 2]).unwrap();
    let table = NDArray::<2, 3>::new(&keys, &|k: [u8; 3]| {
        100 * k[0] as u64 + 10 * k[1] as u64 + k[2] as u64
    });
    assert_eq!(table.get([0, 0, 0]), 111);
    assert_eq!(table.get([0, 1, 0]), 121);
    assert_eq!(table.get([1, 0, 1]), 212);
    assert_eq!(table.get([1, 1, 1]), 222);
    assert_eq!(table.max_value(), 222);
}

#[test]
fn sparse_tensor_sorts_tuples_by_their_top() {
    let chars = Encoding::new(['a', 'b', 'c']).unwrap();
    let tensor = SparseTensor::<3, 2>::new(&chars, &weight_of);
    assert_eq!(tensor.bucket_len(0), 0);
    assert_eq!(tensor.bucket_len(1), 1);
    assert_eq!(tensor.entry(1, 0), ([0, 1], 5));
    assert_eq!(tensor.bucket_len(2), 2);
    assert_eq!(tensor.entry(2, 0), ([1, 2], 2));
    assert_eq!(tensor.entry(2, 1), ([2, 2], 7));
    assert_eq!(tensor.total(), Some(14));
}

#[test]
fn sparse_tensor_total_reports_overflow() {
    let chars = Encoding::new(['a', 'b']).unwrap();
    let tensor = SparseTensor::<2, 2>::new(&chars, &|_: [char; 2]| u64::MAX / 2);
    assert_eq!(tensor.total(), None);
}

#[test]
fn names_are_looked_up() {
    let sets = vec![("text".to_string(), bigram_counts()), ("text".to_string(), NGrams::new())];
    let metrics: Vec<(String, Metric2)> =
        vec![("distance".to_string(), distance), ("sfb".to_string(), same_key)];
    let description = Description {
        ngram_sets: &sets,
        metrics: &metrics,
        applied_metrics: [applied("text", "sfb", None, 1)],
    };
    assert_eq!(description.find_set(&"text".to_string()), Some(0));
    assert_eq!(description.find_set(&"other".to_string()), None);
    assert_eq!(description.find_metric(&"sfb".to_string()), Some(1));
    assert_eq!(description.find_metric(&"".to_string()), None);
    assert!(description.check_names());
}

#[test]
fn unknown_names_are_refused() {
    let chars = Encoding::new(['a', 'b', 'c']).unwrap();
    let keys = Encoding::new([0u8, 1, 2]).unwrap();
    let sets = vec![("text".to_string(), bigram_counts())];
    let metrics: Vec<(String, Metric2)> = vec![("distance".to_string(), distance)];
    let no_set = Description {
        ngram_sets: &sets,
        metrics: &metrics,
        applied_metrics: [applied("texts", "distance", None, 1)],
    };
    assert!(!no_set.check_names());
    assert!(matches!(Analyzer::<3, 1, 2>::new(&chars, &keys, &no_set), Err(Error::UnknownName)));
    let no_metric = Description {
        ngram_sets: &sets,
        metrics: &metrics,
        applied_metrics: [applied("text", "distance", None, 1), applied("text", "sfb", None, 1)],
    };
    assert!(matches!(
        Analyzer::<3, 2, 2>::new(&chars, &keys, &no_metric),
        Err(Error::UnknownName)
    ));
}

#[test]
fn weights_that_are_too_large_are_refused() {
    let chars = Encoding::new(['a', 'b', 'c']).unwrap();
    let keys = Encoding::new([0u8, 1, 2]).unwrap();
    let mut huge = NGrams::new();
    huge.insert(['a', 'b'], u64::MAX);
    let sets = vec![("text".to_string(), huge)];
    let metrics: Vec<(String, Metric2)> =
        vec![("distance".to_string(), distance), ("sfb".to_string(), same_key)];
    // the peak of the distance is 2, so the cap is twice the mass
    let doubled = Description {
        ngram_sets: &sets,
        metrics: &metrics,
        applied_metrics: [applied("text", "distance", None, 0)],
    };
    assert!(matches!(Analyzer::<3, 1, 2>::new(&chars, &keys, &doubled), Err(Error::Overflow)));
    // the peak of this metric is 1, but the weight doubles the sum
    let weighted = Description {
        ngram_sets: &sets,
        metrics: &metrics,
        applied_metrics: [applied("text", "sfb", None, 2)],
    };
    assert!(matches!(Analyzer::<3, 1, 2>::new(&chars, &keys, &weighted), Err(Error::Overflow)));
    let fitting = Description {
        ngram_sets: &sets,
        metrics: &metrics,
        applied_metrics: [applied("text", "sfb", None, 1)],
    };
    let analyzer = Analyzer::<3, 1, 2>::new(&chars, &keys, &fitting).unwrap();
    assert_eq!(analyzer.capacity(), u64::MAX);
}

#[test]
fn scores_grow_with_every_character() {
    let chars = Encoding::new(['a', 'b', 'c']).unwrap();
    let keys = Encoding::new([0u8, 1, 2]).unwrap();
    let sets = vec![("text".to_string(), bigram_counts())];
    let metrics: Vec<(String, Metric2)> =
        vec![("distance".to_string(), distance), ("sfb".to_string(), same_key)];
    let description = Description {
        ngram_sets: &sets,
        metrics: &metrics,
        applied_metrics: [applied("text", "distance", Some(10), 3), applied("text", "sfb", None, 1)],
    };
    let analyzer = Analyzer::<3, 2, 2>::new(&chars, &keys, &description).unwrap();
    // peak 2 times mass 7 times weight 3, plus peak 1 times mass 7
    assert_eq!(analyzer.capacity(), 49);
    let symmetries = Symmetries([None, None, None]);
    let mut score = analyzer.init_score();
    assert_eq!(score, [0, 0]);
    // a on key 2
    let root = PartialLayout::<3>::new();
    let mut first = root.children(&symmetries);
    first.next();
    first.next();
    let a = first.next().unwrap();
    assert_eq!(a.as_ref(), [2]);
    assert!(analyzer.score(&a, &mut score));
    assert_eq!(score, [0, 0]);
    // b on key 0: ab scores 5 times 2
    let mut second = a.children(&symmetries);
    let ab = second.next().unwrap();
    assert_eq!(ab.as_ref(), [2, 0]);
    assert!(analyzer.score(&ab, &mut score));
    assert_eq!(score, [10, 0]);
    assert_eq!(analyzer.weighted_sum(&score), 30);
    // c on key 1: bc scores 2 times 1, which breaks the constraint of 10
    let mut third = ab.children(&symmetries);
    let abc = third.next().unwrap();
    assert_eq!(abc.as_ref(), [2, 0, 1]);
    assert!(!analyzer.score(&abc, &mut score));
    assert_eq!(score, [12, 0]);
}

#[test]
fn a_constraint_is_tested_only_when_an_ngram_is_added() {
    let chars = Encoding::new(['a', 'b']).unwrap();
    let keys = Encoding::new([0u8, 1]).unwrap();
    let mut ngrams = NGrams::new();
    ngrams.insert(['a', 'b'], 1);
    let sets = vec![("text".to_string(), ngrams)];
    let metrics: Vec<(String, Metric2)> = vec![("distance".to_string(), distance)];
    let description = Description {
        ngram_sets: &sets,
        metrics: &metrics,
        applied_metrics: [applied("text", "distance", Some(3), 1)],
    };
    let analyzer = Analyzer::<2, 1, 2>::new(&chars, &keys, &description).unwrap();
    let symmetries = Symmetries([None, None]);
    let root = PartialLayout::<2>::new();
    let a = root.children(&symmetries).next().unwrap();
    // no bigram is complete with the first character alone
    let mut score = [5];
    assert!(analyzer.score(&a, &mut score));
    assert_eq!(score, [5]);
    let ab = a.children(&symmetries).next().unwrap();
    assert!(!analyzer.score(&ab, &mut score));
    assert_eq!(score, [6]);
}

#[test]
fn tables_are_put_together() {
    let chars = Encoding::new(['a', 'b', 'c']).unwrap();
    let keys = Encoding::new([0u8, 1, 2]).unwrap();
    let tensor = SparseTensor::<3, 2>::new(&chars, &weight_of);
    let metric: Metric2 = distance;
    let table = NDArray::<3, 2>::new(&keys, &metric);
    let analyzer =
        Analyzer::<3, 1, 2>::from_tables(vec![tensor.clone()], vec![table.clone()], [(0, 0, 9, 2)])
            .unwrap();
    // peak 2 times mass 14 times weight 2
    assert_eq!(analyzer.capacity(), 56);
    assert_eq!(analyzer.weighted_sum(&[4]), 8);
    assert!(matches!(
        Analyzer::<3, 1, 2>::from_tables(vec![tensor], vec![table], [(0, 0, 9, u64::MAX)]),
        Err(Error::Overflow)
    ));
}

#[test]
fn counts_that_do_not_sum_are_refused_though_nothing_applies_them() {
    let chars = Encoding::new(['a', 'b', 'c']).unwrap();
    let keys = Encoding::new([0u8, 1, 2]).unwrap();
    let mut huge = NGrams::new();
    huge.insert(['a', 'b'], u64::MAX);
    huge.insert(['x', 'y'], 1);
    let sets = vec![("text".to_string(), bigram_counts()), ("huge".to_string(), huge)];
    let metrics: Vec<(String, Metric2)> = vec![("distance".to_string(), distance)];
    let description = Description {
        ngram_sets: &sets,
        metrics: &metrics,
        applied_metrics: [applied("text", "distance", None, 1)],
    };
    assert!(!description.check_sets());
    assert!(matches!(Analyzer::<3, 1, 2>::new(&chars, &keys, &description), Err(Error::Overflow)));
    let small = vec![("text".to_string(), bigram_counts())];
    let description = Description {
        ngram_sets: &small,
        metrics: &metrics,
        applied_metrics: [applied("text", "distance", None, 1)],
    };
    assert!(description.check_sets());
    assert!(Analyzer::<3, 1, 2>::new(&chars, &keys, &description).is_ok());
}

#[test]
fn nothing_applied_always_fits() {
    let chars = Encoding::new(['a', 'b', 'c']).unwrap();
    let keys = Encoding::new([0u8, 1, 2]).unwrap();
    let mut heavy = NGrams::new();
    heavy.insert(['a', 'b'], u64::MAX);
    let sets = vec![("text".to_string(), heavy)];
    let metrics: Vec<(String, Metric2)> = vec![("distance".to_string(), distance)];
    let description = Description { ngram_sets: &sets, metrics: &metrics, applied_metrics: [] };
    let analyzer = Analyzer::<3, 0, 2>::new(&chars, &keys, &description).unwrap();
    assert_eq!(analyzer.capacity(), 0);
}
