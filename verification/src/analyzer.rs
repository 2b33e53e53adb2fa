use crate::ngrams::NGrams;
use vstd::prelude::*;

verus! {

/// One additive part of the objective: a metric applied to an n-gram set.
pub struct AppliedMetric {
    /// The name of the n-gram set.
    pub ngrams: String,
    /// The name of the metric.
    pub metric: String,
    /// The highest score of this part that a layout may have; `None` for
    /// no limit.
    pub constraint: Option<u64>,
    /// The factor of this part in the weighted sum. It is applied after the
    /// constraint, so a part with weight zero still constrains.
    pub weight: u64,
}

/// `i` is the first place at which `name` stands in `names`.
pub open spec fn is_first(names: Seq<Seq<char>>, name: Seq<char>, i: int) -> bool {
    &&& 0 <= i < names.len()
    &&& names[i] == name
    &&& forall|j: int| 0 <= j < i ==> names[j] != name
}

/// The first place at which `name` stands in `names`, if it stands there.
pub open spec fn lookup(names: Seq<Seq<char>>, name: Seq<char>) -> Option<usize> {
    if exists|i: int| is_first(names, name, i) {
        Some((choose|i: int| is_first(names, name, i)) as usize)
    } else {
        None
    }
}

/// What to measure: named n-gram sets, named metrics on tuples of `D` keys,
/// and the `A` applications of a metric to a set that make up the objective.
/// Where a name is given twice, the first entry counts.
pub struct Analyzer<'a, F, const A: usize, const D: usize> {
    pub ngram_sets: &'a Vec<(String, NGrams<D>)>,
    pub metrics: &'a Vec<(String, F)>,
    pub applied_metrics: [AppliedMetric; A],
}

impl<'a, F, const A: usize, const D: usize> Analyzer<'a, F, A, D> {
    /// The names of the n-gram sets.
    pub open spec fn set_names(&self) -> Seq<Seq<char>> {
        Seq::new(self.ngram_sets@.len(), |i: int| self.ngram_sets@[i].0@)
    }

    /// The names of the metrics.
    pub open spec fn metric_names(&self) -> Seq<Seq<char>> {
        Seq::new(self.metrics@.len(), |i: int| self.metrics@[i].0@)
    }

    /// Every applied metric names an n-gram set and a metric that exist.
    pub open spec fn names_resolve(&self) -> bool {
        forall|i: int|
            0 <= i < A ==> {
                let applied = #[trigger] self.applied_metrics@[i];
                &&& lookup(self.set_names(), applied.ngrams@) is Some
                &&& lookup(self.metric_names(), applied.metric@) is Some
            }
    }

    /// The counts of every n-gram set sum to a number of 64 bits.
    pub open spec fn sets_fit(&self) -> bool {
        forall|s: int|
            0 <= s < self.ngram_sets@.len() ==> (#[trigger] self.ngram_sets@[s]).1.mass()
                <= u64::MAX
    }

    /// Whether the counts of every n-gram set sum to a number of 64 bits.
    pub fn check_sets(&self) -> (r: bool)
        ensures
            r == self.sets_fit(),
    {
        let mut s: usize = 0;
        while s < self.ngram_sets.len()
            invariant
                s <= self.ngram_sets@.len(),
                forall|k: int|
                    0 <= k < s ==> (#[trigger] self.ngram_sets@[k]).1.mass() <= u64::MAX,
            decreases self.ngram_sets@.len() - s,
        {
            if self.ngram_sets[s].1.total().is_none() {
                assert(self.ngram_sets@[s as int].1.mass() > u64::MAX);
                return false;
            }
            s += 1;
        }
        true
    }

    /// Whether every applied metric names an n-gram set and a metric that
    /// exist.
    pub fn check_names(&self) -> (r: bool)
        ensures
            r == self.names_resolve(),
    {
        let mut i: usize = 0;
        while i < A
            invariant
                i <= A,
                forall|k: int|
                    0 <= k < i ==> {
                        let applied = #[trigger] self.applied_metrics@[k];
                        &&& lookup(self.set_names(), applied.ngrams@) is Some
                        &&& lookup(self.metric_names(), applied.metric@) is Some
                    },
            decreases A - i,
        {
            let applied = &self.applied_metrics[i];
            if self.find_set(&applied.ngrams).is_none() || self.find_metric(
                &applied.metric,
            ).is_none() {
                assert(!self.names_resolve()) by {
                    let applied = self.applied_metrics@[i as int];
                }
                return false;
            }
            i += 1;
        }
        true
    }

    /// The index of the n-gram set called `name`.
    pub fn find_set(&self, name: &String) -> (r: Option<usize>)
        ensures
            r == lookup(self.set_names(), name@),
            r matches Some(i) ==> i < self.ngram_sets@.len(),
    {
        let mut i: usize = 0;
        while i < self.ngram_sets.len()
            invariant
                i <= self.ngram_sets@.len(),
                forall|j: int| 0 <= j < i ==> self.set_names()[j] != name@,
            decreases self.ngram_sets@.len() - i,
        {
            if self.ngram_sets[i].0 == *name {
                proof {
                    lemma_lookup(self.set_names(), name@, i as int);
                }
                return Some(i);
            }
            i += 1;
        }
        None
    }

    /// The index of the metric called `name`.
    pub fn find_metric(&self, name: &String) -> (r: Option<usize>)
        ensures
            r == lookup(self.metric_names(), name@),
            r matches Some(i) ==> i < self.metrics@.len(),
    {
        let mut i: usize = 0;
        while i < self.metrics.len()
            invariant
                i <= self.metrics@.len(),
                forall|j: int| 0 <= j < i ==> self.metric_names()[j] != name@,
            decreases self.metrics@.len() - i,
        {
            if self.metrics[i].0 == *name {
                proof {
                    lemma_lookup(self.metric_names(), name@, i as int);
                }
                return Some(i);
            }
            i += 1;
        }
        None
    }
}

/// The first place of a name is what `lookup` finds.
pub proof fn lemma_lookup(names: Seq<Seq<char>>, name: Seq<char>, i: int)
    requires
        is_first(names, name, i),
        i <= usize::MAX,
    ensures
        lookup(names, name) == Some(i as usize),
{
    let c = choose|c: int| is_first(names, name, c);
    assert(c == i) by {
        if c < i {
            assert(names[c] != name);
        } else if i < c {
            assert(names[i] != name);
        }
    }
}

} // verus!
