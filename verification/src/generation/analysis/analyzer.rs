use crate::analyzer::lookup;
use crate::error::Error;
use crate::generation::analysis::indexes::{
    in_range,
    lemma_row_major_bound,
    lemma_tuple_at,
    lemma_tuple_of_place,
    row_major,
    tuple_at,
    volume,
};
use crate::generation::analysis::ndarray::{tabulates, NDArray};
use crate::generation::analysis::sparse_tensor::{
    buckets_wf,
    lemma_mass_of_remove,
    lemma_mass_upto_update,
    lemma_removed,
    lemma_weight_at,
    lemma_mass_within_counts,
    lemma_mass_upto_grows,
    lemma_top,
    mass_of,
    mass_upto,
    top,
    weight_in,
    Buckets,
    SparseTensor,
};
use crate::generation::internal::encoding::{decoded, made_of, Encoding};
use crate::generation::internal::partial_layout::{PartialLayout, Placement};
use crate::generation::internal::translatable::Translatable;
use crate::ngrams::count_of;
use vstd::prelude::*;

verus! {

/// One applied metric in compiled form: the index of its n-gram set, the
/// index of its metric, its constraint and its weight.
pub type Applied = (usize, usize, u64, u64);

/// What one weighted tuple adds to a score when its characters lie on
/// `keys`: the metric of the keys, times the weight.
pub open spec fn entry_score<const N: usize, const D: usize>(
    table: NDArray<N, D>,
    keys: Seq<usize>,
    entry: (Seq<usize>, u64),
) -> nat {
    (table.value(decoded(keys, entry.0)) as nat) * (entry.1 as nat)
}

/// What `entries` add to a score.
pub open spec fn entries_score<const N: usize, const D: usize>(
    table: NDArray<N, D>,
    keys: Seq<usize>,
    entries: Seq<(Seq<usize>, u64)>,
) -> nat
    decreases entries.len(),
{
    if entries.len() == 0 {
        0
    } else {
        entries_score(table, keys, entries.drop_last()) + entry_score(table, keys, entries.last())
    }
}

/// The score of the tuples in the first `upto` buckets: of all n-grams
/// whose characters are among the first `upto`.
pub open spec fn score_upto<const N: usize, const D: usize>(
    table: NDArray<N, D>,
    keys: Seq<usize>,
    buckets: Buckets,
    upto: nat,
) -> nat
    decreases upto,
{
    if upto == 0 {
        0
    } else {
        score_upto(table, keys, buckets, (upto - 1) as nat) + entries_score(
            table,
            keys,
            buckets[upto - 1],
        )
    }
}

/// The highest score that the applied metric `applied` can reach: the peak
/// of its metric times the mass of its n-gram set.
pub open spec fn cap_of<const N: usize, const D: usize>(
    sets: Seq<SparseTensor<N, D>>,
    tables: Seq<NDArray<N, D>>,
    applied: Applied,
) -> nat {
    (tables[applied.1 as int].peak() as nat) * sets[applied.0 as int].mass()
}

/// The weighted sum of the highest scores of the first `upto` applied
/// metrics.
pub open spec fn weighted_cap_of<const N: usize, const D: usize>(
    sets: Seq<SparseTensor<N, D>>,
    tables: Seq<NDArray<N, D>>,
    applied: Seq<Applied>,
    upto: nat,
) -> nat
    decreases upto,
{
    if upto == 0 {
        0
    } else {
        weighted_cap_of(sets, tables, applied, (upto - 1) as nat) + cap_of(
            sets,
            tables,
            applied[upto - 1],
        ) * (applied[upto - 1].3 as nat)
    }
}

/// The applied metrics refer to sets and metrics that exist.
pub open spec fn refers<const N: usize, const D: usize>(
    sets: Seq<SparseTensor<N, D>>,
    tables: Seq<NDArray<N, D>>,
    applied: Seq<Applied>,
) -> bool {
    forall|i: int|
        0 <= i < applied.len() ==> (#[trigger] applied[i]).0 < sets.len() && applied[i].1
            < tables.len()
}

/// No score can leave the range of 64 bits: for every applied metric the
/// mass of its n-gram set and its highest score fit, and so does the
/// weighted sum of all highest scores.
pub open spec fn fits<const N: usize, const D: usize>(
    sets: Seq<SparseTensor<N, D>>,
    tables: Seq<NDArray<N, D>>,
    applied: Seq<Applied>,
) -> bool {
    &&& forall|i: int|
        0 <= i < applied.len() ==> sets[(#[trigger] applied[i]).0 as int].mass() <= u64::MAX
            && cap_of(sets, tables, applied[i]) <= u64::MAX
    &&& weighted_cap_of(sets, tables, applied, applied.len()) <= u64::MAX
}

/// The weighted sum of the first `upto` scores.
pub open spec fn weighted(scores: Seq<u64>, applied: Seq<Applied>, upto: nat) -> nat
    decreases upto,
{
    if upto == 0 {
        0
    } else {
        weighted(scores, applied, (upto - 1) as nat) + (scores[upto - 1] as nat) * (applied[upto
            - 1].3 as nat)
    }
}

/// The score that is left when `entries` are added to `before` one by one
/// and the adding stops as soon as the score is above `constraint`.
pub open spec fn halted<const N: usize, const D: usize>(
    table: NDArray<N, D>,
    keys: Seq<usize>,
    entries: Seq<(Seq<usize>, u64)>,
    before: nat,
    constraint: nat,
) -> nat
    decreases entries.len(),
{
    if entries.len() == 0 {
        before
    } else {
        let next = before + entry_score(table, keys, entries[0]);
        if next > constraint {
            next
        } else {
            halted(table, keys, entries.drop_first(), next, constraint)
        }
    }
}

/// The score of entries is that of the first plus that of the others.
pub proof fn lemma_entries_score_front<const N: usize, const D: usize>(
    table: NDArray<N, D>,
    keys: Seq<usize>,
    entries: Seq<(Seq<usize>, u64)>,
)
    requires
        entries.len() > 0,
    ensures
        entries_score(table, keys, entries) == entry_score(table, keys, entries[0])
            + entries_score(table, keys, entries.drop_first()),
    decreases entries.len(),
{
    if entries.len() == 1 {
        assert(entries.drop_last() =~= entries.drop_first());
        assert(entries_score(table, keys, entries.drop_last()) == 0);
    } else {
        lemma_entries_score_front(table, keys, entries.drop_last());
        assert(entries.drop_last().drop_first() =~= entries.drop_first().drop_last());
        assert(entries.drop_last()[0] == entries[0]);
        assert(entries.drop_first().last() == entries.last());
    }
}

/// Adding stops early exactly when the sum of all entries is above the
/// constraint; when it does not stop early, the full sum is left.
pub proof fn lemma_halted<const N: usize, const D: usize>(
    table: NDArray<N, D>,
    keys: Seq<usize>,
    entries: Seq<(Seq<usize>, u64)>,
    before: nat,
    constraint: nat,
)
    requires
        entries.len() > 0,
    ensures
        halted(table, keys, entries, before, constraint) <= constraint <==> before + entries_score(
            table,
            keys,
            entries,
        ) <= constraint,
        halted(table, keys, entries, before, constraint) <= constraint ==> halted(
            table,
            keys,
            entries,
            before,
            constraint,
        ) == before + entries_score(table, keys, entries),
        before <= halted(table, keys, entries, before, constraint) <= before + entries_score(
            table,
            keys,
            entries,
        ),
    decreases entries.len(),
{
    lemma_entries_score_front(table, keys, entries);
    let next = before + entry_score(table, keys, entries[0]);
    if next <= constraint {
        if entries.len() > 1 {
            lemma_halted(table, keys, entries.drop_first(), next, constraint);
        } else {
            assert(entries.drop_first().len() == 0);
            assert(entries_score(table, keys, entries.drop_first()) == 0);
        }
    }
}

/// The score of entries is at most the peak of the metric times their mass.
pub proof fn lemma_entries_bound<const N: usize, const D: usize>(
    table: NDArray<N, D>,
    keys: Seq<usize>,
    entries: Seq<(Seq<usize>, u64)>,
)
    requires
        table.wf(),
        forall|i: int|
            0 <= i < entries.len() ==> {
                let t = decoded(keys, (#[trigger] entries[i]).0);
                t.len() == D && in_range(t, N as nat)
            },
    ensures
        entries_score(table, keys, entries) <= (table.peak() as nat) * mass_of(entries),
    decreases entries.len(),
{
    if entries.len() > 0 {
        let rest = entries.drop_last();
        assert forall|i: int| 0 <= i < rest.len() implies {
            let t = decoded(keys, (#[trigger] rest[i]).0);
            t.len() == D && in_range(t, N as nat)
        } by {
            assert(rest[i] == entries[i]);
        }
        lemma_entries_bound(table, keys, rest);
        let e = entries.last();
        assert(e == entries[entries.len() - 1]);
        table.lemma_value_bound(decoded(keys, e.0));
        let v = table.value(decoded(keys, e.0)) as nat;
        let p = table.peak() as nat;
        let w = e.1 as nat;
        let m = mass_of(rest);
        assert(v * w <= p * w) by (nonlinear_arith)
            requires
                v <= p,
        ;
        assert(p * (m + w) == p * m + p * w) by (nonlinear_arith);
    }
}

/// The first entries score no more than all of them.
pub proof fn lemma_entries_score_grows<const N: usize, const D: usize>(
    table: NDArray<N, D>,
    keys: Seq<usize>,
    entries: Seq<(Seq<usize>, u64)>,
    upto: int,
)
    requires
        0 <= upto <= entries.len(),
    ensures
        entries_score(table, keys, entries.take(upto)) <= entries_score(table, keys, entries),
    decreases entries.len(),
{
    if upto < entries.len() {
        lemma_entries_score_grows(table, keys, entries.drop_last(), upto);
        assert(entries.drop_last().take(upto) =~= entries.take(upto));
    } else {
        assert(entries.take(upto) =~= entries);
    }
}

/// Entries whose characters have the same keys in two layouts score the
/// same in both.
pub proof fn lemma_entries_score_same<const N: usize, const D: usize>(
    table: NDArray<N, D>,
    keys: Seq<usize>,
    other: Seq<usize>,
    entries: Seq<(Seq<usize>, u64)>,
    upto: int,
)
    requires
        forall|c: int| 0 <= c < upto ==> keys[c] == other[c],
        forall|i: int, j: int|
            0 <= i < entries.len() && 0 <= j < (#[trigger] entries[i]).0.len() ==> 0
                <= #[trigger] entries[i].0[j] < upto,
    ensures
        entries_score(table, keys, entries) == entries_score(table, other, entries),
    decreases entries.len(),
{
    if entries.len() > 0 {
        let rest = entries.drop_last();
        assert forall|i: int, j: int|
            0 <= i < rest.len() && 0 <= j < (#[trigger] rest[i]).0.len() implies 0
            <= #[trigger] rest[i].0[j] < upto by {
            assert(rest[i] == entries[i]);
        }
        lemma_entries_score_same(table, keys, other, rest, upto);
        let e = entries[entries.len() - 1];
        assert forall|j: int| 0 <= j < e.0.len() implies decoded(keys, e.0)[j] == decoded(
            other,
            e.0,
        )[j] by {
            assert(0 <= e.0[j] < upto);
        }
        assert(decoded(keys, e.0) =~= decoded(other, e.0));
    }
}

/// Buckets score the same in two layouts that agree on the keys of the
/// characters in them.
pub proof fn lemma_score_upto_same<const N: usize, const D: usize>(
    table: NDArray<N, D>,
    keys: Seq<usize>,
    other: Seq<usize>,
    buckets: Buckets,
    upto: nat,
)
    requires
        buckets_wf(buckets, N as nat, D as nat),
        upto <= N,
        forall|c: int| 0 <= c < upto ==> keys[c] == other[c],
    ensures
        score_upto(table, keys, buckets, upto) == score_upto(table, other, buckets, upto),
    decreases upto,
{
    if upto > 0 {
        lemma_score_upto_same(table, keys, other, buckets, (upto - 1) as nat);
        let bucket = buckets[upto - 1];
        assert forall|i: int, j: int|
            0 <= i < bucket.len() && 0 <= j < (#[trigger] bucket[i]).0.len() implies 0
            <= #[trigger] bucket[i].0[j] < upto by {
            lemma_top(bucket[i].0);
        }
        lemma_entries_score_same(table, keys, other, bucket, upto as int);
    }
}

/// The tables hold what `analyzer` describes, for characters encoded by
/// `chars` and keys encoded by `keys`: the tables are well formed, the weight
/// of a tuple of character indices is the count of its n-gram, the value of
/// a tuple of key indices is what the metric gave for its keys, and every
/// applied metric refers to the first set and the first metric of its
/// names.
pub open spec fn compiled<Key, F: Fn([Key; D]) -> u64, const N: usize, const A: usize, const D: usize>(
    sets: Seq<SparseTensor<N, D>>,
    tables: Seq<NDArray<N, D>>,
    applied: Seq<Applied>,
    chars: Seq<char>,
    keys: Seq<Key>,
    analyzer: crate::analyzer::Analyzer<F, A, D>,
) -> bool {
    &&& sets.len() == analyzer.ngram_sets@.len()
    &&& forall|s: int| 0 <= s < sets.len() ==> (#[trigger] sets[s]).wf()
    &&& forall|s: int, t: Seq<usize>|
        0 <= s < sets.len() && t.len() == D && in_range(t, N as nat) ==> (#[trigger] sets[s].weight(
            t,
        )) as nat == analyzer.ngram_sets@[s].1.count(decoded(chars, t))
    &&& tables.len() == analyzer.metrics@.len()
    &&& forall|m: int| 0 <= m < tables.len() ==> (#[trigger] tables[m]).wf()
    &&& forall|m: int, t: Seq<usize>|
        0 <= m < tables.len() && t.len() == D && in_range(t, N as nat) ==> tabulates(
            analyzer.metrics@[m].1,
            keys,
            t,
            #[trigger] tables[m].value(t),
        )
    &&& applied.len() == A
    &&& forall|i: int|
        0 <= i < A ==> {
            let from = analyzer.applied_metrics@[i];
            let to = #[trigger] applied[i];
            &&& lookup(analyzer.set_names(), from.ngrams@) == Some(to.0)
            &&& lookup(analyzer.metric_names(), from.metric@) == Some(to.1)
            &&& to.0 < sets.len()
            &&& to.1 < tables.len()
            &&& to.2 == match from.constraint {
                Some(c) => c,
                None => u64::MAX,
            }
            &&& to.3 == from.weight
        }
}

/// A compiled n-gram set weighs no more than the counts of the set that it
/// was compiled from sum to: every tuple with a weight stands for an n-gram
/// of its own.
pub proof fn lemma_compiled_mass<
    Key,
    F: Fn([Key; D]) -> u64,
    const N: usize,
    const A: usize,
    const D: usize,
>(
    sets: Seq<SparseTensor<N, D>>,
    tables: Seq<NDArray<N, D>>,
    applied: Seq<Applied>,
    chars: Seq<char>,
    keys: Seq<Key>,
    analyzer: crate::analyzer::Analyzer<F, A, D>,
    s: int,
)
    requires
        D > 0,
        chars.no_duplicates(),
        chars.len() == N,
        compiled(sets, tables, applied, chars, keys, analyzer),
        0 <= s < sets.len(),
        analyzer.ngram_sets@[s].1.wf(),
    ensures
        sets[s].mass() <= analyzer.ngram_sets@[s].1.mass(),
{
    let counts = analyzer.ngram_sets@[s].1;
    counts.lemma_listing();
    assert(sets[s].wf());
    assert forall|t: Seq<usize>| t.len() == D && in_range(t, chars.len()) implies (
    #[trigger] weight_in(sets[s]@, t)) as nat == count_of(counts@, decoded(chars, t)) by {
        assert(sets[s].weight(t) as nat == counts.count(decoded(chars, t)));
    }
    lemma_mass_within_counts(sets[s]@, D as nat, chars, counts.listing(), counts@);
}

/// Compiled tables fit where bounds on the metrics, on the counts of a set
/// and on the weights say so: with no metric above `p`, no set with counts
/// that sum to more than `g`, and no weight above `w`, the highest weighted
/// sum is at most `p * g * w` for every applied metric.
pub proof fn lemma_compiled_fits<
    Key,
    F: Fn([Key; D]) -> u64,
    const N: usize,
    const A: usize,
    const D: usize,
>(
    sets: Seq<SparseTensor<N, D>>,
    tables: Seq<NDArray<N, D>>,
    applied: Seq<Applied>,
    chars: Seq<char>,
    keys: Seq<Key>,
    analyzer: crate::analyzer::Analyzer<F, A, D>,
    p: nat,
    g: nat,
    w: nat,
    upto: nat,
)
    requires
        D > 0,
        chars.no_duplicates(),
        chars.len() == N,
        compiled(sets, tables, applied, chars, keys, analyzer),
        forall|s: int|
            0 <= s < analyzer.ngram_sets@.len() ==> (#[trigger] analyzer.ngram_sets@[s]).1.wf()
                && analyzer.ngram_sets@[s].1.mass() <= g,
        forall|m: int| 0 <= m < tables.len() ==> (#[trigger] tables[m]).peak() <= p,
        forall|i: int| 0 <= i < A ==> (#[trigger] applied[i]).3 <= w,
        upto <= A,
        g <= u64::MAX,
        p * g <= u64::MAX,
        A * (p * g * w) <= u64::MAX,
    ensures
        weighted_cap_of(sets, tables, applied, upto) <= upto * (p * g * w),
        upto == A ==> fits(sets, tables, applied),
    decreases upto,
{
    assert forall|i: int| 0 <= i < A implies sets[(#[trigger] applied[i]).0 as int].mass() <= g
        && cap_of(sets, tables, applied[i]) <= p * g by {
        let s = applied[i].0 as int;
        lemma_compiled_mass(sets, tables, applied, chars, keys, analyzer, s);
        assert(analyzer.ngram_sets@[s].1.mass() <= g);
        let peak = tables[applied[i].1 as int].peak() as nat;
        let mass = sets[s].mass();
        assert(peak * mass <= p * g) by (nonlinear_arith)
            requires
                peak <= p,
                mass <= g,
        ;
    }
    if upto > 0 {
        lemma_compiled_fits(sets, tables, applied, chars, keys, analyzer, p, g, w, (upto - 1) as nat);
        let cap = cap_of(sets, tables, applied[upto - 1]);
        let weight = applied[upto - 1].3 as nat;
        assert(cap * weight <= p * g * w) by (nonlinear_arith)
            requires
                cap <= p * g,
                weight <= w,
        ;
        assert((upto - 1) * (p * g * w) + p * g * w == upto * (p * g * w)) by (nonlinear_arith);
    } else {
        assert(0 * (p * g * w) == 0) by (nonlinear_arith);
    }
    if upto == A {
        assert(upto * (p * g * w) == A * (p * g * w));
    }
}

/// Where nothing is applied, everything fits.
pub proof fn lemma_fits_without_applied<const N: usize, const D: usize>(
    sets: Seq<SparseTensor<N, D>>,
    tables: Seq<NDArray<N, D>>,
    applied: Seq<Applied>,
)
    requires
        applied.len() == 0,
    ensures
        fits(sets, tables, applied),
{
}

/// Where the sets that are applied have no mass, everything fits.
pub proof fn lemma_fits_without_mass<const N: usize, const D: usize>(
    sets: Seq<SparseTensor<N, D>>,
    tables: Seq<NDArray<N, D>>,
    applied: Seq<Applied>,
    upto: nat,
)
    requires
        upto <= applied.len(),
        forall|i: int| 0 <= i < applied.len() ==> sets[(#[trigger] applied[i]).0 as int].mass() == 0,
    ensures
        weighted_cap_of(sets, tables, applied, upto) == 0,
        upto == applied.len() ==> fits(sets, tables, applied),
    decreases upto,
{
    if upto > 0 {
        lemma_fits_without_mass(sets, tables, applied, (upto - 1) as nat);
        let p = tables[applied[upto - 1].1 as int].peak() as nat;
        let w = applied[upto - 1].3 as nat;
        assert(sets[applied[upto - 1].0 as int].mass() == 0);
        assert(p * 0 * w == 0) by (nonlinear_arith);
    }
    if upto == applied.len() {
        assert forall|i: int| 0 <= i < applied.len() implies sets[(#[trigger] applied[i]).0 as int].mass()
            <= u64::MAX && cap_of(sets, tables, applied[i]) <= u64::MAX by {
            let p = tables[applied[i].1 as int].peak() as nat;
            assert(p * 0 == 0) by (nonlinear_arith);
        }
    }
}

/// The score of a layout summed over every tuple of character indices, one
/// place after the other: the weight of the tuple times the metric of its
/// keys. Tuples without an entry have the weight zero.
pub open spec fn scratch_upto<const N: usize, const D: usize>(
    table: NDArray<N, D>,
    keys: Seq<usize>,
    buckets: Buckets,
    upto: nat,
) -> nat
    decreases upto,
{
    if upto == 0 {
        0
    } else {
        let t = tuple_at((upto - 1) as nat, N as nat, D as nat);
        scratch_upto(table, keys, buckets, (upto - 1) as nat) + entry_score(
            table,
            keys,
            (t, weight_in(buckets, t)),
        )
    }
}

/// Without one of its entries a bucket scores less by the score of that
/// entry.
proof fn lemma_entries_score_remove<const N: usize, const D: usize>(
    table: NDArray<N, D>,
    keys: Seq<usize>,
    entries: Seq<(Seq<usize>, u64)>,
    i: int,
)
    requires
        0 <= i < entries.len(),
    ensures
        entries_score(table, keys, entries.remove(i)) + entry_score(table, keys, entries[i])
            == entries_score(table, keys, entries),
    decreases entries.len(),
{
    if i == entries.len() - 1 {
        assert(entries.remove(i) =~= entries.drop_last());
    } else {
        lemma_entries_score_remove(table, keys, entries.drop_last(), i);
        assert(entries.remove(i).drop_last() =~= entries.drop_last().remove(i));
        assert(entries.remove(i).last() == entries.last());
    }
}

/// With another bucket in place of bucket `m`, the buckets score what they
/// scored, but for the difference between the two.
proof fn lemma_score_upto_update<const N: usize, const D: usize>(
    table: NDArray<N, D>,
    keys: Seq<usize>,
    buckets: Buckets,
    m: int,
    other: Seq<(Seq<usize>, u64)>,
    upto: nat,
)
    requires
        0 <= m < buckets.len(),
        upto <= buckets.len(),
    ensures
        score_upto(table, keys, buckets.update(m, other), upto) + (if m < upto {
            entries_score(table, keys, buckets[m])
        } else {
            0
        }) == score_upto(table, keys, buckets, upto) + (if m < upto {
            entries_score(table, keys, other)
        } else {
            0
        }),
    decreases upto,
{
    if upto > 0 {
        lemma_score_upto_update(table, keys, buckets, m, other, (upto - 1) as nat);
    }
}

/// Where one tuple loses its weight and all others keep theirs, the sum
/// over the places falls by the score of that tuple, from its place on.
proof fn lemma_scratch_removed<const N: usize, const D: usize>(
    table: NDArray<N, D>,
    keys: Seq<usize>,
    before: Buckets,
    after: Buckets,
    gone: Seq<usize>,
    upto: nat,
)
    requires
        N > 0,
        gone.len() == D,
        in_range(gone, N as nat),
        upto <= volume(N as nat, D as nat),
        forall|t: Seq<usize>|
            t.len() == D && in_range(t, N as nat) ==> #[trigger] weight_in(after, t) == if t
                == gone {
                0
            } else {
                weight_in(before, t)
            },
    ensures
        scratch_upto(table, keys, before, upto) == scratch_upto(table, keys, after, upto) + if row_major(
            gone,
            N as nat,
        ) < upto {
            entry_score(table, keys, (gone, weight_in(before, gone)))
        } else {
            0
        },
    decreases upto,
{
    if upto > 0 {
        lemma_scratch_removed(table, keys, before, after, gone, (upto - 1) as nat);
        let t = tuple_at((upto - 1) as nat, N as nat, D as nat);
        lemma_tuple_at((upto - 1) as nat, N as nat, D as nat);
        lemma_tuple_of_place(gone, N as nat);
        assert(weight_in(after, t) == if t == gone {
            0
        } else {
            weight_in(before, t)
        });
        if t == gone {
            assert(entry_score(table, keys, (t, 0u64)) == 0) by {
                let v = table.value(decoded(keys, t)) as nat;
                assert(v * 0 == 0) by (nonlinear_arith);
            }
        }
    }
}

/// Buckets without entries score nothing, in either way of summing.
proof fn lemma_scratch_empty<const N: usize, const D: usize>(
    table: NDArray<N, D>,
    keys: Seq<usize>,
    buckets: Buckets,
    upto: nat,
    places: nat,
)
    requires
        upto <= buckets.len(),
        forall|m: int| 0 <= m < buckets.len() ==> (#[trigger] buckets[m]).len() == 0,
        buckets.len() == N,
        places <= volume(N as nat, D as nat),
        D > 0,
    ensures
        score_upto(table, keys, buckets, upto) == 0,
        scratch_upto(table, keys, buckets, places) == 0,
    decreases upto, places,
{
    if upto > 0 {
        lemma_scratch_empty(table, keys, buckets, (upto - 1) as nat, places);
        assert(buckets[upto - 1].len() == 0);
    } else if places > 0 {
        lemma_scratch_empty(table, keys, buckets, upto, (places - 1) as nat);
        let t = tuple_at((places - 1) as nat, N as nat, D as nat);
        if N > 0 {
            lemma_tuple_at((places - 1) as nat, N as nat, D as nat);
            lemma_top(t);
            let at = choose|at: int| 0 <= at < t.len() && #[trigger] t[at] == top(t);
            assert(t[at] < N);
            assert(buckets[top(t) as int].len() == 0);
        } else {
            assert(volume(0, D as nat) == 0) by {
                assert(volume(0, (D - 1) as nat) * 0 == 0) by (nonlinear_arith);
            }
        }
        assert(weight_in(buckets, t) == 0);
        let v = table.value(decoded(keys, t)) as nat;
        assert(v * 0 == 0) by (nonlinear_arith);
    }
}

/// The score summed bucket by bucket is the score summed over every tuple
/// of character indices: every n-gram with a weight is counted once, in
/// the bucket of its last character.
pub proof fn lemma_scratch<const N: usize, const D: usize>(
    table: NDArray<N, D>,
    keys: Seq<usize>,
    buckets: Buckets,
)
    requires
        D > 0,
        buckets_wf(buckets, N as nat, D as nat),
    ensures
        score_upto(table, keys, buckets, N as nat) == scratch_upto(
            table,
            keys,
            buckets,
            volume(N as nat, D as nat),
        ),
    decreases mass_upto(buckets, N as nat),
{
    let places = volume(N as nat, D as nat);
    if forall|m: int| 0 <= m < buckets.len() ==> (#[trigger] buckets[m]).len() == 0 {
        lemma_scratch_empty(table, keys, buckets, N as nat, places);
    } else {
        let m = choose|m: int| 0 <= m < buckets.len() && (#[trigger] buckets[m]).len() != 0;
        let entry = buckets[m][0];
        let smaller = buckets[m].remove(0);
        let after = buckets.update(m, smaller);
        lemma_removed(buckets, N as nat, D as nat, m, 0);
        lemma_weight_at(buckets, N as nat, D as nat, m, 0);
        lemma_mass_of_remove(buckets[m], 0);
        lemma_mass_upto_update(buckets, m, smaller, N as nat);
        lemma_scratch(table, keys, after);
        lemma_entries_score_remove(table, keys, buckets[m], 0);
        lemma_score_upto_update(table, keys, buckets, m, smaller, N as nat);
        lemma_scratch_removed(table, keys, buckets, after, entry.0, places);
        lemma_row_major_bound(entry.0, N as nat);
    }
}

/// The first buckets score no more than all of them.
pub proof fn lemma_score_upto_grows<const N: usize, const D: usize>(
    table: NDArray<N, D>,
    keys: Seq<usize>,
    buckets: Buckets,
    a: nat,
    b: nat,
)
    requires
        a <= b,
    ensures
        score_upto(table, keys, buckets, a) <= score_upto(table, keys, buckets, b),
    decreases b,
{
    if a < b {
        lemma_score_upto_grows(table, keys, buckets, a, (b - 1) as nat);
    }
}

/// An n-gram set and metric table for every name, and the applied metrics
/// by index: what the search needs to score a layout step by step.
pub struct Analyzer<const N: usize, const A: usize, const D: usize> {
    ngram_sets: Vec<SparseTensor<N, D>>,
    metrics: Vec<NDArray<N, D>>,
    applied_metrics: [Applied; A],
    // the highest weighted sum that can be reached
    limit: u64,
}

impl<const N: usize, const A: usize, const D: usize> Analyzer<N, A, D> {
    /// The n-gram sets.
    pub closed spec fn sets(&self) -> Seq<SparseTensor<N, D>> {
        self.ngram_sets@
    }

    /// The metric tables.
    pub closed spec fn tables(&self) -> Seq<NDArray<N, D>> {
        self.metrics@
    }

    /// The applied metrics.
    pub closed spec fn applied(&self) -> Seq<Applied> {
        self.applied_metrics@
    }

    /// The highest weighted sum that was found to fit when the tables were
    /// put together.
    pub closed spec fn limit(&self) -> u64 {
        self.limit
    }

    /// The n-gram set of applied metric `i`.
    pub open spec fn set(&self, i: int) -> Buckets {
        self.sets()[self.applied()[i].0 as int]@
    }

    /// The metric table of applied metric `i`.
    pub open spec fn table(&self, i: int) -> NDArray<N, D> {
        self.tables()[self.applied()[i].1 as int]
    }

    /// The highest score that applied metric `i` lets a layout have.
    pub open spec fn constraint(&self, i: int) -> u64 {
        self.applied()[i].2
    }

    /// The factor of applied metric `i` in the weighted sum.
    pub open spec fn weight(&self, i: int) -> u64 {
        self.applied()[i].3
    }

    /// All tables are well formed, the applied metrics refer to tables that
    /// exist, and no score can overflow.
    pub open spec fn wf(&self) -> bool {
        &&& self.applied().len() == A
        &&& forall|s: int| 0 <= s < self.sets().len() ==> (#[trigger] self.sets()[s]).wf()
        &&& forall|m: int| 0 <= m < self.tables().len() ==> (#[trigger] self.tables()[m]).wf()
        &&& refers(self.sets(), self.tables(), self.applied())
        &&& fits(self.sets(), self.tables(), self.applied())
        &&& self.limit() == self.weighted_cap()
    }

    /// What applied metric `i` adds to its score when the last character
    /// of `layout` is placed: the score of the n-grams that hold this
    /// character and none behind it.
    pub open spec fn step_score(&self, i: int, layout: Placement) -> nat {
        entries_score(self.table(i), layout.keys, self.set(i)[layout.len - 1])
    }

    /// The score of `layout` under applied metric `i`, computed from
    /// scratch: the sum over all n-grams whose characters are placed of the
    /// weight of the n-gram times the metric of its keys.
    pub open spec fn full_score(&self, i: int, layout: Placement) -> nat {
        score_upto(self.table(i), layout.keys, self.set(i), layout.len)
    }

    /// Whether applied metric `i` lets the last character of `layout` be
    /// placed when its score was `before`: the constraint is tested
    /// whenever an n-gram is added to the score, so it holds of the new
    /// score unless the step adds no n-gram at all.
    pub open spec fn admits(&self, i: int, layout: Placement, before: nat) -> bool {
        self.set(i)[layout.len - 1].len() == 0 || before + self.step_score(i, layout)
            <= self.constraint(i)
    }

    /// The score that applied metric `i` is left with when the last
    /// character of `layout` is placed and its score was `before`: the
    /// n-grams are added one by one until the score is above the
    /// constraint.
    pub open spec fn left(&self, i: int, layout: Placement, before: nat) -> nat {
        halted(
            self.table(i),
            layout.keys,
            self.set(i)[layout.len - 1],
            before,
            self.constraint(i) as nat,
        )
    }

    /// The most that placing character `m` can add to the score of
    /// applied metric `i`.
    pub open spec fn step_cap(&self, i: int, m: int) -> nat {
        (self.table(i).peak() as nat) * mass_of(self.set(i)[m])
    }

    /// The highest score that applied metric `i` can reach.
    pub open spec fn cap(&self, i: int) -> nat {
        cap_of(self.sets(), self.tables(), self.applied()[i])
    }

    /// The highest weighted sum that can be reached.
    pub open spec fn weighted_cap(&self) -> nat {
        weighted_cap_of(self.sets(), self.tables(), self.applied(), A as nat)
    }

    /// The weighted sum of `scores`.
    pub open spec fn weighted_sum_of(&self, scores: Seq<u64>) -> nat {
        weighted(scores, self.applied(), A as nat)
    }

    /// The weighted sum of the scores of `layout`, each computed from
    /// scratch: the objective of the search.
    pub open spec fn objective(&self, layout: Placement) -> nat {
        self.objective_upto(layout, A as nat)
    }

    /// The part of the objective that the first `upto` applied metrics make
    /// up.
    pub open spec fn objective_upto(&self, layout: Placement, upto: nat) -> nat
        decreases upto,
    {
        if upto == 0 {
            0
        } else {
            self.objective_upto(layout, (upto - 1) as nat) + self.full_score(upto - 1, layout)
                * (self.weight(upto - 1) as nat)
        }
    }

    /// The tables hold what `analyzer` describes, for characters encoded by
    /// `chars` and keys encoded by `keys`.
    pub open spec fn compiles<Key, F: Fn([Key; D]) -> u64>(
        &self,
        chars: Seq<char>,
        keys: Seq<Key>,
        analyzer: crate::analyzer::Analyzer<F, A, D>,
    ) -> bool {
        compiled(self.sets(), self.tables(), self.applied(), chars, keys, analyzer)
    }

    /// Compiles `analyzer` into tables over indices, for n-grams of at
    /// least one character. The metrics are called on keys that `keys`
    /// encodes, and on no others.
    ///
    /// Fails with [`Error::UnknownName`] when an applied metric names an
    /// n-gram set or a metric that is not there. Else it fails with
    /// [`Error::Overflow`] when the counts of an n-gram set sum to more
    /// than 64 bits hold, or when the tables that it compiled do not fit
    /// (see [`Self::from_tables`]), and in no other case; whether the
    /// tables fit depends on what the metrics return.
    pub fn new<Key: Translatable, F: Fn([Key; D]) -> u64>(
        chars: &Encoding<char, N>,
        keys: &Encoding<Key, N>,
        analyzer: &crate::analyzer::Analyzer<F, A, D>,
    ) -> (r: Result<Self, Error>)
        requires
            D > 0,
            chars.wf(),
            keys.wf(),
            forall|s: int|
                0 <= s < analyzer.ngram_sets@.len() ==> (#[trigger] analyzer.ngram_sets@[s]).1.wf(),
            forall|m: int, args: [Key; D]|
                0 <= m < analyzer.metrics@.len() && made_of(keys@, args@)
                    ==> #[trigger] analyzer.metrics@[m].1.requires((args,)),
        ensures
            analyzer.names_resolve() <==> !(r matches Err(Error::UnknownName)),
            r matches Err(e) ==> e == Error::UnknownName || e == Error::Overflow,
            analyzer.names_resolve() && !analyzer.sets_fit() ==> r matches Err(Error::Overflow),
            r matches Err(Error::Overflow) ==> !analyzer.sets_fit() || exists|
                sets: Seq<SparseTensor<N, D>>,
                tables: Seq<NDArray<N, D>>,
                applied: Seq<Applied>,
            |
                #[trigger] compiled(sets, tables, applied, chars@, keys@, *analyzer) && !fits(
                    sets,
                    tables,
                    applied,
                ),
            r matches Ok(a) ==> a.wf() && a.compiles(chars@, keys@, *analyzer),
    {
        let mut applied_metrics: [Applied; A] = [(0usize, 0usize, 0u64, 0u64); A];
        let mut i: usize = 0;
        while i < A
            invariant
                i <= A,
                forall|k: int|
                    0 <= k < i ==> {
                        let from = analyzer.applied_metrics@[k];
                        let to = #[trigger] applied_metrics@[k];
                        &&& lookup(analyzer.set_names(), from.ngrams@) == Some(to.0)
                        &&& lookup(analyzer.metric_names(), from.metric@) == Some(to.1)
                        &&& to.0 < analyzer.ngram_sets@.len()
                        &&& to.1 < analyzer.metrics@.len()
                        &&& to.2 == match from.constraint {
                            Some(c) => c,
                            None => u64::MAX,
                        }
                        &&& to.3 == from.weight
                    },
            decreases A - i,
        {
            let from = &analyzer.applied_metrics[i];
            let set = match analyzer.find_set(&from.ngrams) {
                Some(set) => set,
                None => {
                    assert(lookup(analyzer.set_names(), analyzer.applied_metrics@[i as int].ngrams@)
                        is None);
                    return Err(Error::UnknownName);
                },
            };
            let metric = match analyzer.find_metric(&from.metric) {
                Some(metric) => metric,
                None => {
                    assert(lookup(
                        analyzer.metric_names(),
                        analyzer.applied_metrics@[i as int].metric@,
                    ) is None);
                    return Err(Error::UnknownName);
                },
            };
            let constraint = match from.constraint {
                Some(c) => c,
                None => u64::MAX,
            };
            applied_metrics[i] = (set, metric, constraint, from.weight);
            i += 1;
        }
        assert(analyzer.names_resolve()) by {
            assert forall|k: int| 0 <= k < A implies {
                let applied = #[trigger] analyzer.applied_metrics@[k];
                &&& lookup(analyzer.set_names(), applied.ngrams@) is Some
                &&& lookup(analyzer.metric_names(), applied.metric@) is Some
            } by {
                let to = applied_metrics@[k];
            }
        }
        if !analyzer.check_sets() {
            return Err(Error::Overflow);
        }
        let mut ngram_sets: Vec<SparseTensor<N, D>> = Vec::new();
        let mut s: usize = 0;
        while s < analyzer.ngram_sets.len()
            invariant
                s <= analyzer.ngram_sets@.len(),
                D > 0,
                chars.wf(),
                ngram_sets@.len() == s,
                forall|k: int|
                    0 <= k < analyzer.ngram_sets@.len() ==> (
                    #[trigger] analyzer.ngram_sets@[k]).1.wf(),
                forall|k: int| 0 <= k < s ==> (#[trigger] ngram_sets@[k]).wf(),
                forall|k: int, t: Seq<usize>|
                    0 <= k < s && t.len() == D && in_range(t, N as nat) ==> (
                    #[trigger] ngram_sets@[k].weight(t)) as nat
                        == analyzer.ngram_sets@[k].1.count(decoded(chars@, t)),
            decreases analyzer.ngram_sets@.len() - s,
        {
            let ngrams = &analyzer.ngram_sets[s].1;
            let count = |ngram: [char; D]| -> (r: u64)
                requires
                    ngrams.wf(),
                ensures
                    r == ngrams.count(ngram@),
                { ngrams.occurrences(&ngram) };
            let tensor = SparseTensor::new(chars, &count);
            proof {
                assert forall|t: Seq<usize>| t.len() == D && in_range(t, N as nat) implies (
                #[trigger] tensor.weight(t)) as nat == analyzer.ngram_sets@[s as int].1.count(
                    decoded(chars@, t),
                ) by {
                    assert(tabulates(count, chars@, t, tensor.weight(t)));
                }
            }
            ngram_sets.push(tensor);
            s += 1;
        }
        let mut metrics: Vec<NDArray<N, D>> = Vec::new();
        let mut m: usize = 0;
        while m < analyzer.metrics.len()
            invariant
                m <= analyzer.metrics@.len(),
                D > 0,
                keys.wf(),
                metrics@.len() == m,
                forall|k: int, args: [Key; D]|
                    0 <= k < analyzer.metrics@.len() && made_of(keys@, args@)
                        ==> #[trigger] analyzer.metrics@[k].1.requires((args,)),
                forall|k: int| 0 <= k < m ==> (#[trigger] metrics@[k]).wf(),
                forall|k: int, t: Seq<usize>|
                    0 <= k < m && t.len() == D && in_range(t, N as nat) ==> tabulates(
                        analyzer.metrics@[k].1,
                        keys@,
                        t,
                        #[trigger] metrics@[k].value(t),
                    ),
            decreases analyzer.metrics@.len() - m,
        {
            let metric = &analyzer.metrics[m].1;
            assert forall|args: [Key; D]| made_of(keys@, args@) implies metric.requires(
                (args,),
            ) by {
                assert(analyzer.metrics@[m as int].1.requires((args,)));
            }
            let table = NDArray::new(keys, metric);
            metrics.push(table);
            m += 1;
        }
        let ghost sets = ngram_sets@;
        let ghost tables = metrics@;
        proof {
            assert(compiled(sets, tables, applied_metrics@, chars@, keys@, *analyzer));
        }
        Self::from_tables(ngram_sets, metrics, applied_metrics)
    }

    /// Puts tables and applied metrics together. Fails with
    /// [`Error::Overflow`] unless they fit: for every applied metric the
    /// mass of its n-gram set, the peak of its metric times that mass, and
    /// the weighted sum of these products over all applied metrics must
    /// stay within 64 bits. Then no score of any layout can overflow.
    pub fn from_tables(
        ngram_sets: Vec<SparseTensor<N, D>>,
        metrics: Vec<NDArray<N, D>>,
        applied_metrics: [Applied; A],
    ) -> (r: Result<Self, Error>)
        requires
            forall|s: int| 0 <= s < ngram_sets@.len() ==> (#[trigger] ngram_sets@[s]).wf(),
            forall|m: int| 0 <= m < metrics@.len() ==> (#[trigger] metrics@[m]).wf(),
            refers(ngram_sets@, metrics@, applied_metrics@),
        ensures
            match r {
                Ok(a) => {
                    &&& fits(ngram_sets@, metrics@, applied_metrics@)
                    &&& a.wf()
                    &&& a.sets() == ngram_sets@
                    &&& a.tables() == metrics@
                    &&& a.applied() == applied_metrics@
                },
                Err(e) => e == Error::Overflow && !fits(ngram_sets@, metrics@, applied_metrics@),
            },
    {
        let mut total: u64 = 0;
        let mut i: usize = 0;
        while i < A
            invariant
                i <= A,
                forall|s: int| 0 <= s < ngram_sets@.len() ==> (#[trigger] ngram_sets@[s]).wf(),
                refers(ngram_sets@, metrics@, applied_metrics@),
                total == weighted_cap_of(ngram_sets@, metrics@, applied_metrics@, i as nat),
                forall|k: int|
                    0 <= k < i ==> ngram_sets@[(#[trigger] applied_metrics@[k]).0 as int].mass()
                        <= u64::MAX && cap_of(ngram_sets@, metrics@, applied_metrics@[k])
                        <= u64::MAX,
            decreases A - i,
        {
            let (set, metric, _, weight) = applied_metrics[i];
            assert(applied_metrics@[i as int].0 < ngram_sets@.len());
            proof {
                lemma_weighted_cap_grows(
                    ngram_sets@,
                    metrics@,
                    applied_metrics@,
                    (i + 1) as nat,
                    A as nat,
                );
                let cap = cap_of(ngram_sets@, metrics@, applied_metrics@[i as int]);
                let w = weight as nat;
                assert(cap * w >= 0) by (nonlinear_arith);
            }
            let mass = match ngram_sets[set].total() {
                Some(mass) => mass,
                None => {
                    return Err(Error::Overflow);
                },
            };
            let cap = match metrics[metric].max_value().checked_mul(mass) {
                Some(cap) => cap,
                None => {
                    return Err(Error::Overflow);
                },
            };
            let part = match cap.checked_mul(weight) {
                Some(part) => part,
                None => {
                    return Err(Error::Overflow);
                },
            };
            total = match total.checked_add(part) {
                Some(total) => total,
                None => {
                    return Err(Error::Overflow);
                },
            };
            i += 1;
        }
        Ok(Self { ngram_sets, metrics, applied_metrics, limit: total })
    }

    /// The highest weighted sum that a layout can reach.
    pub fn capacity(&self) -> (r: u64)
        requires
            self.wf(),
        ensures
            r == self.weighted_cap(),
    {
        self.limit
    }

    /// A score of zero for every applied metric.
    pub fn init_score(&self) -> (r: [u64; A])
        ensures
            forall|i: int| 0 <= i < A ==> r@[i] == 0,
    {
        [0u64; A]
    }

    /// The score of a layout never passes the cap of its metric, whatever
    /// is placed.
    pub proof fn lemma_full_score_bound(&self, i: int, layout: Placement)
        requires
            self.wf(),
            0 <= i < A,
            layout.bounded(),
            layout.keys.len() == N,
        ensures
            self.full_score(i, layout) <= (self.table(i).peak() as nat) * mass_upto(
                self.set(i),
                layout.len,
            ),
            self.full_score(i, layout) <= self.cap(i),
            self.cap(i) <= u64::MAX,
        decreases layout.len,
    {
        let p = self.table(i).peak() as nat;
        assert(self.applied()[i].0 < self.sets().len());
        assert(self.sets()[self.applied()[i].0 as int].wf());
        assert(self.tables()[self.applied()[i].1 as int].wf());
        if layout.len > 0 {
            let shorter = Placement { keys: layout.keys, len: (layout.len - 1) as nat };
            self.lemma_full_score_bound(i, shorter);
            self.lemma_step_bound(i, layout);
            let a = mass_upto(self.set(i), shorter.len);
            let b = mass_of(self.set(i)[layout.len - 1]);
            assert(p * (a + b) == p * a + p * b) by (nonlinear_arith);
        } else {
            assert(p * 0 == 0) by (nonlinear_arith);
        }
        lemma_mass_upto_grows(self.set(i), layout.len, N as nat);
        let part = mass_upto(self.set(i), layout.len);
        let all = mass_upto(self.set(i), N as nat);
        assert(p * part <= p * all) by (nonlinear_arith)
            requires
                part <= all,
        ;
    }

    /// The score of a child is the score of its parent plus what the new
    /// character adds, and there is room for it below the cap.
    pub proof fn lemma_child_score(&self, i: int, parent: Placement, child: Placement)
        requires
            self.wf(),
            0 <= i < A,
            parent.bounded(),
            child.bounded(),
            parent.keys.len() == N,
            child.keys.len() == N,
            child.len == parent.len + 1,
            forall|c: int| 0 <= c < parent.len ==> child.keys[c] == parent.keys[c],
        ensures
            self.full_score(i, child) == self.full_score(i, parent) + self.step_score(i, child),
            self.full_score(i, parent) + self.step_cap(i, parent.len as int) <= self.cap(i),
            self.cap(i) <= u64::MAX,
    {
        assert(self.applied()[i].0 < self.sets().len());
        assert(self.sets()[self.applied()[i].0 as int].wf());
        lemma_score_upto_same(self.table(i), child.keys, parent.keys, self.set(i), parent.len);
        self.lemma_full_score_bound(i, parent);
        let p = self.table(i).peak() as nat;
        let a = mass_upto(self.set(i), parent.len);
        let b = mass_of(self.set(i)[parent.len as int]);
        assert(p * (a + b) == p * a + p * b) by (nonlinear_arith);
        lemma_mass_upto_grows(self.set(i), child.len, N as nat);
        let all = mass_upto(self.set(i), N as nat);
        assert(p * (a + b) <= p * all) by (nonlinear_arith)
            requires
                a + b <= all,
        ;
    }

    /// The score of a complete layout, as it grows step by step, is the
    /// score computed from scratch over every tuple of character indices:
    /// the sum of the weight of the tuple times the metric of its keys.
    pub proof fn lemma_from_scratch(&self, i: int, layout: Placement)
        requires
            self.wf(),
            D > 0,
            0 <= i < A,
            layout.len == N,
        ensures
            self.full_score(i, layout) == scratch_upto(
                self.table(i),
                layout.keys,
                self.set(i),
                volume(N as nat, D as nat),
            ),
    {
        assert(self.applied()[i].0 < self.sets().len());
        assert(self.sets()[self.applied()[i].0 as int].wf());
        lemma_scratch(self.table(i), layout.keys, self.set(i));
    }

    /// A layout scores no less than a layout that it continues: what is
    /// placed later only adds to a score.
    pub proof fn lemma_prefix_score(&self, i: int, prefix: Placement, layout: Placement)
        requires
            self.wf(),
            0 <= i < A,
            layout.bounded(),
            prefix.keys.len() == N,
            layout.keys.len() == N,
            prefix.len <= layout.len,
            forall|c: int| 0 <= c < prefix.len ==> prefix.keys[c] == layout.keys[c],
        ensures
            self.full_score(i, prefix) <= self.full_score(i, layout),
    {
        assert(self.applied()[i].0 < self.sets().len());
        assert(self.sets()[self.applied()[i].0 as int].wf());
        lemma_score_upto_same(self.table(i), prefix.keys, layout.keys, self.set(i), prefix.len);
        lemma_score_upto_grows(self.table(i), layout.keys, self.set(i), prefix.len, layout.len);
    }

    /// A layout has no lower objective than a layout that it continues.
    pub proof fn lemma_prefix_objective(&self, prefix: Placement, layout: Placement, upto: nat)
        requires
            self.wf(),
            upto <= A,
            layout.bounded(),
            prefix.keys.len() == N,
            layout.keys.len() == N,
            prefix.len <= layout.len,
            forall|c: int| 0 <= c < prefix.len ==> prefix.keys[c] == layout.keys[c],
        ensures
            self.objective_upto(prefix, upto) <= self.objective_upto(layout, upto),
        decreases upto,
    {
        if upto > 0 {
            self.lemma_prefix_objective(prefix, layout, (upto - 1) as nat);
            self.lemma_prefix_score(upto - 1, prefix, layout);
            let a = self.full_score(upto - 1, prefix);
            let b = self.full_score(upto - 1, layout);
            let w = self.weight(upto - 1) as nat;
            assert(a * w <= b * w) by (nonlinear_arith)
                requires
                    a <= b,
            ;
        }
    }

    /// The weighted sum of scores that were computed step by step is the
    /// objective, and the objective never passes the weighted cap.
    pub proof fn lemma_objective(&self, layout: Placement, scores: Seq<u64>, upto: nat)
        requires
            self.wf(),
            layout.bounded(),
            layout.keys.len() == N,
            upto <= A,
            forall|i: int| 0 <= i < A ==> #[trigger] scores[i] == self.full_score(i, layout),
        ensures
            weighted(scores, self.applied(), upto) == self.objective_upto(layout, upto),
            self.objective_upto(layout, upto) <= weighted_cap_of(
                self.sets(),
                self.tables(),
                self.applied(),
                upto,
            ),
        decreases upto,
    {
        if upto > 0 {
            self.lemma_objective(layout, scores, (upto - 1) as nat);
            self.lemma_full_score_bound(upto - 1, layout);
            let s = self.full_score(upto - 1, layout);
            let c = self.cap(upto - 1);
            let w = self.weight(upto - 1) as nat;
            assert(s * w <= c * w) by (nonlinear_arith)
                requires
                    s <= c,
            ;
        }
    }

    /// Placing a character adds no more to a score than the cap of the step.
    pub proof fn lemma_step_bound(&self, i: int, layout: Placement)
        requires
            self.wf(),
            0 <= i < A,
            layout.bounded(),
            layout.keys.len() == N,
            layout.len >= 1,
        ensures
            self.step_score(i, layout) <= self.step_cap(i, layout.len - 1),
    {
        assert(self.applied()[i].0 < self.sets().len());
        assert(self.sets()[self.applied()[i].0 as int].wf());
        assert(self.tables()[self.applied()[i].1 as int].wf());
        let bucket = self.set(i)[layout.len - 1];
        assert forall|e: int| 0 <= e < bucket.len() implies {
            let t = decoded(layout.keys, (#[trigger] bucket[e]).0);
            t.len() == D && in_range(t, N as nat)
        } by {
            let t = decoded(layout.keys, bucket[e].0);
            lemma_top(bucket[e].0);
            assert forall|j: int| 0 <= j < t.len() implies t[j] < N by {
                assert(bucket[e].0[j] < N);
            }
        }
        lemma_entries_bound(self.table(i), layout.keys, bucket);
    }

    /// Adds to every score what the last character of `layout` brings:
    /// the n-grams that hold this character and none behind it. Returns
    /// whether every score is still within its constraint. It stops at the
    /// first n-gram that lifts a score above its constraint: this score
    /// and the ones before it have been added to, the ones behind it have
    /// not.
    pub fn score(&self, layout: &PartialLayout<N>, score: &mut [u64; A]) -> (r: bool)
        requires
            self.wf(),
            layout.wf(),
            layout@.len >= 1,
            forall|i: int|
                0 <= i < A ==> #[trigger] old(score)@[i] + self.step_cap(i, layout@.len - 1)
                    <= u64::MAX,
        ensures
            r <==> forall|i: int|
                0 <= i < A ==> self.admits(i, layout@, #[trigger] old(score)@[i] as nat),
            r ==> forall|i: int|
                0 <= i < A ==> #[trigger] final(score)@[i] == old(score)@[i] + self.step_score(
                    i,
                    layout@,
                ),
            !r ==> exists|stop: int|
                {
                    &&& 0 <= stop < A
                    &&& !#[trigger] self.admits(stop, layout@, old(score)@[stop] as nat)
                    &&& forall|k: int|
                        0 <= k < stop ==> self.admits(k, layout@, #[trigger] old(score)@[k] as nat)
                    &&& forall|k: int|
                        0 <= k < A ==> #[trigger] final(score)@[k] == if k <= stop {
                            self.left(k, layout@, old(score)@[k] as nat)
                        } else {
                            old(score)@[k] as nat
                        }
                },
    {
        let last = layout.len() - 1;
        let mut i: usize = 0;
        while i < A
            invariant
                i <= A,
                self.wf(),
                layout.wf(),
                layout@.len >= 1,
                last == layout@.len - 1,
                forall|k: int|
                    0 <= k < A ==> #[trigger] old(score)@[k] + self.step_cap(k, layout@.len - 1)
                        <= u64::MAX,
                forall|k: int|
                    0 <= k < i ==> #[trigger] score@[k] == old(score)@[k] + self.step_score(
                        k,
                        layout@,
                    ),
                forall|k: int|
                    0 <= k < i ==> self.admits(k, layout@, #[trigger] old(score)@[k] as nat),
                forall|k: int| i <= k < A ==> #[trigger] score@[k] == old(score)@[k],
            decreases A - i,
        {
            let (set, metric, constraint, _) = self.applied_metrics[i];
            assert(self.applied()[i as int].0 < self.sets().len());
            assert(self.sets()[set as int].wf());
            assert(self.tables()[metric as int].wf());
            let ghost bucket = self.set(i as int)[last as int];
            let ghost table = self.table(i as int);
            let entries = self.ngram_sets[set].bucket_len(last);
            let mut sum: u64 = score[i];
            let mut e: usize = 0;
            proof {
                self.lemma_step_bound(i as int, layout@);
                assert(bucket.skip(0) =~= bucket);
            }
            while e < entries
                invariant
                    e <= entries,
                    i < A,
                    self.wf(),
                    layout.wf(),
                    layout@.len >= 1,
                    last == layout@.len - 1,
                    (set, metric, constraint) == (
                        self.applied()[i as int].0,
                        self.applied()[i as int].1,
                        self.applied()[i as int].2,
                    ),
                    set < self.sets().len(),
                    metric < self.tables().len(),
                    self.sets()[set as int].wf(),
                    self.tables()[metric as int].wf(),
                    bucket == self.set(i as int)[last as int],
                    table == self.table(i as int),
                    entries == bucket.len(),
                    old(score)@[i as int] + self.step_cap(i as int, last as int) <= u64::MAX,
                    sum == old(score)@[i as int] + entries_score(
                        table,
                        layout@.keys,
                        bucket.take(e as int),
                    ),
                    sum <= self.constraint(i as int) || e == 0,
                    self.left(i as int, layout@, old(score)@[i as int] as nat) == halted(
                        table,
                        layout@.keys,
                        bucket.skip(e as int),
                        sum as nat,
                        constraint as nat,
                    ),
                    self.step_score(i as int, layout@) <= self.step_cap(i as int, last as int),
                    forall|k: int|
                        0 <= k < i ==> #[trigger] score@[k] == old(score)@[k] + self.step_score(
                            k,
                            layout@,
                        ),
                    forall|k: int|
                        0 <= k < i ==> self.admits(k, layout@, #[trigger] old(score)@[k] as nat),
                    forall|k: int| i <= k < A ==> #[trigger] score@[k] == old(score)@[k],
                decreases entries - e,
            {
                let (ngram, occurrences) = self.ngram_sets[set].entry(last, e);
                assert((ngram@, occurrences) == bucket[e as int]);
                proof {
                    lemma_top(ngram@);
                }
                let mut keys = ngram;
                let mut j: usize = 0;
                while j < D
                    invariant
                        j <= D,
                        layout.wf(),
                        keys@.len() == D,
                        forall|x: int| 0 <= x < D ==> #[trigger] ngram@[x] < layout@.len,
                        forall|x: int|
                            0 <= x < j ==> #[trigger] keys@[x] == layout@.keys[ngram@[x] as int],
                        forall|x: int| 0 <= x < j ==> #[trigger] keys@[x] < N,
                    decreases D - j,
                {
                    keys[j] = layout.get(ngram[j]);
                    j += 1;
                }
                assert(keys@ =~= decoded(layout@.keys, ngram@));
                let value = self.metrics[metric].get(keys);
                proof {
                    let upto = bucket.take(e + 1);
                    assert(upto.drop_last() =~= bucket.take(e as int));
                    assert(upto.last() == bucket[e as int]);
                    lemma_entries_score_grows(table, layout@.keys, bucket, e + 1);
                    assert(self.step_score(i as int, layout@) <= self.step_cap(
                        i as int,
                        last as int,
                    ));
                    assert(entry_score(table, layout@.keys, bucket[e as int]) == value
                        * occurrences);
                }
                proof {
                    assert(bucket.skip(e as int)[0] == bucket[e as int]);
                    assert(bucket.skip(e as int).drop_first() =~= bucket.skip(e + 1));
                }
                sum = sum + value * occurrences;
                if constraint < sum {
                    score[i] = sum;
                    proof {
                        let stop = i as int;
                        assert(!self.admits(stop, layout@, old(score)@[stop] as nat));
                        assert forall|k: int| 0 <= k < A implies #[trigger] score@[k] == if k
                            <= stop {
                            self.left(k, layout@, old(score)@[k] as nat)
                        } else {
                            old(score)@[k] as nat
                        } by {
                            if k < stop {
                                assert(self.admits(k, layout@, old(score)@[k] as nat));
                                if self.set(k)[layout@.len - 1].len() > 0 {
                                    lemma_halted(
                                        self.table(k),
                                        layout@.keys,
                                        self.set(k)[layout@.len - 1],
                                        old(score)@[k] as nat,
                                        self.constraint(k) as nat,
                                    );
                                }
                            }
                        }
                    }
                    return false;
                }
                e += 1;
            }
            assert(bucket.take(e as int) =~= bucket);
            score[i] = sum;
            i += 1;
        }
        true
    }

    /// The weighted sum of `score`.
    pub fn weighted_sum(&self, score: &[u64; A]) -> (r: u64)
        requires
            self.weighted_sum_of(score@) <= u64::MAX,
        ensures
            r == self.weighted_sum_of(score@),
    {
        let mut total: u64 = 0;
        let mut i: usize = 0;
        while i < A
            invariant
                i <= A,
                self.applied_metrics@.len() == A,
                total == weighted(score@, self.applied(), i as nat),
                weighted(score@, self.applied(), A as nat) <= u64::MAX,
            decreases A - i,
        {
            let weight = self.applied_metrics[i].3;
            proof {
                lemma_weighted_grows(score@, self.applied(), (i + 1) as nat, A as nat);
                let s = score@[i as int] as nat;
                let w = weight as nat;
                assert(0 <= s * w) by (nonlinear_arith);
            }
            total = total + score[i] * weight;
            i += 1;
        }
        total
    }
}

/// The weighted sum of the first caps is no more than that of all.
pub proof fn lemma_weighted_cap_grows<const N: usize, const D: usize>(
    sets: Seq<SparseTensor<N, D>>,
    tables: Seq<NDArray<N, D>>,
    applied: Seq<Applied>,
    a: nat,
    b: nat,
)
    requires
        a <= b,
    ensures
        weighted_cap_of(sets, tables, applied, a) <= weighted_cap_of(sets, tables, applied, b),
    decreases b,
{
    if a < b {
        lemma_weighted_cap_grows(sets, tables, applied, a, (b - 1) as nat);
        let c = cap_of(sets, tables, applied[b - 1]);
        let w = applied[b - 1].3 as nat;
        assert(0 <= c * w) by (nonlinear_arith);
    }
}

/// The weighted sum of the first scores is no more than that of all.
pub proof fn lemma_weighted_grows(scores: Seq<u64>, applied: Seq<Applied>, a: nat, b: nat)
    requires
        a <= b,
    ensures
        weighted(scores, applied, a) <= weighted(scores, applied, b),
    decreases b,
{
    if a < b {
        lemma_weighted_grows(scores, applied, a, (b - 1) as nat);
        let s = scores[b - 1] as nat;
        let w = applied[b - 1].3 as nat;
        assert(0 <= s * w) by (nonlinear_arith);
    }
}

} // verus!
