use crate::generation::analysis::indexes::{
    in_range,
    lemma_row_major_bound,
    lemma_row_major_injective,
    row_major,
    volume,
    Indexes,
};
use crate::corpus_data::{lists, Listing};
use crate::generation::analysis::ndarray::tabulates;
use crate::generation::internal::encoding::{decoded, made_of, Encoding};
use crate::ngrams::{count_of, lemma_total_of_same, total_of};
use crate::generation::internal::translatable::Translatable;
use vstd::prelude::*;

verus! {

/// The largest component of `t`, zero for the empty tuple.
pub open spec fn top(t: Seq<usize>) -> usize
    decreases t.len(),
{
    if t.len() == 0 {
        0
    } else if top(t.drop_last()) >= t.last() {
        top(t.drop_last())
    } else {
        t.last()
    }
}

/// No component is above the top, and the top is a component.
pub proof fn lemma_top(t: Seq<usize>)
    ensures
        forall|i: int| 0 <= i < t.len() ==> #[trigger] t[i] <= top(t),
        t.len() > 0 ==> exists|i: int| 0 <= i < t.len() && #[trigger] t[i] == top(t),
    decreases t.len(),
{
    if t.len() > 0 {
        let p = t.drop_last();
        lemma_top(p);
        assert forall|i: int| 0 <= i < t.len() implies #[trigger] t[i] <= top(t) by {
            if i < p.len() {
                assert(t[i] == p[i]);
            }
        }
        if top(p) >= t.last() && p.len() > 0 {
            let i = choose|i: int| 0 <= i < p.len() && #[trigger] p[i] == top(p);
            assert(t[i] == top(t));
        } else {
            assert(t[t.len() - 1] == top(t));
        }
    }
}

/// The entries of the weighted tuples, bucket by bucket.
pub type Buckets = Seq<Seq<(Seq<usize>, u64)>>;

/// The weight that `buckets` holds for `t`: that of its entry in the bucket
/// of its top, zero when it has none.
pub open spec fn weight_in(buckets: Buckets, t: Seq<usize>) -> u64 {
    let bucket = buckets[top(t) as int];
    if exists|i: int| 0 <= i < bucket.len() && (#[trigger] bucket[i]).0 == t {
        bucket[choose|i: int| 0 <= i < bucket.len() && (#[trigger] bucket[i]).0 == t].1
    } else {
        0
    }
}

/// The sum of the weights of `entries`.
pub open spec fn mass_of(entries: Seq<(Seq<usize>, u64)>) -> nat
    decreases entries.len(),
{
    if entries.len() == 0 {
        0
    } else {
        mass_of(entries.drop_last()) + entries.last().1 as nat
    }
}

/// The sum of the weights in the first `upto` buckets.
pub open spec fn mass_upto(buckets: Buckets, upto: nat) -> nat
    decreases upto,
{
    if upto == 0 {
        0
    } else {
        mass_upto(buckets, (upto - 1) as nat) + mass_of(buckets[upto - 1])
    }
}

/// The first entries of a bucket weigh no more than all of them.
pub proof fn lemma_mass_of_grows(entries: Seq<(Seq<usize>, u64)>, upto: int)
    requires
        0 <= upto <= entries.len(),
    ensures
        mass_of(entries.take(upto)) <= mass_of(entries),
    decreases entries.len(),
{
    if upto < entries.len() {
        lemma_mass_of_grows(entries.drop_last(), upto);
        assert(entries.drop_last().take(upto) =~= entries.take(upto));
    } else {
        assert(entries.take(upto) =~= entries);
    }
}

/// The first buckets weigh no more than all of them.
pub proof fn lemma_mass_upto_grows(buckets: Buckets, a: nat, b: nat)
    requires
        a <= b,
    ensures
        mass_upto(buckets, a) <= mass_upto(buckets, b),
    decreases b,
{
    if a < b {
        lemma_mass_upto_grows(buckets, a, (b - 1) as nat);
    }
}

/// Buckets without entries weigh nothing.
pub proof fn lemma_no_entries(buckets: Buckets, upto: nat)
    requires
        upto <= buckets.len(),
        forall|m: int| 0 <= m < buckets.len() ==> (#[trigger] buckets[m]).len() == 0,
    ensures
        mass_upto(buckets, upto) == 0,
    decreases upto,
{
    if upto > 0 {
        lemma_no_entries(buckets, (upto - 1) as nat);
        assert(buckets[upto - 1].len() == 0);
    }
}

/// What `side` buckets of tuples of length `dim` have to fulfil: bucket `m`
/// holds tuples in range with top `m` and weights other than zero, in
/// lexicographic order.
pub open spec fn buckets_wf(buckets: Buckets, side: nat, dim: nat) -> bool {
    &&& buckets.len() == side
    &&& forall|m: int, i: int|
        0 <= m < buckets.len() && 0 <= i < buckets[m].len() ==> {
            let e = #[trigger] buckets[m][i];
            &&& e.0.len() == dim
            &&& in_range(e.0, side)
            &&& top(e.0) == m
            &&& e.1 != 0
        }
    &&& forall|m: int, i: int, j: int|
        0 <= m < buckets.len() && 0 <= i < j < buckets[m].len() ==> row_major(
            (#[trigger] buckets[m][i]).0,
            side,
        ) < row_major((#[trigger] buckets[m][j]).0, side)
}

/// An entry's weight is the weight of its tuple.
pub proof fn lemma_weight_at(buckets: Buckets, side: nat, dim: nat, m: int, i: int)
    requires
        buckets_wf(buckets, side, dim),
        0 <= m < buckets.len(),
        0 <= i < buckets[m].len(),
    ensures
        weight_in(buckets, buckets[m][i].0) == buckets[m][i].1,
{
    let t = buckets[m][i].0;
    let bucket = buckets[top(t) as int];
    assert(bucket[i].0 == t);
    let c = choose|c: int| 0 <= c < bucket.len() && (#[trigger] bucket[c]).0 == t;
    if c < i {
        assert(row_major(buckets[m][c].0, side) < row_major(buckets[m][i].0, side));
    } else if i < c {
        assert(row_major(buckets[m][i].0, side) < row_major(buckets[m][c].0, side));
    }
}

/// The n-grams with a weight other than zero, as tuples of character
/// indices. Bucket `m` holds the tuples whose largest index is `m`: those
/// that are fully placed once character `m` has a key.
#[derive(Clone, Debug)]
pub struct SparseTensor<const SIDE: usize, const DIM: usize> {
    buckets: Vec<Vec<([usize; DIM], u64)>>,
}

impl<const SIDE: usize, const DIM: usize> View for SparseTensor<SIDE, DIM> {
    type V = Buckets;

    /// The entries, bucket by bucket.
    closed spec fn view(&self) -> Buckets {
        listed(self.buckets@)
    }
}

/// The plain values behind the stored buckets.
spec fn listed<const DIM: usize>(buckets: Seq<Vec<([usize; DIM], u64)>>) -> Buckets {
    Seq::new(
        buckets.len(),
        |m: int| Seq::new(buckets[m]@.len(), |i: int| (buckets[m]@[i].0@, buckets[m]@[i].1)),
    )
}

/// The largest component of `index`.
fn max_component<const DIM: usize>(index: &[usize; DIM]) -> (r: usize)
    ensures
        r == top(index@),
{
    let mut r: usize = 0;
    let mut i: usize = 0;
    while i < DIM
        invariant
            i <= DIM,
            r == top(index@.subrange(0, i as int)),
        decreases DIM - i,
    {
        proof {
            assert(index@.subrange(0, i + 1).drop_last() =~= index@.subrange(0, i as int));
        }
        if index[i] > r {
            r = index[i];
        }
        i += 1;
    }
    assert(index@.subrange(0, DIM as int) =~= index@);
    r
}

impl<const SIDE: usize, const DIM: usize> SparseTensor<SIDE, DIM> {
    /// There is a bucket for every index, and the buckets are in order.
    pub open spec fn wf(&self) -> bool {
        buckets_wf(self@, SIDE as nat, DIM as nat)
    }

    /// The weight of the tuple `t`.
    pub open spec fn weight(&self, t: Seq<usize>) -> u64 {
        weight_in(self@, t)
    }

    /// The sum of all weights.
    pub open spec fn mass(&self) -> nat {
        mass_upto(self@, SIDE as nat)
    }

    /// A tensor in which no tuple has a weight has no entries, and so no
    /// mass.
    pub proof fn lemma_weightless(&self)
        requires
            self.wf(),
            forall|t: Seq<usize>|
                t.len() == DIM && in_range(t, SIDE as nat) ==> #[trigger] self.weight(t) == 0,
        ensures
            self.mass() == 0,
    {
        assert forall|m: int| 0 <= m < self@.len() implies (#[trigger] self@[m]).len() == 0 by {
            if self@[m].len() > 0 {
                lemma_weight_at(self@, SIDE as nat, DIM as nat, m, 0);
                assert(self.weight(self@[m][0].0) == 0);
            }
        }
        lemma_no_entries(self@, SIDE as nat);
    }

    /// Collects the tuples of encoded values to which `weights` gives a
    /// weight other than zero. A tuple has at least one component.
    pub fn new<T: Translatable, F: Fn([T; DIM]) -> u64>(
        encoding: &Encoding<T, SIDE>,
        weights: &F,
    ) -> (r: Self)
        requires
            DIM > 0,
            encoding.wf(),
            forall|args: [T; DIM]| made_of(encoding@, args@) ==> weights.requires((args,)),
        ensures
            r.wf(),
            forall|t: Seq<usize>|
                t.len() == DIM && in_range(t, SIDE as nat) ==> tabulates(
                    *weights,
                    encoding@,
                    t,
                    #[trigger] r.weight(t),
                ),
    {
        let mut data: Vec<Vec<([usize; DIM], u64)>> = Vec::new();
        let mut m: usize = 0;
        while m < SIDE
            invariant
                m <= SIDE,
                data@.len() == m,
                forall|k: int| 0 <= k < m ==> (#[trigger] data@[k])@.len() == 0,
            decreases SIDE - m,
        {
            data.push(Vec::new());
            m += 1;
        }
        let mut indexes = Indexes::<DIM>::new(encoding.len());
        let ghost total = volume(SIDE as nat, DIM as nat);
        loop
            invariant
                DIM > 0,
                encoding.wf(),
                forall|args: [T; DIM]| made_of(encoding@, args@) ==> weights.requires((args,)),
                indexes.wf(),
                indexes.side() == SIDE,
                indexes.position() <= total,
                total == volume(SIDE as nat, DIM as nat),
                buckets_wf(listed(data@), SIDE as nat, DIM as nat),
                forall|k: int, i: int|
                    0 <= k < data@.len() && 0 <= i < data@[k]@.len() ==> row_major(
                        (#[trigger] listed(data@)[k][i]).0,
                        SIDE as nat,
                    ) < indexes.position(),
                forall|t: Seq<usize>|
                    t.len() == DIM && in_range(t, SIDE as nat) && row_major(t, SIDE as nat)
                        < indexes.position() ==> tabulates(
                        *weights,
                        encoding@,
                        t,
                        #[trigger] weight_in(listed(data@), t),
                    ),
            ensures
                indexes.position() == total,
            decreases total - indexes.position(),
        {
            proof {
                indexes.lemma_position_bound();
            }
            let ghost at = indexes.position();
            match indexes.next() {
                None => {
                    break ;
                },
                Some(index) => {
                    let args = encoding.decode_tuple(&index);
                    let w = weights(args);
                    let ghost before = listed(data@);
                    proof {
                        lemma_top(index@);
                    }
                    if w != 0 {
                        let m = max_component(&index);
                        data[m].push((index, w));
                        proof {
                            let after = listed(data@);
                            assert(after[m as int] =~= before[m as int].push((index@, w)));
                            assert forall|k: int| 0 <= k < after.len() && k != m implies after[k]
                                =~= before[k] by {}
                            assert(buckets_wf(after, SIDE as nat, DIM as nat)) by {
                                assert forall|k: int, i: int|
                                    0 <= k < after.len() && 0 <= i < after[k].len() implies {
                                    let e = #[trigger] after[k][i];
                                    &&& e.0.len() == DIM
                                    &&& in_range(e.0, SIDE as nat)
                                    &&& top(e.0) == k
                                    &&& e.1 != 0
                                } by {
                                    if k != m || i < before[k].len() {
                                        assert(after[k][i] == before[k][i]);
                                    }
                                }
                                assert forall|k: int, i: int, j: int|
                                    0 <= k < after.len() && 0 <= i < j < after[k].len() implies row_major(
                                    (#[trigger] after[k][i]).0,
                                    SIDE as nat,
                                ) < row_major((#[trigger] after[k][j]).0, SIDE as nat) by {
                                    assert(after[k][i] == before[k][i]);
                                    if k != m || j < before[k].len() {
                                        assert(after[k][j] == before[k][j]);
                                    }
                                }
                            }
                            assert forall|k: int, i: int|
                                0 <= k < data@.len() && 0 <= i < data@[k]@.len() implies row_major(
                                (#[trigger] after[k][i]).0,
                                SIDE as nat,
                            ) < indexes.position() by {
                                if k != m || i < before[k].len() {
                                    assert(after[k][i] == before[k][i]);
                                }
                            }
                            assert forall|t: Seq<usize>|
                                t.len() == DIM && in_range(t, SIDE as nat) && row_major(
                                    t,
                                    SIDE as nat,
                                ) < indexes.position() implies tabulates(
                                *weights,
                                encoding@,
                                t,
                                #[trigger] weight_in(after, t),
                            ) by {
                                if row_major(t, SIDE as nat) < at {
                                    lemma_weight_kept(before, after, SIDE as nat, DIM as nat, t);
                                    assert(tabulates(
                                        *weights,
                                        encoding@,
                                        t,
                                        weight_in(before, t),
                                    ));
                                } else {
                                    lemma_row_major_injective(t, index@, SIDE as nat);
                                    assert(after[m as int][before[m as int].len() as int].0 == t);
                                    lemma_weight_at(
                                        after,
                                        SIDE as nat,
                                        DIM as nat,
                                        m as int,
                                        before[m as int].len() as int,
                                    );
                                }
                            }
                        }
                    } else {
                        proof {
                            assert forall|t: Seq<usize>|
                                t.len() == DIM && in_range(t, SIDE as nat) && row_major(
                                    t,
                                    SIDE as nat,
                                ) < indexes.position() implies tabulates(
                                *weights,
                                encoding@,
                                t,
                                #[trigger] weight_in(before, t),
                            ) by {
                                if row_major(t, SIDE as nat) >= at {
                                    lemma_row_major_injective(t, index@, SIDE as nat);
                                    let bucket = before[top(t) as int];
                                    if exists|i: int|
                                        0 <= i < bucket.len() && (#[trigger] bucket[i]).0 == t {
                                        let i = choose|i: int|
                                            0 <= i < bucket.len() && (#[trigger] bucket[i]).0 == t;
                                        assert(row_major(
                                            before[top(t) as int][i].0,
                                            SIDE as nat,
                                        ) < at);
                                    }
                                }
                            }
                        }
                    }
                },
            }
        }
        let r = Self { buckets: data };
        proof {
            assert forall|t: Seq<usize>| t.len() == DIM && in_range(t, SIDE as nat) implies tabulates(
                *weights,
                encoding@,
                t,
                #[trigger] r.weight(t),
            ) by {
                lemma_row_major_bound(t, SIDE as nat);
            }
        }
        r
    }

    /// The sum of all weights, or `None` when it does not fit in 64 bits.
    pub fn total(&self) -> (r: Option<u64>)
        requires
            self.wf(),
        ensures
            match r {
                Some(sum) => sum == self.mass(),
                None => self.mass() > u64::MAX,
            },
    {
        let mut sum: u64 = 0;
        let mut m: usize = 0;
        while m < self.buckets.len()
            invariant
                m <= self@.len(),
                self@.len() == SIDE,
                self.buckets@.len() == SIDE,
                sum == mass_upto(self@, m as nat),
            decreases SIDE - m,
        {
            let mut part: u64 = 0;
            let mut i: usize = 0;
            while i < self.buckets[m].len()
                invariant
                    m < self.buckets@.len(),
                    self@.len() == self.buckets@.len(),
                    self@[m as int].len() == self.buckets@[m as int]@.len(),
                    i <= self@[m as int].len(),
                    self@.len() == SIDE,
                    sum == mass_upto(self@, m as nat),
                    part == mass_of(self@[m as int].take(i as int)),
                    sum + part <= u64::MAX,
                decreases self@[m as int].len() - i,
            {
                let weight = self.buckets[m][i].1;
                proof {
                    let bucket = self@[m as int];
                    assert(bucket.take(i + 1).drop_last() =~= bucket.take(i as int));
                    assert(bucket.take(i + 1).last().1 == weight);
                }
                match part.checked_add(weight) {
                    Some(more) => {
                        if more > u64::MAX - sum {
                            proof {
                                lemma_mass_of_grows(self@[m as int], i + 1);
                                lemma_mass_upto_grows(self@, (m + 1) as nat, SIDE as nat);
                            }
                            return None;
                        }
                        part = more;
                    },
                    None => {
                        proof {
                            lemma_mass_of_grows(self@[m as int], i + 1);
                            lemma_mass_upto_grows(self@, (m + 1) as nat, SIDE as nat);
                        }
                        return None;
                    },
                }
                i += 1;
            }
            assert(self@[m as int].take(i as int) =~= self@[m as int]);
            sum = sum + part;
            m += 1;
        }
        Some(sum)
    }

    /// The number of entries in bucket `m`.
    pub fn bucket_len(&self, m: usize) -> (r: usize)
        requires
            m < self@.len(),
        ensures
            r == self@[m as int].len(),
    {
        self.buckets[m].len()
    }

    /// Entry `i` of bucket `m`: a tuple and its weight.
    pub fn entry(&self, m: usize, i: usize) -> (r: ([usize; DIM], u64))
        requires
            m < self@.len(),
            i < self@[m as int].len(),
        ensures
            (r.0@, r.1) == self@[m as int][i as int],
    {
        self.buckets[m][i]
    }
}

/// Entries that come behind those of a bucket leave the weights of all
/// other tuples as they were.
proof fn lemma_weight_kept(before: Buckets, after: Buckets, side: nat, dim: nat, t: Seq<usize>)
    requires
        buckets_wf(before, side, dim),
        buckets_wf(after, side, dim),
        t.len() == dim,
        in_range(t, side),
        dim > 0,
        exists|m: int|
            0 <= m < before.len() && #[trigger] after[m] == before[m].push(after[m].last())
                && after[m].len() > 0 && after[m].last().0 != t && forall|k: int|
                0 <= k < before.len() && k != m ==> after[k] == before[k],
    ensures
        weight_in(after, t) == weight_in(before, t),
{
    lemma_top(t);
    let m = choose|m: int|
        0 <= m < before.len() && #[trigger] after[m] == before[m].push(after[m].last())
            && after[m].len() > 0 && after[m].last().0 != t && forall|k: int|
            0 <= k < before.len() && k != m ==> after[k] == before[k];
    let b = top(t) as int;
    if b == m {
        let old_bucket = before[b];
        let new_bucket = after[b];
        if exists|i: int| 0 <= i < old_bucket.len() && (#[trigger] old_bucket[i]).0 == t {
            let i = choose|i: int| 0 <= i < old_bucket.len() && (#[trigger] old_bucket[i]).0 == t;
            assert(new_bucket[i] == old_bucket[i]);
            lemma_weight_at(before, side, dim, b, i);
            lemma_weight_at(after, side, dim, b, i);
        } else {
            if exists|i: int| 0 <= i < new_bucket.len() && (#[trigger] new_bucket[i]).0 == t {
                let i = choose|i: int|
                    0 <= i < new_bucket.len() && (#[trigger] new_bucket[i]).0 == t;
                assert(new_bucket[i] == old_bucket[i]);
            }
        }
    }
}

/// Tuples in range that stand for the same values are the same tuple, where
/// no value has two indices.
pub proof fn lemma_decoded_injective<T>(values: Seq<T>, s: Seq<usize>, t: Seq<usize>)
    requires
        values.no_duplicates(),
        s.len() == t.len(),
        in_range(s, values.len()),
        in_range(t, values.len()),
        decoded(values, s) == decoded(values, t),
    ensures
        s == t,
{
    assert forall|i: int| 0 <= i < s.len() implies s[i] == t[i] by {
        assert(decoded(values, s)[i] == values[s[i] as int]);
        assert(decoded(values, t)[i] == values[t[i] as int]);
    }
    assert(s =~= t);
}

/// Without one of its entries a bucket weighs less by the weight of that
/// entry.
pub proof fn lemma_mass_of_remove(entries: Seq<(Seq<usize>, u64)>, i: int)
    requires
        0 <= i < entries.len(),
    ensures
        mass_of(entries.remove(i)) + entries[i].1 == mass_of(entries),
    decreases entries.len(),
{
    if i == entries.len() - 1 {
        assert(entries.remove(i) =~= entries.drop_last());
    } else {
        lemma_mass_of_remove(entries.drop_last(), i);
        assert(entries.remove(i).drop_last() =~= entries.drop_last().remove(i));
        assert(entries.remove(i).last() == entries.last());
    }
}

/// With another bucket in place of bucket `m`, the buckets weigh what they
/// weighed, but for the difference between the two.
pub proof fn lemma_mass_upto_update(buckets: Buckets, m: int, other: Seq<(Seq<usize>, u64)>, upto: nat)
    requires
        0 <= m < buckets.len(),
        upto <= buckets.len(),
    ensures
        mass_upto(buckets.update(m, other), upto) + (if m < upto {
            mass_of(buckets[m])
        } else {
            0
        }) == mass_upto(buckets, upto) + (if m < upto {
            mass_of(other)
        } else {
            0
        }),
    decreases upto,
{
    if upto > 0 {
        lemma_mass_upto_update(buckets, m, other, (upto - 1) as nat);
    }
}

/// Buckets without entry `i` of bucket `m` are in order, and hold for
/// every other tuple the weight that they held.
pub proof fn lemma_removed(buckets: Buckets, side: nat, dim: nat, m: int, i: int)
    requires
        dim > 0,
        buckets_wf(buckets, side, dim),
        0 <= m < buckets.len(),
        0 <= i < buckets[m].len(),
    ensures
        buckets_wf(buckets.update(m, buckets[m].remove(i)), side, dim),
        forall|t: Seq<usize>|
            t.len() == dim && in_range(t, side) ==> #[trigger] weight_in(
                buckets.update(m, buckets[m].remove(i)),
                t,
            ) == if t == buckets[m][i].0 {
                0
            } else {
                weight_in(buckets, t)
            },
{
    let bucket = buckets[m];
    let smaller = bucket.remove(i);
    let after = buckets.update(m, smaller);
    let back = |j: int|
        if j < i {
            j
        } else {
            j + 1
        };
    assert(buckets_wf(after, side, dim)) by {
        assert forall|k: int, j: int| 0 <= k < after.len() && 0 <= j < after[k].len() implies {
            let e = #[trigger] after[k][j];
            &&& e.0.len() == dim
            &&& in_range(e.0, side)
            &&& top(e.0) == k
            &&& e.1 != 0
        } by {
            if k == m {
                assert(after[k][j] == buckets[k][back(j)]);
            } else {
                assert(after[k][j] == buckets[k][j]);
            }
        }
        assert forall|k: int, a: int, b: int|
            0 <= k < after.len() && 0 <= a < b < after[k].len() implies row_major(
            (#[trigger] after[k][a]).0,
            side,
        ) < row_major((#[trigger] after[k][b]).0, side) by {
            if k == m {
                assert(after[k][a] == buckets[k][back(a)]);
                assert(after[k][b] == buckets[k][back(b)]);
            } else {
                assert(after[k][a] == buckets[k][a]);
                assert(after[k][b] == buckets[k][b]);
            }
        }
    }
    assert forall|t: Seq<usize>| t.len() == dim && in_range(t, side) implies #[trigger] weight_in(
        after,
        t,
    ) == if t == buckets[m][i].0 {
        0
    } else {
        weight_in(buckets, t)
    } by {
        lemma_top(t);
        let at = choose|at: int| 0 <= at < t.len() && #[trigger] t[at] == top(t);
        assert(t[at] < side);
        let b = top(t) as int;
        if b == m {
            if exists|j: int| 0 <= j < smaller.len() && (#[trigger] smaller[j]).0 == t {
                let j = choose|j: int| 0 <= j < smaller.len() && (#[trigger] smaller[j]).0 == t;
                assert(smaller[j] == bucket[back(j)]);
                lemma_weight_at(after, side, dim, m, j);
                lemma_weight_at(buckets, side, dim, m, back(j));
                if back(j) < i {
                    assert(row_major(buckets[m][back(j)].0, side) < row_major(
                        buckets[m][i].0,
                        side,
                    ));
                } else {
                    assert(row_major(buckets[m][i].0, side) < row_major(
                        buckets[m][back(j)].0,
                        side,
                    ));
                }
            } else {
                if exists|j: int| 0 <= j < bucket.len() && (#[trigger] bucket[j]).0 == t {
                    let j = choose|j: int| 0 <= j < bucket.len() && (#[trigger] bucket[j]).0 == t;
                    if j != i {
                        let to = if j < i {
                            j
                        } else {
                            j - 1
                        };
                        assert(smaller[to] == bucket[j]);
                    }
                }
            }
        } else {
            assert(after[b] == buckets[b]);
        }
    }
}

/// Buckets that hold for every tuple the count of the n-gram that it stands
/// for weigh no more than all counts together.
pub proof fn lemma_mass_within_counts(
    buckets: Buckets,
    dim: nat,
    chars: Seq<char>,
    listing: Listing,
    map: Map<Seq<char>, nat>,
)
    requires
        dim > 0,
        buckets_wf(buckets, chars.len(), dim),
        chars.no_duplicates(),
        lists(listing, map),
        forall|t: Seq<usize>|
            t.len() == dim && in_range(t, chars.len()) ==> (#[trigger] weight_in(buckets, t)) as nat
                == count_of(map, decoded(chars, t)),
    ensures
        mass_upto(buckets, chars.len()) <= total_of(listing, listing.len()),
    decreases listing.len(),
{
    let side = chars.len();
    if listing.len() == 0 {
        assert forall|m: int| 0 <= m < buckets.len() implies (#[trigger] buckets[m]).len() == 0 by {
            if buckets[m].len() > 0 {
                let t = buckets[m][0].0;
                lemma_weight_at(buckets, side, dim, m, 0);
                assert(weight_in(buckets, t) as nat == count_of(map, decoded(chars, t)));
                if map.dom().contains(decoded(chars, t)) {
                    let j = choose|j: int|
                        0 <= j < listing.len() && (#[trigger] listing[j]).0 == decoded(chars, t);
                }
            }
        }
        lemma_no_entries(buckets, side);
    } else {
        let last = listing.len() - 1;
        let key = listing[last].0;
        let fewer = listing.drop_last();
        let less = map.remove(key);
        assert(lists(fewer, less)) by {
            assert forall|j: int| 0 <= j < fewer.len() implies less.dom().contains(
                (#[trigger] fewer[j]).0,
            ) && less[fewer[j].0] == fewer[j].1 by {
                assert(fewer[j] == listing[j]);
                assert(listing[j].0 != listing[last].0);
            }
            assert forall|a: int, b: int| 0 <= a < b < fewer.len() implies fewer[a].0
                != fewer[b].0 by {
                assert(fewer[a] == listing[a] && fewer[b] == listing[b]);
            }
            assert forall|k: Seq<char>| less.dom().contains(k) implies exists|j: int|
                0 <= j < fewer.len() && (#[trigger] fewer[j]).0 == k by {
                let j = choose|j: int| 0 <= j < listing.len() && (#[trigger] listing[j]).0 == k;
                assert(fewer[j] == listing[j]);
            }
        }
        assert(map.dom().contains(listing[last].0) && map[key] == listing[last].1);
        if exists|m: int, i: int|
            0 <= m < buckets.len() && 0 <= i < buckets[m].len() && decoded(
                chars,
                (#[trigger] buckets[m][i]).0,
            ) == key {
            let (m, i) = choose|m: int, i: int|
                0 <= m < buckets.len() && 0 <= i < buckets[m].len() && decoded(
                    chars,
                    (#[trigger] buckets[m][i]).0,
                ) == key;
            let entry = buckets[m][i];
            let after = buckets.update(m, buckets[m].remove(i));
            lemma_removed(buckets, side, dim, m, i);
            lemma_weight_at(buckets, side, dim, m, i);
            assert(weight_in(buckets, entry.0) as nat == count_of(map, decoded(chars, entry.0)));
            assert forall|t: Seq<usize>| t.len() == dim && in_range(t, side) implies (
            #[trigger] weight_in(after, t)) as nat == count_of(less, decoded(chars, t)) by {
                assert(weight_in(buckets, t) as nat == count_of(map, decoded(chars, t)));
                if t != entry.0 {
                    if decoded(chars, t) == key {
                        lemma_decoded_injective(chars, t, entry.0);
                    }
                }
            }
            lemma_mass_within_counts(after, dim, chars, fewer, less);
            lemma_total_of_same(fewer, listing, fewer.len());
            lemma_mass_of_remove(buckets[m], i);
            lemma_mass_upto_update(buckets, m, buckets[m].remove(i), side);
        } else {
            assert forall|t: Seq<usize>| t.len() == dim && in_range(t, side) implies (
            #[trigger] weight_in(buckets, t)) as nat == count_of(less, decoded(chars, t)) by {
                assert(weight_in(buckets, t) as nat == count_of(map, decoded(chars, t)));
                if decoded(chars, t) == key {
                    lemma_top(t);
                    let at = choose|at: int| 0 <= at < t.len() && #[trigger] t[at] == top(t);
                    assert(t[at] < side);
                    let bucket = buckets[top(t) as int];
                    if exists|j: int| 0 <= j < bucket.len() && (#[trigger] bucket[j]).0 == t {
                        let j = choose|j: int|
                            0 <= j < bucket.len() && (#[trigger] bucket[j]).0 == t;
                        assert(decoded(chars, buckets[top(t) as int][j].0) == key);
                    }
                }
            }
            lemma_mass_within_counts(buckets, dim, chars, fewer, less);
            lemma_total_of_same(fewer, listing, fewer.len());
        }
    }
}

} // verus!
