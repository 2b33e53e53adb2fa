use crate::generation::analysis::indexes::{
    in_range,
    lemma_row_major_bound,
    lemma_row_major_injective,
    row_major,
    volume,
    Indexes,
};
use crate::generation::internal::encoding::{decoded, made_of, Encoding};
use crate::generation::internal::translatable::Translatable;
use vstd::prelude::*;

verus! {

/// `value` is what `weights` gave for the values that `t` stands for.
pub open spec fn tabulates<T, F: Fn([T; D]) -> u64, const D: usize>(
    weights: F,
    values: Seq<T>,
    t: Seq<usize>,
    value: u64,
) -> bool {
    exists|args: [T; D]| args@ == decoded(values, t) && #[trigger] weights.ensures((args,), value)
}

/// With at least one value per component, more components give no fewer
/// tuples.
pub proof fn lemma_volume_grows(side: nat, a: nat, b: nat)
    requires
        side >= 1,
        a <= b,
    ensures
        1 <= volume(side, a) <= volume(side, b),
    decreases b,
{
    if a < b {
        lemma_volume_grows(side, a, (b - 1) as nat);
        let v = volume(side, (b - 1) as nat);
        assert(v <= v * side) by (nonlinear_arith)
            requires
                side >= 1,
        ;
    } else {
        if a > 0 {
            lemma_volume_grows(side, (a - 1) as nat, (a - 1) as nat);
            let v = volume(side, (a - 1) as nat);
            assert(v <= v * side) by (nonlinear_arith)
                requires
                    side >= 1,
            ;
        }
    }
}

/// A metric in tabulated form: one value for every tuple of `DIM` indices
/// below `SIDE`, in row-major order.
#[derive(Clone, Debug)]
pub struct NDArray<const SIDE: usize, const DIM: usize> {
    data: Vec<u64>,
    peak: u64,
}

impl<const SIDE: usize, const DIM: usize> NDArray<SIDE, DIM> {
    /// The values in row-major order.
    pub closed spec fn cells(&self) -> Seq<u64> {
        self.data@
    }

    /// The largest value in the table, zero for a table without values.
    pub closed spec fn peak(&self) -> u64 {
        self.peak
    }

    /// The value for the tuple `t`.
    pub open spec fn value(&self, t: Seq<usize>) -> u64 {
        self.cells()[row_major(t, SIDE as nat) as int]
    }

    /// There is one value for every tuple, and the peak is the largest of
    /// them: the value of a tuple, or zero.
    pub open spec fn wf(&self) -> bool {
        &&& self.cells().len() == volume(SIDE as nat, DIM as nat)
        &&& forall|i: int| 0 <= i < self.cells().len() ==> #[trigger] self.cells()[i] <= self.peak()
        &&& self.peak() == 0 || exists|t: Seq<usize>|
            t.len() == DIM && in_range(t, SIDE as nat) && #[trigger] self.value(t) == self.peak()
    }

    /// No value for a tuple in range is above the peak.
    pub proof fn lemma_value_bound(&self, t: Seq<usize>)
        requires
            self.wf(),
            t.len() == DIM,
            in_range(t, SIDE as nat),
        ensures
            self.value(t) <= self.peak(),
    {
        lemma_row_major_bound(t, SIDE as nat);
    }

    /// Tabulates `weights` over all tuples of encoded values. A tuple has at
    /// least one component.
    pub fn new<T: Translatable, F: Fn([T; DIM]) -> u64>(
        encoding: &Encoding<T, SIDE>,
        weights: &F,
    ) -> (r: Self)
        requires
            DIM > 0,
            encoding.wf(),
            forall|args: [T; DIM]| made_of(encoding@, args@) ==> weights.requires((args,)),
        ensures
            r.wf(),
            forall|t: Seq<usize>|
                t.len() == DIM && in_range(t, SIDE as nat) ==> tabulates(
                    *weights,
                    encoding@,
                    t,
                    #[trigger] r.value(t),
                ),
    {
        let mut data: Vec<u64> = Vec::new();
        let mut peak: u64 = 0;
        let mut indexes = Indexes::<DIM>::new(encoding.len());
        let ghost total = volume(SIDE as nat, DIM as nat);
        loop
            invariant
                DIM > 0,
                encoding.wf(),
                forall|args: [T; DIM]| made_of(encoding@, args@) ==> weights.requires((args,)),
                indexes.wf(),
                indexes.side() == SIDE,
                indexes.position() == data@.len(),
                data@.len() <= total,
                total == volume(SIDE as nat, DIM as nat),
                forall|i: int| 0 <= i < data@.len() ==> #[trigger] data@[i] <= peak,
                peak == 0 || exists|t: Seq<usize>|
                    t.len() == DIM && in_range(t, SIDE as nat) && row_major(t, SIDE as nat)
                        < data@.len() && #[trigger] data@[row_major(t, SIDE as nat) as int]
                        == peak,
                forall|t: Seq<usize>|
                    t.len() == DIM && in_range(t, SIDE as nat) && row_major(t, SIDE as nat)
                        < data@.len() ==> tabulates(
                        *weights,
                        encoding@,
                        t,
                        #[trigger] data@[row_major(t, SIDE as nat) as int],
                    ),
            ensures
                data@.len() == total,
            decreases total - data@.len(),
        {
            proof {
                indexes.lemma_position_bound();
            }
            match indexes.next() {
                None => {
                    break ;
                },
                Some(index) => {
                    let args = encoding.decode_tuple(&index);
                    let value = weights(args);
                    let ghost before = data@;
                    let ghost topped = peak;
                    data.push(value);
                    if value > peak {
                        peak = value;
                    }
                    proof {
                        assert(data@[before.len() as int] == value);
                        assert forall|t: Seq<usize>|
                            t.len() == DIM && in_range(t, SIDE as nat) && row_major(
                                t,
                                SIDE as nat,
                            ) < data@.len() implies tabulates(
                            *weights,
                            encoding@,
                            t,
                            #[trigger] data@[row_major(t, SIDE as nat) as int],
                        ) by {
                            if row_major(t, SIDE as nat) < before.len() {
                                assert(data@[row_major(t, SIDE as nat) as int]
                                    == before[row_major(t, SIDE as nat) as int]);
                            } else {
                                lemma_row_major_injective(t, index@, SIDE as nat);
                                assert(args@ == decoded(encoding@, t));
                            }
                        }
                        assert forall|i: int| 0 <= i < data@.len() implies #[trigger] data@[i]
                            <= peak by {
                            if i < before.len() {
                                assert(data@[i] == before[i]);
                            }
                        }
                        if value > topped {
                            assert(data@[row_major(index@, SIDE as nat) as int] == peak);
                        } else if topped != 0 {
                            let t = choose|t: Seq<usize>|
                                t.len() == DIM && in_range(t, SIDE as nat) && row_major(
                                    t,
                                    SIDE as nat,
                                ) < before.len() && #[trigger] before[row_major(
                                    t,
                                    SIDE as nat,
                                ) as int] == topped;
                            assert(data@[row_major(t, SIDE as nat) as int] == peak);
                        }
                    }
                },
            }
        }
        let r = Self { data, peak };
        proof {
            assert(r.cells() == data@ && r.peak() == peak);
            if peak != 0 {
                let t = choose|t: Seq<usize>|
                    t.len() == DIM && in_range(t, SIDE as nat) && row_major(t, SIDE as nat)
                        < data@.len() && #[trigger] data@[row_major(t, SIDE as nat) as int]
                        == peak;
                assert(r.value(t) == r.peak());
            }
            assert(r.wf());
            assert forall|t: Seq<usize>| t.len() == DIM && in_range(t, SIDE as nat) implies tabulates(
                *weights,
                encoding@,
                t,
                #[trigger] r.value(t),
            ) by {
                lemma_row_major_bound(t, SIDE as nat);
            }
        }
        r
    }

    /// The value for the tuple `index`.
    pub fn get(&self, index: [usize; DIM]) -> (r: u64)
        requires
            self.wf(),
            in_range(index@, SIDE as nat),
        ensures
            r == self.value(index@),
    {
        let cells = self.data.len();
        let mut sum: usize = 0;
        let mut i: usize = 0;
        proof {
            lemma_row_major_bound(index@, SIDE as nat);
        }
        while i < DIM
            invariant
                i <= DIM,
                in_range(index@, SIDE as nat),
                self.data@.len() == volume(SIDE as nat, DIM as nat),
                cells == self.data@.len(),
                sum == row_major(index@.subrange(0, i as int), SIDE as nat),
            decreases DIM - i,
        {
            proof {
                let head = index@.subrange(0, i + 1);
                assert(head.drop_last() =~= index@.subrange(0, i as int));
                assert(in_range(head, SIDE as nat));
                lemma_row_major_bound(head, SIDE as nat);
                assert(index@[i as int] < SIDE);
                lemma_volume_grows(SIDE as nat, (i + 1) as nat, DIM as nat);
                assert(row_major(head, SIDE as nat) == sum * SIDE + index@[i as int]);
                assert(sum * SIDE >= 0) by (nonlinear_arith)
                    requires
                        sum >= 0,
                        SIDE >= 0,
                ;
            }
            sum = sum * SIDE + index[i];
            i += 1;
        }
        assert(index@.subrange(0, DIM as int) =~= index@);
        self.data[sum]
    }

    /// The largest value in the table.
    pub fn max_value(&self) -> (r: u64)
        ensures
            r == self.peak(),
    {
        self.peak
    }
}

} // verus!
