use crate::error::Error;
use crate::generation::internal::translatable::Translatable;
use vstd::prelude::*;

verus! {

/// The values that the indices in `t` stand for.
pub open spec fn decoded<T>(values: Seq<T>, t: Seq<usize>) -> Seq<T> {
    Seq::new(t.len(), |i: int| values[t[i] as int])
}

/// Every one of `args` is one of `values`.
pub open spec fn made_of<T>(values: Seq<T>, args: Seq<T>) -> bool {
    forall|i: int| 0 <= i < args.len() ==> values.contains(#[trigger] args[i])
}

/// A one-to-one correspondence between `N` values and the indices `0..N`.
pub struct Encoding<T, const N: usize> {
    de: [T; N],
}

impl<T: Translatable, const N: usize> View for Encoding<T, N> {
    type V = Seq<T>;

    /// The encoded values, each at its index.
    closed spec fn view(&self) -> Seq<T> {
        self.de@
    }
}

impl<T: Translatable, const N: usize> Encoding<T, N> {
    /// No value has two indices.
    pub open spec fn wf(&self) -> bool {
        &&& self@.len() == N
        &&& self@.no_duplicates()
    }

    /// Encodes `values` by their positions. Fails with
    /// [`Error::InvalidInput`] when a value occurs twice.
    pub fn new(values: [T; N]) -> (r: Result<Self, Error>)
        ensures
            r is Ok <==> values@.no_duplicates(),
            r matches Ok(e) ==> e.wf() && e@ == values@,
            r matches Err(e) ==> e == Error::InvalidInput,
    {
        let mut i: usize = 0;
        while i < N
            invariant
                i <= N,
                forall|a: int, b: int| 0 <= a < b < i ==> values@[a] != values@[b],
            decreases N - i,
        {
            let mut j: usize = 0;
            while j < i
                invariant
                    j <= i < N,
                    forall|a: int| 0 <= a < j ==> values@[a] != values@[i as int],
                decreases i - j,
            {
                if values[j].same(&values[i]) {
                    return Err(Error::InvalidInput);
                }
                j += 1;
            }
            i += 1;
        }
        Ok(Self { de: values })
    }

    /// The same values in another order: place `i` gets the value that had
    /// index `order[i]`.
    pub fn permuted(&self, order: &Vec<usize>) -> (r: Self)
        requires
            self.wf(),
            order@.len() == N,
            order@.no_duplicates(),
            forall|i: int| 0 <= i < N ==> order@[i] < N,
        ensures
            r.wf(),
            forall|i: int| 0 <= i < N ==> r@[i] == self@[order@[i] as int],
            forall|i: int| 0 <= i < N ==> self@.contains(#[trigger] r@[i]),
    {
        let mut de = self.de;
        let mut i: usize = 0;
        while i < N
            invariant
                i <= N,
                order@.len() == N,
                self@.len() == N,
                forall|j: int| 0 <= j < N ==> order@[j] < N,
                forall|j: int| 0 <= j < i ==> de@[j] == self@[order@[j] as int],
            decreases N - i,
        {
            de[i] = self.de[order[i]];
            i += 1;
        }
        let r = Self { de };
        proof {
            assert forall|j: int| 0 <= j < N implies self@.contains(#[trigger] r@[j]) by {
                assert(self@[order@[j] as int] == r@[j]);
            }
        }
        r
    }

    /// The number of encoded values.
    pub fn len(&self) -> (r: usize)
        ensures
            r == N,
    {
        N
    }

    /// The value with the given index.
    pub fn decode(&self, index: usize) -> (r: T)
        requires
            index < N,
        ensures
            r == self@[index as int],
    {
        self.de[index]
    }

    /// The values with the given indices.
    pub fn decode_tuple<const D: usize>(&self, index: &[usize; D]) -> (r: [T; D])
        requires
            D > 0,
            forall|i: int| 0 <= i < D ==> index@[i] < N,
        ensures
            r@ == decoded(self@, index@),
            made_of(self@, r@),
    {
        let mut r = [self.de[index[0]]; D];
        let mut i: usize = 0;
        while i < D
            invariant
                i <= D,
                forall|j: int| 0 <= j < D ==> index@[j] < N,
                forall|j: int| 0 <= j < i ==> r@[j] == self@[index@[j] as int],
            decreases D - i,
        {
            r[i] = self.de[index[i]];
            i += 1;
        }
        assert(r@ =~= decoded(self@, index@));
        assert forall|i: int| 0 <= i < r@.len() implies self@.contains(#[trigger] r@[i]) by {
            assert(self@[index@[i] as int] == r@[i]);
        }
        r
    }

    /// The index of `value`, or `None` when it is not encoded.
    pub fn encode(&self, value: &T) -> (r: Option<usize>)
        requires
            self.wf(),
        ensures
            r matches Some(i) ==> i < N && self@[i as int] == *value,
            r is None ==> !self@.contains(*value),
    {
        let mut i: usize = 0;
        while i < N
            invariant
                i <= N,
                self@.len() == N,
                forall|a: int| 0 <= a < i ==> self@[a] != *value,
            decreases N - i,
        {
            if self.de[i].same(value) {
                return Some(i);
            }
            i += 1;
        }
        None
    }
}

} // verus!
