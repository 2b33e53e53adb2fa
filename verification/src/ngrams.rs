use vstd::prelude::*;

verus! {

/// How often `key` is counted in `map`: its value, or zero when it has none.
pub open spec fn count_of(map: Map<Seq<char>, nat>, key: Seq<char>) -> nat {
    if map.dom().contains(key) {
        map[key]
    } else {
        0
    }
}

/// `map` with `by` more occurrences of `key`.
pub open spec fn bumped(map: Map<Seq<char>, nat>, key: Seq<char>, by: nat) -> Map<
    Seq<char>,
    nat,
> {
    map.insert(key, count_of(map, key) + by)
}

/// The sum of the counts of the first `upto` entries of `listing`.
pub open spec fn total_of(listing: Seq<(Seq<char>, nat)>, upto: nat) -> nat
    decreases upto,
{
    if upto == 0 {
        0
    } else {
        total_of(listing, (upto - 1) as nat) + listing[upto - 1].1
    }
}

/// The first entries sum to no more than all of them.
pub proof fn lemma_total_of_grows(listing: Seq<(Seq<char>, nat)>, a: nat, b: nat)
    requires
        a <= b,
    ensures
        total_of(listing, a) <= total_of(listing, b),
    decreases b,
{
    if a < b {
        lemma_total_of_grows(listing, a, (b - 1) as nat);
    }
}

/// Listings that agree in their first `upto` entries sum to the same there.
pub proof fn lemma_total_of_same(
    a: Seq<(Seq<char>, nat)>,
    b: Seq<(Seq<char>, nat)>,
    upto: nat,
)
    requires
        forall|i: int| 0 <= i < upto ==> a[i] == b[i],
    ensures
        total_of(a, upto) == total_of(b, upto),
    decreases upto,
{
    if upto > 0 {
        lemma_total_of_same(a, b, (upto - 1) as nat);
    }
}

/// Whether two n-grams hold the same characters.
pub fn same_ngram<const N: usize>(a: &[char; N], b: &[char; N]) -> (r: bool)
    ensures
        r == (a@ == b@),
{
    let mut i: usize = 0;
    while i < N
        invariant
            i <= N,
            forall|j: int| 0 <= j < i ==> a@[j] == b@[j],
        decreases N - i,
    {
        if a[i] != b[i] {
            return false;
        }
        i += 1;
    }
    assert(a@ =~= b@);
    true
}

/// `a` and `b` hold the same characters before position `i`, and at
/// position `i` the character of `a` is the lower one.
pub open spec fn parts_at(a: Seq<char>, b: Seq<char>, i: int) -> bool {
    &&& 0 <= i < a.len()
    &&& i < b.len()
    &&& a[i] < b[i]
    &&& forall|j: int| 0 <= j < i ==> a[j] == b[j]
}

/// Whether `a` comes before `b` in the order of a dictionary.
pub open spec fn precedes(a: Seq<char>, b: Seq<char>) -> bool {
    exists|i: int| parts_at(a, b, i)
}

/// No n-gram comes before itself.
pub proof fn lemma_precedes_not_itself(a: Seq<char>)
    ensures
        !precedes(a, a),
{
}

/// What comes before an n-gram comes before everything behind that n-gram.
pub proof fn lemma_precedes_chain(a: Seq<char>, b: Seq<char>, c: Seq<char>)
    requires
        precedes(a, b),
        precedes(b, c),
    ensures
        precedes(a, c),
{
    let i = choose|i: int| parts_at(a, b, i);
    let j = choose|j: int| parts_at(b, c, j);
    if i <= j {
        assert(parts_at(a, c, i));
    } else {
        assert(parts_at(a, c, j));
    }
}

/// Whether `a` comes before `b` in the order of a dictionary; if not, and
/// if they differ, `b` comes before `a`.
pub fn comes_before<const N: usize>(a: &[char; N], b: &[char; N]) -> (r: bool)
    ensures
        r == precedes(a@, b@),
        !r && a@ != b@ ==> precedes(b@, a@),
{
    let mut i: usize = 0;
    while i < N
        invariant
            i <= N,
            forall|j: int| 0 <= j < i ==> a@[j] == b@[j],
        decreases N - i,
    {
        if a[i] != b[i] {
            if a[i] < b[i] {
                assert(parts_at(a@, b@, i as int));
                return true;
            } else {
                assert(parts_at(b@, a@, i as int));
                assert(!precedes(a@, b@)) by {
                    if precedes(a@, b@) {
                        let k = choose|k: int| parts_at(a@, b@, k);
                    }
                }
                return false;
            }
        }
        i += 1;
    }
    assert(a@ =~= b@);
    false
}

/// Occurrence counts of n-grams of `N` characters. Every n-gram has at most
/// one entry; the entries are kept in the order of a dictionary.
#[derive(Clone, Debug)]
pub struct NGrams<const N: usize> {
    entries: Vec<([char; N], u64)>,
}

impl<const N: usize> View for NGrams<N> {
    type V = Map<Seq<char>, nat>;

    /// The count of every n-gram that has an entry.
    closed spec fn view(&self) -> Map<Seq<char>, nat> {
        Map::new(
            |k: Seq<char>| exists|i: int| self.holds_at(i, k),
            |k: Seq<char>| self.entries@[choose|i: int| self.holds_at(i, k)].1 as nat,
        )
    }
}

impl<const N: usize> Default for NGrams<N> {
    /// No n-gram is counted.
    fn default() -> (r: Self)
        ensures
            r.wf(),
            r@ == Map::<Seq<char>, nat>::empty(),
    {
        NGrams::new()
    }
}

impl<const N: usize> NGrams<N> {
    /// Entry `i` is the entry of `key`.
    closed spec fn holds_at(&self, i: int, key: Seq<char>) -> bool {
        0 <= i < self.entries@.len() && self.entries@[i].0@ == key
    }

    /// The entries one by one: every n-gram that is counted, once, with its
    /// count.
    pub closed spec fn listing(&self) -> Seq<(Seq<char>, nat)> {
        Seq::new(self.entries@.len(), |i: int| (self.entries@[i].0@, self.entries@[i].1 as nat))
    }

    /// No n-gram has two entries, and the entries are in order.
    pub closed spec fn wf(&self) -> bool {
        &&& forall|i: int, j: int|
            0 <= i < j < self.entries@.len() ==> self.entries@[i].0@ != self.entries@[j].0@
        &&& forall|i: int, j: int|
            0 <= i < j < self.entries@.len() ==> precedes(
                self.entries@[i].0@,
                self.entries@[j].0@,
            )
    }

    /// How often `key` is counted.
    pub open spec fn count(&self, key: Seq<char>) -> nat {
        count_of(self@, key)
    }

    /// The sum of all counts.
    pub open spec fn mass(&self) -> nat {
        total_of(self.listing(), self.listing().len())
    }

    /// The listing and the map say the same: an n-gram is listed exactly
    /// when it is in the map, once, of length `N`, with its count, and the
    /// count fits in 64 bits.
    pub proof fn lemma_listing(&self)
        requires
            self.wf(),
        ensures
            forall|i: int|
                0 <= i < self.listing().len() ==> {
                    let e = #[trigger] self.listing()[i];
                    &&& e.0.len() == N
                    &&& e.1 <= u64::MAX
                    &&& self@.dom().contains(e.0)
                    &&& self@[e.0] == e.1
                },
            forall|i: int, j: int|
                0 <= i < j < self.listing().len() ==> self.listing()[i].0 != self.listing()[j].0,
            forall|k: Seq<char>|
                self@.dom().contains(k) ==> exists|i: int|
                    0 <= i < self.listing().len() && (#[trigger] self.listing()[i]).0 == k,
    {
        assert forall|i: int| 0 <= i < self.listing().len() implies {
            let e = #[trigger] self.listing()[i];
            &&& e.0.len() == N
            &&& e.1 <= u64::MAX
            &&& self@.dom().contains(e.0)
            &&& self@[e.0] == e.1
        } by {
            self.lemma_entry(i);
        }
        assert forall|k: Seq<char>| self@.dom().contains(k) implies exists|i: int|
            0 <= i < self.listing().len() && (#[trigger] self.listing()[i]).0 == k by {
            let i = choose|i: int| self.holds_at(i, k);
            assert(self.listing()[i].0 == k);
        }
    }

    /// Entry `i` is what the map holds for its n-gram.
    proof fn lemma_entry(&self, i: int)
        requires
            self.wf(),
            0 <= i < self.entries@.len(),
        ensures
            self@.dom().contains(self.entries@[i].0@),
            self@[self.entries@[i].0@] == self.entries@[i].1,
            self.entries@[i].0@.len() == N,
    {
        let k = self.entries@[i].0@;
        assert(self.holds_at(i, k));
        let c = choose|c: int| self.holds_at(c, k);
        assert(c == i);
    }

    /// No n-gram is counted.
    pub fn new() -> (r: Self)
        ensures
            r.wf(),
            r@ == Map::<Seq<char>, nat>::empty(),
            r.listing().len() == 0,
    {
        let r = Self { entries: Vec::new() };
        assert(r@ =~= Map::<Seq<char>, nat>::empty());
        r
    }

    /// The number of n-grams that are counted.
    pub fn len(&self) -> (r: usize)
        ensures
            r == self.listing().len(),
    {
        self.entries.len()
    }

    /// The sum of all counts, or `None` when it does not fit in 64 bits.
    pub fn total(&self) -> (r: Option<u64>)
        ensures
            match r {
                Some(sum) => sum == self.mass(),
                None => self.mass() > u64::MAX,
            },
    {
        let mut sum: u64 = 0;
        let mut i: usize = 0;
        while i < self.entries.len()
            invariant
                i <= self.entries@.len(),
                self.listing().len() == self.entries@.len(),
                sum == total_of(self.listing(), i as nat),
            decreases self.entries@.len() - i,
        {
            assert(self.listing()[i as int].1 == self.entries@[i as int].1);
            sum = match sum.checked_add(self.entries[i].1) {
                Some(sum) => sum,
                None => {
                    proof {
                        lemma_total_of_grows(
                            self.listing(),
                            (i + 1) as nat,
                            self.listing().len(),
                        );
                    }
                    return None;
                },
            };
            i += 1;
        }
        Some(sum)
    }

    /// The n-gram of entry `i`.
    pub fn ngram_at(&self, i: usize) -> (r: [char; N])
        requires
            i < self.listing().len(),
        ensures
            r@ == self.listing()[i as int].0,
    {
        self.entries[i].0
    }

    /// The count of entry `i`.
    pub fn count_at(&self, i: usize) -> (r: u64)
        requires
            i < self.listing().len(),
        ensures
            r == self.listing()[i as int].1,
    {
        self.entries[i].1
    }

    /// Where `key` has its entry, or else where its entry belongs.
    fn find(&self, key: &[char; N]) -> (r: Result<usize, usize>)
        requires
            self.wf(),
        ensures
            match r {
                Ok(i) => self.holds_at(i as int, key@),
                Err(at) => {
                    &&& !self@.dom().contains(key@)
                    &&& at <= self.entries@.len()
                    &&& forall|j: int| 0 <= j < at ==> precedes(self.entries@[j].0@, key@)
                    &&& forall|j: int|
                        at <= j < self.entries@.len() ==> precedes(key@, self.entries@[j].0@)
                },
            },
    {
        let mut low: usize = 0;
        let mut high: usize = self.entries.len();
        while low < high
            invariant
                low <= high <= self.entries@.len(),
                self.wf(),
                forall|j: int| 0 <= j < low ==> precedes(self.entries@[j].0@, key@),
                forall|j: int| high <= j < self.entries@.len() ==> precedes(
                    key@,
                    self.entries@[j].0@,
                ),
            decreases high - low,
        {
            let mid = low + (high - low) / 2;
            if same_ngram(&self.entries[mid].0, key) {
                return Ok(mid);
            }
            if comes_before(&self.entries[mid].0, key) {
                proof {
                    assert forall|j: int| 0 <= j < mid + 1 implies precedes(
                        self.entries@[j].0@,
                        key@,
                    ) by {
                        if j < mid {
                            lemma_precedes_chain(
                                self.entries@[j].0@,
                                self.entries@[mid as int].0@,
                                key@,
                            );
                        }
                    }
                }
                low = mid + 1;
            } else {
                proof {
                    assert forall|j: int| mid <= j < self.entries@.len() implies precedes(
                        key@,
                        self.entries@[j].0@,
                    ) by {
                        if j > mid {
                            lemma_precedes_chain(
                                key@,
                                self.entries@[mid as int].0@,
                                self.entries@[j].0@,
                            );
                        }
                    }
                }
                high = mid;
            }
        }
        proof {
            if self@.dom().contains(key@) {
                let j = choose|j: int| self.holds_at(j, key@);
                lemma_precedes_not_itself(key@);
            }
        }
        Err(low)
    }

    /// The count of `key`, if it has an entry.
    pub fn get(&self, key: &[char; N]) -> (r: Option<u64>)
        requires
            self.wf(),
        ensures
            match r {
                Some(c) => self@.dom().contains(key@) && self@[key@] == c,
                None => !self@.dom().contains(key@),
            },
    {
        match self.find(key) {
            Ok(i) => {
                proof {
                    self.lemma_entry(i as int);
                }
                Some(self.entries[i].1)
            },
            Err(_) => None,
        }
    }

    /// How often `key` is counted: zero when it has no entry.
    pub fn occurrences(&self, key: &[char; N]) -> (r: u64)
        requires
            self.wf(),
        ensures
            r == self.count(key@),
    {
        match self.get(key) {
            Some(c) => c,
            None => 0,
        }
    }

    /// Whether every n-gram that `other` counts is counted as often here.
    pub fn covers(&self, other: &Self) -> (r: bool)
        requires
            self.wf(),
            other.wf(),
        ensures
            r <==> forall|k: Seq<char>|
                other@.dom().contains(k) ==> self@.dom().contains(k) && self@[k] == other@[k],
    {
        let mut i: usize = 0;
        while i < other.entries.len()
            invariant
                i <= other.entries@.len(),
                self.wf(),
                other.wf(),
                forall|j: int|
                    0 <= j < i ==> self@.dom().contains(other.entries@[j].0@)
                        && self@[other.entries@[j].0@] == other.entries@[j].1,
            decreases other.entries@.len() - i,
        {
            proof {
                other.lemma_entry(i as int);
            }
            let found = match self.get(&other.entries[i].0) {
                Some(count) => count == other.entries[i].1,
                None => false,
            };
            if !found {
                return false;
            }
            i += 1;
        }
        proof {
            assert forall|k: Seq<char>| other@.dom().contains(k) implies self@.dom().contains(k)
                && self@[k] == other@[k] by {
                let j = choose|j: int| other.holds_at(j, k);
                other.lemma_entry(j);
            }
        }
        true
    }

    /// Whether both count the same n-grams equally often.
    pub fn same_counts(&self, other: &Self) -> (r: bool)
        requires
            self.wf(),
            other.wf(),
        ensures
            r == (self@ == other@),
    {
        if !self.covers(other) {
            return false;
        }
        if !other.covers(self) {
            return false;
        }
        proof {
            assert forall|k: Seq<char>| self@.dom().contains(k) <==> other@.dom().contains(k) by {
                if self@.dom().contains(k) {
                    assert(other@[k] == self@[k]);
                }
                if other@.dom().contains(k) {
                    assert(self@[k] == other@[k]);
                }
            }
            assert(self@ =~= other@);
        }
        true
    }

    /// Sets the count of `key` and returns the count it had.
    pub fn insert(&mut self, key: [char; N], value: u64) -> (r: Option<u64>)
        requires
            old(self).wf(),
        ensures
            final(self).wf(),
            final(self)@ == old(self)@.insert(key@, value as nat),
            match r {
                Some(c) => old(self)@.dom().contains(key@) && old(self)@[key@] == c,
                None => !old(self)@.dom().contains(key@),
            },
    {
        match self.find(&key) {
            Ok(i) => {
                proof {
                    self.lemma_entry(i as int);
                }
                let had = self.entries[i].1;
                self.entries[i] = (key, value);
                proof {
                    self.lemma_after_set(*old(self), i as int, key@, value);
                }
                Some(had)
            },
            Err(at) => {
                self.entries.insert(at, (key, value));
                proof {
                    self.lemma_after_insert(*old(self), at as int, key@, value);
                }
                None
            },
        }
    }

    /// Counts `by` more occurrences of `key`.
    pub fn bump(&mut self, key: [char; N], by: u64)
        requires
            old(self).wf(),
            old(self).count(key@) + by <= u64::MAX,
        ensures
            final(self).wf(),
            final(self)@ == bumped(old(self)@, key@, by as nat),
    {
        match self.find(&key) {
            Ok(i) => {
                proof {
                    self.lemma_entry(i as int);
                }
                let sum = self.entries[i].1 + by;
                self.entries[i] = (key, sum);
                proof {
                    self.lemma_after_set(*old(self), i as int, key@, sum);
                }
            },
            Err(at) => {
                self.entries.insert(at, (key, by));
                proof {
                    self.lemma_after_insert(*old(self), at as int, key@, by);
                }
            },
        }
    }

    /// Replacing the count in the entry of `key` sets its count in the map.
    proof fn lemma_after_set(&self, before: Self, i: int, key: Seq<char>, value: u64)
        requires
            before.wf(),
            before.holds_at(i, key),
            self.entries@.len() == before.entries@.len(),
            self.entries@[i].0@ == key,
            self.entries@[i].1 == value,
            forall|j: int|
                0 <= j < self.entries@.len() && j != i ==> self.entries@[j] == before.entries@[j],
        ensures
            self.wf(),
            self@ == before@.insert(key, value as nat),
    {
        assert(self.wf()) by {
            assert forall|a: int, b: int| 0 <= a < b < self.entries@.len() implies self.entries@[a].0@
                != self.entries@[b].0@ && precedes(self.entries@[a].0@, self.entries@[b].0@) by {
                assert(self.entries@[a].0@ == before.entries@[a].0@);
                assert(self.entries@[b].0@ == before.entries@[b].0@);
            }
        }
        let goal = before@.insert(key, value as nat);
        assert forall|k: Seq<char>| self@.dom().contains(k) <==> goal.dom().contains(k) by {
            if self@.dom().contains(k) {
                let j = choose|j: int| self.holds_at(j, k);
                assert(self.entries@[j].0@ == before.entries@[j].0@);
                assert(before.holds_at(j, k));
            }
            if goal.dom().contains(k) {
                if k == key {
                    assert(self.holds_at(i, k));
                } else {
                    let j = choose|j: int| before.holds_at(j, k);
                    assert(self.holds_at(j, k));
                }
            }
        }
        assert forall|k: Seq<char>| self@.dom().contains(k) implies self@[k] == goal[k] by {
            let j = choose|j: int| self.holds_at(j, k);
            self.lemma_entry(j);
            if j != i {
                assert(before.holds_at(j, k));
                before.lemma_entry(j);
            }
        }
        assert(self@ =~= goal);
    }

    /// A new entry for an n-gram that had none, put where it belongs, sets
    /// its count in the map.
    proof fn lemma_after_insert(&self, before: Self, at: int, key: Seq<char>, value: u64)
        requires
            before.wf(),
            !before@.dom().contains(key),
            0 <= at <= before.entries@.len(),
            forall|j: int| 0 <= j < at ==> precedes(before.entries@[j].0@, key),
            forall|j: int| at <= j < before.entries@.len() ==> precedes(key, before.entries@[j].0@),
            self.entries@.len() == before.entries@.len() + 1,
            self.entries@[at].0@ == key,
            self.entries@[at].1 == value,
            forall|j: int| 0 <= j < at ==> self.entries@[j] == before.entries@[j],
            forall|j: int|
                at < j < self.entries@.len() ==> self.entries@[j] == before.entries@[j - 1],
        ensures
            self.wf(),
            self@ == before@.insert(key, value as nat),
    {
        let back = |j: int|
            if j < at {
                j
            } else {
                j - 1
            };
        let forth = |j: int|
            if j < at {
                j
            } else {
                j + 1
            };
        assert(self.wf()) by {
            assert forall|a: int, b: int| 0 <= a < b < self.entries@.len() implies self.entries@[a].0@
                != self.entries@[b].0@ && precedes(self.entries@[a].0@, self.entries@[b].0@) by {
                if a != at {
                    assert(self.entries@[a] == before.entries@[back(a)]);
                }
                if b != at {
                    assert(self.entries@[b] == before.entries@[back(b)]);
                }
                lemma_precedes_not_itself(self.entries@[a].0@);
            }
        }
        let goal = before@.insert(key, value as nat);
        assert forall|k: Seq<char>| self@.dom().contains(k) <==> goal.dom().contains(k) by {
            if self@.dom().contains(k) {
                let j = choose|j: int| self.holds_at(j, k);
                if j != at {
                    assert(self.entries@[j] == before.entries@[back(j)]);
                    assert(before.holds_at(back(j), k));
                }
            }
            if goal.dom().contains(k) {
                if k == key {
                    assert(self.holds_at(at, k));
                } else {
                    let j = choose|j: int| before.holds_at(j, k);
                    assert(self.entries@[forth(j)] == before.entries@[j]);
                    assert(self.holds_at(forth(j), k));
                }
            }
        }
        assert forall|k: Seq<char>| self@.dom().contains(k) implies self@[k] == goal[k] by {
            let j = choose|j: int| self.holds_at(j, k);
            self.lemma_entry(j);
            if j != at {
                assert(self.entries@[j] == before.entries@[back(j)]);
                assert(before.holds_at(back(j), k));
                before.lemma_entry(back(j));
            }
        }
        assert(self@ =~= goal);
    }
}

} // verus!
