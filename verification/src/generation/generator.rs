use crate::analyzer::Analyzer as Description;
use crate::error::Error;
use crate::generation::analysis::analyzer::{
    compiled,
    fits,
    lemma_fits_without_applied,
    Analyzer,
    Applied,
};
use crate::generation::analysis::ndarray::NDArray;
use crate::generation::analysis::sparse_tensor::SparseTensor;
use crate::generation::internal::encoding::{made_of, Encoding};
use crate::generation::internal::partial_layout::{PartialLayout, Placement};
use crate::generation::internal::symmetries::{
    arranged,
    callable,
    links_hold,
    settles,
    Symmetries,
};
use crate::generation::internal::translatable::Translatable;
use vstd::prelude::*;

verus! {

/// A layout that the search reports: the key of every character, and the
/// weighted sum of its scores.
pub type Found = (Seq<usize>, nat);

/// An upper bound on the number of layouts in the tree below a layout with
/// `r` free keys, the layout itself included.
pub open spec fn cost(r: nat) -> nat
    decreases r,
{
    if r == 0 {
        1
    } else {
        1 + r * cost((r - 1) as nat)
    }
}

/// The number of free keys of `layout`.
pub open spec fn free_keys(layout: Placement) -> nat {
    if layout.keys.len() >= layout.len {
        (layout.keys.len() - layout.len) as nat
    } else {
        0
    }
}

/// An upper bound on the number of layouts that are still to be visited when
/// `stack` is waiting.
pub open spec fn work(stack: Seq<Placement>) -> nat
    decreases stack.len(),
{
    if stack.len() == 0 {
        0
    } else {
        work(stack.drop_last()) + cost(free_keys(stack.last()))
    }
}

/// The work for two stacks is the sum of the work for each.
pub proof fn lemma_work_concat(a: Seq<Placement>, b: Seq<Placement>)
    ensures
        work(a + b) == work(a) + work(b),
    decreases b.len(),
{
    if b.len() == 0 {
        assert(a + b =~= a);
    } else {
        lemma_work_concat(a, b.drop_last());
        assert((a + b).drop_last() =~= a + b.drop_last());
    }
}

/// The children of a layout on the free keys from `i` on make less work
/// than one layout with one free key less for every such key.
pub proof fn lemma_children_work(parent: Placement, symmetries: Seq<Option<usize>>, i: int)
    requires
        parent.len <= i,
        parent.len < parent.keys.len(),
    ensures
        i <= parent.keys.len() ==> work(parent.children_from(symmetries, i)) <= (parent.keys.len()
            - i) * cost((free_keys(parent) - 1) as nat),
        i >= parent.keys.len() ==> work(parent.children_from(symmetries, i)) == 0,
    decreases parent.keys.len() - i,
{
    let unit = cost((free_keys(parent) - 1) as nat);
    if i < parent.keys.len() {
        lemma_children_work(parent, symmetries, i + 1);
        let rest = parent.children_from(symmetries, i + 1);
        let left = parent.keys.len() - i;
        assert((left - 1) * unit + unit == left * unit) by (nonlinear_arith);
        assert(0 <= unit);
        if parent.is_unique(symmetries, i) {
            let first = seq![parent.child(i)];
            lemma_work_concat(first, rest);
            assert(first.drop_last() =~= Seq::<Placement>::empty());
            assert(work(first.drop_last()) == 0);
            assert(first.last() == parent.child(i));
            assert(work(first) == cost(free_keys(parent.child(i))));
        }
    } else if i == parent.keys.len() {
        assert((parent.keys.len() - i) * unit == 0) by (nonlinear_arith)
            requires
                parent.keys.len() - i == 0,
        ;
    }
}

/// What the search goes by: the two analyzers, whose weighted sums add up
/// to the objective, and the links between the keys.
pub struct Rules<const A2: usize, const A3: usize, const N: usize> {
    pub bigrams: Analyzer<N, A2, 2>,
    pub trigrams: Analyzer<N, A3, 3>,
    pub symmetries: Symmetries<N>,
}

impl<const A2: usize, const A3: usize, const N: usize> Rules<A2, A3, N> {
    /// Both analyzers are well formed, and the sum of their weighted sums
    /// fits in 64 bits for every layout.
    pub open spec fn wf(self) -> bool {
        &&& self.bigrams.wf()
        &&& self.trigrams.wf()
        &&& self.bigrams.weighted_cap() + self.trigrams.weighted_cap() <= u64::MAX
    }

    /// The objective: the weighted sum of all scores of `layout`, each
    /// computed from scratch.
    pub open spec fn total(self, layout: Placement) -> nat {
        self.bigrams.objective(layout) + self.trigrams.objective(layout)
    }

    /// Whether every constraint lets `child` follow `parent`.
    pub open spec fn admitted(self, parent: Placement, child: Placement) -> bool {
        &&& forall|i: int|
            0 <= i < A2 ==> self.bigrams.admits(
                i,
                child,
                #[trigger] self.bigrams.full_score(i, parent),
            )
        &&& forall|i: int|
            0 <= i < A3 ==> self.trigrams.admits(
                i,
                child,
                #[trigger] self.trigrams.full_score(i, parent),
            )
    }

    /// Those of `children` that the constraints let follow `parent`, in
    /// order.
    pub open spec fn kept(self, parent: Placement, children: Seq<Placement>) -> Seq<Placement>
        decreases children.len(),
    {
        if children.len() == 0 {
            Seq::empty()
        } else {
            let rest = self.kept(parent, children.drop_last());
            if self.admitted(parent, children.last()) {
                rest.push(children.last())
            } else {
                rest
            }
        }
    }

    /// The layouts that take the place of `parent` on the stack: its
    /// children, but for symmetric duplicates and those that break a
    /// constraint.
    pub open spec fn expand(self, parent: Placement) -> Seq<Placement> {
        self.kept(parent, parent.children(self.symmetries@))
    }

    /// The search up to the next complete layout. The layout on top of the
    /// stack is taken off. If its objective is not below `max`, it is
    /// dropped. Else, if it is complete, it is reported with its objective;
    /// if not, what it expands to goes on the stack. Returns the stack that
    /// is left and the layout found, or `None` when the stack ran empty.
    pub open spec fn search(self, stack: Seq<Placement>, max: nat) -> (Seq<Placement>, Option<Found>)
        decreases work(stack),
    {
        if stack.len() == 0 {
            (stack, None)
        } else {
            let top = stack.last();
            let rest = stack.drop_last();
            if self.total(top) < max {
                if top.len >= top.keys.len() {
                    (rest, Some((top.keys, self.total(top))))
                } else {
                    proof {
                        self.lemma_expand_work(top);
                        lemma_work_concat(rest, self.expand(top));
                    }
                    self.search(rest + self.expand(top), max)
                }
            } else {
                self.search(rest, max)
            }
        }
    }

    /// All layouts that the search reports when the bound is lowered to the
    /// objective of each layout as soon as it is found.
    pub open spec fn trace(self, stack: Seq<Placement>, max: nat) -> Seq<Found>
        decreases work(stack),
    {
        let (rest, found) = self.search(stack, max);
        match found {
            Some(layout) => {
                proof {
                    self.lemma_search_work(stack, max);
                }
                seq![layout] + self.trace(rest, layout.1)
            },
            None => Seq::empty(),
        }
    }

    /// Every layout on `stack` holds each of the `N` keys once.
    pub open spec fn sound(self, stack: Seq<Placement>) -> bool {
        forall|i: int|
            0 <= i < stack.len() ==> (#[trigger] stack[i]).wf() && stack[i].keys.len() == N
    }

    /// Every layout on `stack` keeps to the links.
    pub open spec fn respectful(self, stack: Seq<Placement>) -> bool {
        forall|i: int| 0 <= i < stack.len() ==> (#[trigger] stack[i]).respects(self.symmetries@)
    }

    /// What a sound layout expands to is sound, places one character more
    /// and leaves the placed characters where they were. Where the links
    /// point to lower keys, it keeps to the links if the layout does.
    pub proof fn lemma_expand(self, parent: Placement)
        requires
            parent.wf(),
            parent.keys.len() == N,
        ensures
            self.sound(self.expand(parent)),
            forall|k: int|
                0 <= k < self.expand(parent).len() ==> {
                    let c = #[trigger] self.expand(parent)[k];
                    &&& c.len == parent.len + 1
                    &&& forall|x: int| 0 <= x < parent.len ==> c.keys[x] == parent.keys[x]
                },
            self.symmetries.ordered() && parent.respects(self.symmetries@) ==> self.respectful(
                self.expand(parent),
            ),
    {
        let children = parent.children(self.symmetries@);
        parent.lemma_children_from(self.symmetries@, parent.len as int);
        self.lemma_kept_among(parent, children);
        let kept = self.expand(parent);
        assert forall|k: int| 0 <= k < kept.len() implies {
            let c = #[trigger] kept[k];
            &&& c.wf()
            &&& c.keys.len() == N
            &&& c.len == parent.len + 1
            &&& forall|x: int| 0 <= x < parent.len ==> c.keys[x] == parent.keys[x]
            &&& self.symmetries.ordered() && parent.respects(self.symmetries@) ==> c.respects(
                self.symmetries@,
            )
        } by {
            let j = choose|j: int| 0 <= j < children.len() && children[j] == kept[k];
            let c = children[j];
            let p = choose|p: int|
                parent.len <= p < parent.keys.len() && parent.is_unique(self.symmetries@, p) && c
                    == #[trigger] parent.child(p);
            if self.symmetries.ordered() && parent.respects(self.symmetries@) {
                parent.lemma_child_respects(self.symmetries@, p);
            }
        }
    }

    /// Every score of `layout`, computed from scratch, is within its
    /// constraint.
    pub open spec fn within(self, layout: Placement) -> bool {
        &&& forall|i: int|
            0 <= i < A2 ==> #[trigger] self.bigrams.full_score(i, layout)
                <= self.bigrams.constraint(i)
        &&& forall|i: int|
            0 <= i < A3 ==> #[trigger] self.trigrams.full_score(i, layout)
                <= self.trigrams.constraint(i)
    }

    /// Every layout on `stack` is within every constraint.
    pub open spec fn constrained(self, stack: Seq<Placement>) -> bool {
        forall|i: int| 0 <= i < stack.len() ==> self.within(#[trigger] stack[i])
    }

    /// A layout without characters is within every constraint.
    pub proof fn lemma_within_empty(self, layout: Placement)
        requires
            layout.len == 0,
        ensures
            self.within(layout),
    {
    }

    /// What a layout within its constraints expands to is within them: a
    /// child is kept only if no score that grows passes its constraint.
    pub proof fn lemma_expand_within(self, parent: Placement)
        requires
            self.wf(),
            parent.wf(),
            parent.keys.len() == N,
            self.within(parent),
        ensures
            self.constrained(self.expand(parent)),
    {
        let children = parent.children(self.symmetries@);
        let kept = self.expand(parent);
        self.lemma_expand(parent);
        self.lemma_kept_among(parent, children);
        assert forall|k: int| 0 <= k < kept.len() implies self.within(#[trigger] kept[k]) by {
            let child = kept[k];
            assert(child.wf() && child.keys.len() == N);
            assert(self.admitted(parent, child));
            assert forall|i: int| 0 <= i < A2 implies #[trigger] self.bigrams.full_score(i, child)
                <= self.bigrams.constraint(i) by {
                self.bigrams.lemma_child_score(i, parent, child);
                assert(self.bigrams.admits(i, child, self.bigrams.full_score(i, parent)));
            }
            assert forall|i: int| 0 <= i < A3 implies #[trigger] self.trigrams.full_score(i, child)
                <= self.trigrams.constraint(i) by {
                self.trigrams.lemma_child_score(i, parent, child);
                assert(self.trigrams.admits(i, child, self.trigrams.full_score(i, parent)));
            }
        }
    }

    /// The search keeps the stack within the constraints, and a layout that
    /// it reports is within every constraint, whatever the weight of the
    /// applied metric is: where the constraint is zero, no n-gram with a
    /// weight lies on keys with a metric other than zero.
    pub proof fn lemma_search_within(self, stack: Seq<Placement>, max: nat)
        requires
            self.wf(),
            self.sound(stack),
            self.constrained(stack),
        ensures
            self.constrained(self.search(stack, max).0),
            self.search(stack, max).1 matches Some(found) ==> self.within(
                Placement { keys: found.0, len: N as nat },
            ),
        decreases work(stack),
    {
        if stack.len() > 0 {
            let top = stack.last();
            let rest = stack.drop_last();
            assert(top == stack[stack.len() - 1]);
            assert forall|i: int| 0 <= i < rest.len() implies self.within(#[trigger] rest[i]) by {
                assert(rest[i] == stack[i]);
            }
            self.lemma_replaced(stack, Seq::empty());
            assert(rest + Seq::<Placement>::empty() =~= rest);
            if self.total(top) < max {
                if top.len < top.keys.len() {
                    self.lemma_expand_work(top);
                    lemma_work_concat(rest, self.expand(top));
                    self.lemma_expand(top);
                    self.lemma_expand_within(top);
                    self.lemma_replaced(stack, self.expand(top));
                    let next = rest + self.expand(top);
                    assert forall|i: int| 0 <= i < next.len() implies self.within(
                        #[trigger] next[i],
                    ) by {
                        if i < rest.len() {
                            assert(next[i] == rest[i]);
                        } else {
                            assert(next[i] == self.expand(top)[i - rest.len()]);
                        }
                    }
                    self.lemma_search_within(next, max);
                } else {
                    assert(top == Placement { keys: top.keys, len: N as nat });
                }
            } else {
                self.lemma_search_work(rest, max);
                self.lemma_search_within(rest, max);
            }
        }
    }

    /// A layout that the search has to consider: it gives every key one
    /// character, keeps to the links, and is within every constraint.
    pub open spec fn admissible(self, layout: Placement) -> bool {
        &&& layout.wf()
        &&& layout.keys.len() == N
        &&& layout.len == N
        &&& layout.respects(self.symmetries@)
        &&& self.within(layout)
    }

    /// One of the layouts on `stack` places the first characters as
    /// `layout` does.
    pub open spec fn covers(self, stack: Seq<Placement>, layout: Placement) -> bool {
        exists|i: int| 0 <= i < stack.len() && (#[trigger] stack[i]).begins(layout)
    }

    /// A layout has no lower objective than a layout that it continues.
    pub proof fn lemma_total_grows(self, prefix: Placement, layout: Placement)
        requires
            self.wf(),
            layout.wf(),
            prefix.begins(layout),
            layout.keys.len() == N,
        ensures
            self.total(prefix) <= self.total(layout),
    {
        self.bigrams.lemma_prefix_objective(prefix, layout, A2 as nat);
        self.trigrams.lemma_prefix_objective(prefix, layout, A3 as nat);
    }

    /// A child that the constraints let follow its parent, and that is
    /// among the children, is kept.
    pub proof fn lemma_kept_holds(self, parent: Placement, children: Seq<Placement>, child: Placement)
        requires
            children.contains(child),
            self.admitted(parent, child),
        ensures
            self.kept(parent, children).contains(child),
        decreases children.len(),
    {
        let all = self.kept(parent, children);
        let rest = self.kept(parent, children.drop_last());
        if children.last() == child {
            assert(all[all.len() - 1] == child);
        } else {
            let at = children.index_of(child);
            assert(children.drop_last()[at] == child);
            self.lemma_kept_holds(parent, children.drop_last(), child);
            let k = rest.index_of(child);
            assert(all[k] == child);
        }
    }

    /// What a layout expands to covers every admissible layout that the
    /// layout begins.
    pub proof fn lemma_expand_covers(self, parent: Placement, layout: Placement)
        requires
            self.wf(),
            parent.wf(),
            parent.keys.len() == N,
            parent.len < N,
            self.admissible(layout),
            parent.begins(layout),
        ensures
            self.covers(self.expand(parent), layout),
    {
        let at = parent.lemma_continued(self.symmetries@, layout);
        let child = parent.child(at);
        parent.lemma_child(at);
        assert(self.admitted(parent, child)) by {
            assert forall|i: int| 0 <= i < A2 implies self.bigrams.admits(
                i,
                child,
                #[trigger] self.bigrams.full_score(i, parent),
            ) by {
                self.bigrams.lemma_child_score(i, parent, child);
                self.bigrams.lemma_prefix_score(i, child, layout);
                assert(self.bigrams.full_score(i, layout) <= self.bigrams.constraint(i));
            }
            assert forall|i: int| 0 <= i < A3 implies self.trigrams.admits(
                i,
                child,
                #[trigger] self.trigrams.full_score(i, parent),
            ) by {
                self.trigrams.lemma_child_score(i, parent, child);
                self.trigrams.lemma_prefix_score(i, child, layout);
                assert(self.trigrams.full_score(i, layout) <= self.trigrams.constraint(i));
            }
        }
        self.lemma_kept_holds(parent, parent.children(self.symmetries@), child);
        let k = self.expand(parent).index_of(child);
        assert(self.expand(parent)[k].begins(layout));
    }

    /// While the stack covers an admissible layout with an objective below
    /// the bound, the search reports a layout: this one, or another one
    /// while the stack that is left still covers this one.
    pub proof fn lemma_search_covers(self, stack: Seq<Placement>, max: nat, layout: Placement)
        requires
            self.wf(),
            self.sound(stack),
            self.admissible(layout),
            self.total(layout) < max,
            self.covers(stack, layout),
        ensures
            self.search(stack, max).1 matches Some(found) && (found == (
                layout.keys,
                self.total(layout),
            ) || self.covers(self.search(stack, max).0, layout)),
        decreases work(stack),
    {
        let at = choose|i: int| 0 <= i < stack.len() && (#[trigger] stack[i]).begins(layout);
        let top = stack.last();
        let rest = stack.drop_last();
        assert(top == stack[stack.len() - 1]);
        self.lemma_replaced(stack, Seq::empty());
        assert(rest + Seq::<Placement>::empty() =~= rest);
        assert(cost(free_keys(top)) >= 1);
        if at < stack.len() - 1 {
            assert(rest[at] == stack[at]);
            assert(self.covers(rest, layout));
        } else {
            self.lemma_total_grows(top, layout);
        }
        if self.total(top) < max {
            if top.len < top.keys.len() {
                self.lemma_expand_work(top);
                lemma_work_concat(rest, self.expand(top));
                self.lemma_expand(top);
                self.lemma_replaced(stack, self.expand(top));
                let next = rest + self.expand(top);
                if at < stack.len() - 1 {
                    assert(next[at] == rest[at]);
                } else {
                    self.lemma_expand_covers(top, layout);
                    let k = choose|k: int|
                        0 <= k < self.expand(top).len() && (#[trigger] self.expand(top)[k]).begins(
                            layout,
                        );
                    assert(next[rest.len() + k] == self.expand(top)[k]);
                }
                assert(self.covers(next, layout));
                self.lemma_search_covers(next, max, layout);
            } else {
                if at == stack.len() - 1 {
                    assert(top.keys =~= layout.keys);
                }
            }
        } else {
            self.lemma_search_work(rest, max);
            self.lemma_search_covers(rest, max, layout);
        }
    }

    /// The last layout of the trace is a best one: the trace is not empty
    /// where an admissible layout has an objective below the bound, and
    /// its last layout has no higher objective than any such layout.
    pub proof fn lemma_trace_covers(self, stack: Seq<Placement>, max: nat, layout: Placement)
        requires
            self.wf(),
            self.sound(stack),
            self.admissible(layout),
            self.total(layout) < max,
            self.covers(stack, layout),
        ensures
            self.trace(stack, max).len() > 0,
            self.trace(stack, max).last().1 <= self.total(layout),
        decreases work(stack),
    {
        self.lemma_search_covers(stack, max, layout);
        self.lemma_search(stack, max);
        self.lemma_search_work(stack, max);
        self.lemma_trace_falls(stack, max);
        let (rest, found) = self.search(stack, max);
        let first = found->0;
        let later = self.trace(rest, first.1);
        let all = self.trace(stack, max);
        assert(all =~= seq![first] + later);
        if first != (layout.keys, self.total(layout)) && self.total(layout) < first.1 {
            self.lemma_trace_covers(rest, first.1, layout);
            assert(all.last() == later.last());
        } else {
            if all.len() > 1 {
                assert(all[all.len() - 1].1 < all[0].1);
            }
        }
    }

    /// The search from the layout without characters ends with a best
    /// layout: where an admissible layout has an objective below the bound,
    /// the trace is not empty, and its last layout has no higher objective.
    pub proof fn lemma_trace_finds_least(self, max: nat, layout: Placement)
        requires
            self.wf(),
            self.admissible(layout),
            self.total(layout) < max,
        ensures
            self.trace(seq![Placement::empty(N as nat)], max).len() > 0,
            self.trace(seq![Placement::empty(N as nat)], max).last().1 <= self.total(layout),
    {
        let start = Placement::empty(N as nat);
        let stack = seq![start];
        assert(start.wf()) by {
            assert forall|v: usize| v < start.keys.len() implies start.keys.contains(v) by {
                assert(start.keys[v as int] == v);
            }
        }
        assert(stack[0].begins(layout));
        self.lemma_trace_covers(stack, max, layout);
    }

    /// Every layout in the trace is admissible, where the links point to
    /// lower keys and the stack is sound, keeps to the links and is within
    /// the constraints; its objective is what the trace holds for it.
    pub proof fn lemma_trace_admissible(self, stack: Seq<Placement>, max: nat)
        requires
            self.wf(),
            self.symmetries.ordered(),
            self.sound(stack),
            self.respectful(stack),
            self.constrained(stack),
        ensures
            forall|i: int|
                0 <= i < self.trace(stack, max).len() ==> {
                    let found = #[trigger] self.trace(stack, max)[i];
                    let layout = Placement { keys: found.0, len: N as nat };
                    self.admissible(layout) && found.1 == self.total(layout) && found.1 < max
                },
        decreases work(stack),
    {
        let (rest, found) = self.search(stack, max);
        self.lemma_search(stack, max);
        self.lemma_search_within(stack, max);
        if let Some(first) = found {
            self.lemma_search_work(stack, max);
            self.lemma_trace_admissible(rest, first.1);
            let later = self.trace(rest, first.1);
            let all = self.trace(stack, max);
            assert(all =~= seq![first] + later);
            assert forall|i: int| 0 <= i < all.len() implies {
                let found = #[trigger] all[i];
                let layout = Placement { keys: found.0, len: N as nat };
                self.admissible(layout) && found.1 == self.total(layout) && found.1 < max
            } by {
                if i > 0 {
                    assert(all[i] == later[i - 1]);
                }
            }
        }
    }

    /// Those that are kept are among all, and the constraints let them
    /// follow the parent.
    pub proof fn lemma_kept_among(self, parent: Placement, children: Seq<Placement>)
        ensures
            forall|k: int|
                0 <= k < self.kept(parent, children).len() ==> exists|j: int|
                    0 <= j < children.len() && children[j] == #[trigger] self.kept(
                        parent,
                        children,
                    )[k],
            forall|k: int|
                0 <= k < self.kept(parent, children).len() ==> self.admitted(
                    parent,
                    #[trigger] self.kept(parent, children)[k],
                ),
        decreases children.len(),
    {
        if children.len() > 0 {
            let front = children.drop_last();
            self.lemma_kept_among(parent, front);
            let rest = self.kept(parent, front);
            let all = self.kept(parent, children);
            assert forall|k: int| 0 <= k < all.len() implies exists|j: int|
                0 <= j < children.len() && children[j] == #[trigger] all[k] by {
                if k < rest.len() {
                    assert(all[k] == rest[k]);
                    let j = choose|j: int| 0 <= j < front.len() && front[j] == rest[k];
                    assert(children[j] == all[k]);
                } else {
                    assert(children[children.len() - 1] == all[k]);
                }
            }
            assert forall|k: int| 0 <= k < all.len() implies self.admitted(
                parent,
                #[trigger] all[k],
            ) by {
                if k < rest.len() {
                    assert(all[k] == rest[k]);
                }
            }
        }
    }

    /// Taking the top off a stack and putting other layouts in its place
    /// keeps the stack sound, and respectful, if those layouts are.
    proof fn lemma_replaced(self, stack: Seq<Placement>, with: Seq<Placement>)
        requires
            stack.len() > 0,
            self.sound(stack),
            self.sound(with),
        ensures
            self.sound(stack.drop_last() + with),
            self.respectful(stack) && self.respectful(with) ==> self.respectful(
                stack.drop_last() + with,
            ),
    {
        let next = stack.drop_last() + with;
        assert forall|i: int| 0 <= i < next.len() implies (#[trigger] next[i]).wf()
            && next[i].keys.len() == N by {
            if i < stack.len() - 1 {
                assert(next[i] == stack[i]);
            } else {
                assert(next[i] == with[i - (stack.len() - 1)]);
            }
        }
        if self.respectful(stack) && self.respectful(with) {
            assert forall|i: int| 0 <= i < next.len() implies (#[trigger] next[i]).respects(
                self.symmetries@,
            ) by {
                if i < stack.len() - 1 {
                    assert(next[i] == stack[i]);
                } else {
                    assert(next[i] == with[i - (stack.len() - 1)]);
                }
            }
        }
    }

    /// The search keeps the stack sound. A layout that it reports holds each
    /// key once and has an objective below the bound; the sum that is
    /// reported is the objective of the layout, computed from scratch.
    /// Where the links point to lower keys and the stack keeps to the
    /// links, so do the stack that is left and the layout that is reported:
    /// of the layouts that differ only by keys changing places with the
    /// keys they are linked to, only one is ever reported.
    pub proof fn lemma_search(self, stack: Seq<Placement>, max: nat)
        requires
            self.sound(stack),
        ensures
            self.sound(self.search(stack, max).0),
            self.search(stack, max).1 matches Some(found) ==> {
                let layout = Placement { keys: found.0, len: N as nat };
                &&& found.0.len() == N
                &&& layout.wf()
                &&& found.1 == self.total(layout)
                &&& found.1 < max
            },
            self.symmetries.ordered() && self.respectful(stack) ==> {
                &&& self.respectful(self.search(stack, max).0)
                &&& self.search(stack, max).1 matches Some(found) ==> (Placement {
                    keys: found.0,
                    len: N as nat,
                }).respects(self.symmetries@)
            },
        decreases work(stack),
    {
        if stack.len() > 0 {
            let top = stack.last();
            let rest = stack.drop_last();
            assert(top == stack[stack.len() - 1]);
            self.lemma_replaced(stack, Seq::empty());
            assert(rest + Seq::<Placement>::empty() =~= rest);
            if self.total(top) < max {
                if top.len < top.keys.len() {
                    self.lemma_expand_work(top);
                    lemma_work_concat(rest, self.expand(top));
                    self.lemma_expand(top);
                    self.lemma_replaced(stack, self.expand(top));
                    self.lemma_search(rest + self.expand(top), max);
                } else {
                    assert(top == Placement { keys: top.keys, len: N as nat });
                }
            } else {
                self.lemma_search_work(rest, max);
                self.lemma_search(rest, max);
            }
        }
    }

    /// Every layout in the trace has a lower objective than the one before
    /// it, and the first is below the bound: each layout that is reported is
    /// better than all that were reported earlier.
    pub proof fn lemma_trace_falls(self, stack: Seq<Placement>, max: nat)
        requires
            self.sound(stack),
        ensures
            forall|i: int|
                0 <= i < self.trace(stack, max).len() ==> (#[trigger] self.trace(stack, max)[i]).1
                    < max,
            forall|i: int, j: int|
                0 <= i < j < self.trace(stack, max).len() ==> self.trace(stack, max)[j].1
                    < self.trace(stack, max)[i].1,
        decreases work(stack),
    {
        let (rest, found) = self.search(stack, max);
        self.lemma_search(stack, max);
        if let Some(layout) = found {
            self.lemma_search_work(stack, max);
            self.lemma_trace_falls(rest, layout.1);
            let later = self.trace(rest, layout.1);
            let all = self.trace(stack, max);
            assert(all =~= seq![layout] + later);
            assert forall|i: int| 0 <= i < all.len() implies (#[trigger] all[i]).1 < max by {
                if i > 0 {
                    assert(all[i] == later[i - 1]);
                }
            }
            assert forall|i: int, j: int| 0 <= i < j < all.len() implies all[j].1 < all[i].1 by {
                assert(all[j] == later[j - 1]);
                if i > 0 {
                    assert(all[i] == later[i - 1]);
                }
            }
        }
    }

    /// No two layouts in the trace have the same objective.
    pub proof fn lemma_trace_totals_differ(self, stack: Seq<Placement>, max: nat)
        requires
            self.sound(stack),
        ensures
            forall|i: int, j: int|
                0 <= i < self.trace(stack, max).len() && 0 <= j < self.trace(stack, max).len()
                    && i != j ==> self.trace(stack, max)[i].1 != self.trace(stack, max)[j].1,
    {
        self.lemma_trace_falls(stack, max);
    }

    /// Those that are kept make no more work than all.
    pub proof fn lemma_kept_work(self, parent: Placement, children: Seq<Placement>)
        ensures
            work(self.kept(parent, children)) <= work(children),
        decreases children.len(),
    {
        if children.len() > 0 {
            self.lemma_kept_work(parent, children.drop_last());
            let rest = self.kept(parent, children.drop_last());
            if self.admitted(parent, children.last()) {
                assert(rest.push(children.last()).drop_last() =~= rest);
            }
        }
    }

    /// What a layout expands to makes less work than the layout.
    pub proof fn lemma_expand_work(self, parent: Placement)
        requires
            parent.len < parent.keys.len(),
        ensures
            work(self.expand(parent)) < cost(free_keys(parent)),
    {
        lemma_children_work(parent, self.symmetries@, parent.len as int);
        self.lemma_kept_work(parent, parent.children(self.symmetries@));
    }

    /// The search leaves less work than it found, unless it found none.
    pub proof fn lemma_search_work(self, stack: Seq<Placement>, max: nat)
        ensures
            work(self.search(stack, max).0) <= work(stack),
            stack.len() > 0 ==> work(self.search(stack, max).0) < work(stack),
            self.search(stack, max).1 is None ==> self.search(stack, max).0.len() == 0,
        decreases work(stack),
    {
        if stack.len() > 0 {
            let top = stack.last();
            let rest = stack.drop_last();
            assert(cost(free_keys(top)) >= 1);
            if self.total(top) < max {
                if top.len < top.keys.len() {
                    self.lemma_expand_work(top);
                    lemma_work_concat(rest, self.expand(top));
                    self.lemma_search_work(rest + self.expand(top), max);
                }
            } else {
                self.lemma_search_work(rest, max);
            }
        }
    }
}

/// The depth-first search for layouts. It holds the layouts that are still
/// to be visited, each with its scores so far, and a bound that the
/// objective of a layout has to stay below.
pub struct Generator<'a, const A2: usize, const A3: usize, const N: usize> {
    stack: Vec<(PartialLayout<N>, [u64; A2], [u64; A3])>,
    bigram_analyzer: &'a Analyzer<N, A2, 2>,
    trigram_analyzer: &'a Analyzer<N, A3, 3>,
    symmetries: &'a Symmetries<N>,
    max: u64,
}

impl<'a, const A2: usize, const A3: usize, const N: usize> Generator<'a, A2, A3, N> {
    /// What the search goes by.
    pub closed spec fn rules(&self) -> Rules<A2, A3, N> {
        Rules {
            bigrams: *self.bigram_analyzer,
            trigrams: *self.trigram_analyzer,
            symmetries: *self.symmetries,
        }
    }

    /// The layouts that are still to be visited; the last is visited next.
    pub closed spec fn pending(&self) -> Seq<Placement> {
        Seq::new(self.stack@.len(), |i: int| self.stack@[i].0@)
    }

    /// The bound that the objective of a layout has to stay below.
    pub closed spec fn bound(&self) -> u64 {
        self.max
    }

    /// The layout in frame `i` is well formed, and the scores kept with it
    /// are its scores computed from scratch.
    spec fn frame_ok(&self, i: int) -> bool {
        let (layout, bigrams, trigrams) = self.stack@[i];
        &&& layout.wf()
        &&& forall|k: int|
            0 <= k < A2 ==> #[trigger] bigrams@[k] == self.bigram_analyzer.full_score(k, layout@)
        &&& forall|k: int|
            0 <= k < A3 ==> #[trigger] trigrams@[k] == self.trigram_analyzer.full_score(
                k,
                layout@,
            )
    }

    /// The rules are well formed, every layout that is waiting holds each
    /// key once, and the scores kept with it are its scores.
    pub closed spec fn wf(&self) -> bool {
        &&& self.rules().wf()
        &&& forall|i: int| 0 <= i < self.stack@.len() ==> self.frame_ok(i)
    }

    /// In a well-formed generator the layouts that are waiting are sound.
    pub proof fn lemma_wf(&self)
        requires
            self.wf(),
        ensures
            self.rules().wf(),
            self.rules().sound(self.pending()),
    {
        assert forall|i: int| 0 <= i < self.pending().len() implies (
        #[trigger] self.pending()[i]).wf() && self.pending()[i].keys.len() == N by {
            assert(self.frame_ok(i));
        }
    }

    /// A search that starts at `init`, which has no character placed, and
    /// reports layouts with an objective below `max`.
    pub fn new(
        init: PartialLayout<N>,
        bigram_analyzer: &'a Analyzer<N, A2, 2>,
        trigram_analyzer: &'a Analyzer<N, A3, 3>,
        symmetries: &'a Symmetries<N>,
        max: u64,
    ) -> (r: Self)
        requires
            init.wf(),
            init@.len == 0,
            bigram_analyzer.wf(),
            trigram_analyzer.wf(),
            bigram_analyzer.weighted_cap() + trigram_analyzer.weighted_cap() <= u64::MAX,
        ensures
            r.wf(),
            r.rules() == (Rules {
                bigrams: *bigram_analyzer,
                trigrams: *trigram_analyzer,
                symmetries: *symmetries,
            }),
            r.pending() == seq![init@],
            r.bound() == max,
    {
        let mut stack = Vec::new();
        stack.push((init, bigram_analyzer.init_score(), trigram_analyzer.init_score()));
        let r = Self { stack, bigram_analyzer, trigram_analyzer, symmetries, max };
        proof {
            assert(r.pending() =~= seq![init@]);
            assert(r.frame_ok(0));
        }
        r
    }

    /// Sets the bound. Called with the objective of the layout found last,
    /// it lets the search report only better ones.
    pub fn set_max(&mut self, max: u64)
        requires
            old(self).wf(),
        ensures
            final(self).wf(),
            final(self).rules() == old(self).rules(),
            final(self).pending() == old(self).pending(),
            final(self).bound() == max,
    {
        self.max = max;
        proof {
            assert forall|i: int| 0 <= i < self.stack@.len() implies self.frame_ok(i) by {
                assert(old(self).frame_ok(i));
            }
        }
    }

    /// The next complete layout with an objective below the bound, and its
    /// objective; `None` when no layout is left to visit.
    pub fn next(&mut self) -> (r: Option<([usize; N], u64)>)
        requires
            old(self).wf(),
        ensures
            final(self).wf(),
            final(self).rules() == old(self).rules(),
            final(self).bound() == old(self).bound(),
            final(self).pending() == old(self).rules().search(
                old(self).pending(),
                old(self).bound() as nat,
            ).0,
            match r {
                Some((keys, total)) => old(self).rules().search(
                    old(self).pending(),
                    old(self).bound() as nat,
                ).1 == Some((keys@, total as nat)),
                None => old(self).rules().search(old(self).pending(), old(self).bound() as nat).1
                    is None,
            },
    {
        let bigram_analyzer = self.bigram_analyzer;
        let trigram_analyzer = self.trigram_analyzer;
        let symmetries = self.symmetries;
        let ghost rules = self.rules();
        let ghost max = self.max as nat;
        let ghost goal = rules.search(self.pending(), max);
        loop
            invariant
                self.wf(),
                self.rules() == rules,
                self.max == max,
                self.max == old(self).max,
                rules == old(self).rules(),
                bigram_analyzer == self.bigram_analyzer,
                trigram_analyzer == self.trigram_analyzer,
                symmetries == self.symmetries,
                rules.search(self.pending(), max) == goal,
                goal == old(self).rules().search(old(self).pending(), old(self).bound() as nat),
            decreases work(self.pending()),
        {
            let ghost before = self.pending();
            let ghost held = *self;
            let (layout, bigram_score, trigram_score) = match self.stack.pop() {
                Some(frame) => frame,
                None => {
                    assert(self.pending() =~= before);
                    return None;
                },
            };
            let ghost rest = before.drop_last();
            proof {
                assert(held.frame_ok(held.stack@.len() - 1));
                assert(self.pending() =~= rest);
                assert(before.last() == layout@);
                assert forall|i: int| 0 <= i < self.stack@.len() implies self.frame_ok(i) by {
                    assert(held.frame_ok(i));
                }
                bigram_analyzer.lemma_objective(layout@, bigram_score@, A2 as nat);
                trigram_analyzer.lemma_objective(layout@, trigram_score@, A3 as nat);
                assert(cost(free_keys(layout@)) >= 1);
            }
            let total = bigram_analyzer.weighted_sum(&bigram_score) + trigram_analyzer.weighted_sum(
                &trigram_score,
            );
            assert(total == rules.total(layout@));
            if total < self.max {
                match layout.try_complete() {
                    Ok(keys) => {
                        return Some((keys, total));
                    },
                    Err(incomplete) => {
                        let mut children = incomplete.children(symmetries);
                        let ghost all = children.remaining();
                        let ghost mut done = Seq::<Placement>::empty();
                        proof {
                            assert(rules.kept(incomplete@, done) =~= Seq::<Placement>::empty());
                            assert(rest + rules.kept(incomplete@, done) =~= rest);
                            incomplete@.lemma_children_from(symmetries@, incomplete@.len as int);
                        }
                        loop
                            invariant
                                self.rules() == rules,
                                rules.wf(),
                                self.max == max,
                                self.max == old(self).max,
                                bigram_analyzer == self.bigram_analyzer,
                                trigram_analyzer == self.trigram_analyzer,
                                symmetries == self.symmetries,
                                incomplete.wf(),
                                incomplete@.len < N,
                                children.wf(),
                                children.parent() == incomplete,
                                children.symmetries() == *symmetries,
                                all == incomplete@.children(symmetries@),
                                done + children.remaining() == all,
                                self.pending() == rest + rules.kept(incomplete@, done),
                                forall|i: int| 0 <= i < self.stack@.len() ==> self.frame_ok(i),
                                forall|k: int|
                                    0 <= k < A2 ==> #[trigger] bigram_score@[k]
                                        == bigram_analyzer.full_score(k, incomplete@),
                                forall|k: int|
                                    0 <= k < A3 ==> #[trigger] trigram_score@[k]
                                        == trigram_analyzer.full_score(k, incomplete@),
                                forall|k: int|
                                    0 <= k < all.len() ==> {
                                        let c = #[trigger] all[k];
                                        &&& c.wf()
                                        &&& c.keys.len() == N
                                        &&& c.len == incomplete@.len + 1
                                        &&& forall|x: int|
                                            0 <= x < incomplete@.len ==> c.keys[x]
                                                == incomplete@.keys[x]
                                    },
                            ensures
                                self.rules() == rules,
                                self.max == max,
                                self.max == old(self).max,
                                bigram_analyzer == self.bigram_analyzer,
                                trigram_analyzer == self.trigram_analyzer,
                                symmetries == self.symmetries,
                                self.pending() == rest + rules.expand(incomplete@),
                                forall|i: int| 0 <= i < self.stack@.len() ==> self.frame_ok(i),
                            decreases children.remaining().len(),
                        {
                            let ghost left = children.remaining();
                            let ghost waiting = self.pending();
                            let ghost kept = *self;
                            let child = match children.next() {
                                Some(child) => child,
                                None => {
                                    assert(done + children.remaining() =~= done);
                                    break ;
                                },
                            };
                            let mut bigrams = bigram_score;
                            let mut trigrams = trigram_score;
                            proof {
                                assert(all[done.len() as int] == left[0]);
                                assert(child@ == all[done.len() as int]);
                                assert forall|i: int| 0 <= i < A2 implies #[trigger] bigrams@[i]
                                    + bigram_analyzer.step_cap(i, child@.len - 1) <= u64::MAX by {
                                    bigram_analyzer.lemma_child_score(i, incomplete@, child@);
                                }
                                assert forall|i: int| 0 <= i < A3 implies #[trigger] trigrams@[i]
                                    + trigram_analyzer.step_cap(i, child@.len - 1) <= u64::MAX by {
                                    trigram_analyzer.lemma_child_score(i, incomplete@, child@);
                                }
                            }
                            let mut admitted = false;
                            if bigram_analyzer.score(&child, &mut bigrams) {
                                if trigram_analyzer.score(&child, &mut trigrams) {
                                    admitted = true;
                                }
                            }
                            proof {
                                if admitted {
                                    assert forall|i: int| 0 <= i < A2 implies bigram_analyzer.admits(
                                        i,
                                        child@,
                                        #[trigger] bigram_analyzer.full_score(i, incomplete@),
                                    ) by {
                                        assert(bigram_score@[i] == bigram_analyzer.full_score(
                                            i,
                                            incomplete@,
                                        ));
                                    }
                                    assert forall|i: int| 0 <= i < A3 implies trigram_analyzer.admits(
                                        i,
                                        child@,
                                        #[trigger] trigram_analyzer.full_score(i, incomplete@),
                                    ) by {
                                        assert(trigram_score@[i] == trigram_analyzer.full_score(
                                            i,
                                            incomplete@,
                                        ));
                                    }
                                    assert(rules.admitted(incomplete@, child@));
                                } else {
                                    if rules.admitted(incomplete@, child@) {
                                        assert forall|i: int| 0 <= i < A2 implies bigram_analyzer.admits(
                                            i,
                                            child@,
                                            #[trigger] bigram_score@[i] as nat,
                                        ) by {
                                            assert(bigram_analyzer.admits(
                                                i,
                                                child@,
                                                bigram_analyzer.full_score(i, incomplete@),
                                            ));
                                        }
                                        assert forall|i: int| 0 <= i < A3 implies trigram_analyzer.admits(
                                            i,
                                            child@,
                                            #[trigger] trigram_score@[i] as nat,
                                        ) by {
                                            assert(trigram_analyzer.admits(
                                                i,
                                                child@,
                                                trigram_analyzer.full_score(i, incomplete@),
                                            ));
                                        }
                                        assert(false);
                                    }
                                }
                            }
                            if admitted {
                                proof {
                                    assert forall|i: int| 0 <= i < A2 implies #[trigger] bigrams@[i]
                                        == bigram_analyzer.full_score(i, child@) by {
                                        bigram_analyzer.lemma_child_score(i, incomplete@, child@);
                                    }
                                    assert forall|i: int| 0 <= i < A3 implies #[trigger] trigrams@[i]
                                        == trigram_analyzer.full_score(i, child@) by {
                                        trigram_analyzer.lemma_child_score(i, incomplete@, child@);
                                    }
                                }
                                self.stack.push((child, bigrams, trigrams));
                                proof {
                                    assert(self.pending() =~= waiting.push(child@));
                                    assert forall|i: int|
                                        0 <= i < self.stack@.len() implies self.frame_ok(i) by {
                                        if i < kept.stack@.len() {
                                            assert(kept.frame_ok(i));
                                        }
                                    }
                                }
                            }
                            proof {
                                let longer = done.push(child@);
                                assert(longer.drop_last() =~= done);
                                assert(longer.last() == child@);
                                assert(longer + children.remaining() =~= done + left);
                                assert(rest + rules.kept(incomplete@, longer) =~= self.pending());
                                done = longer;
                            }
                        }
                        proof {
                            rules.lemma_expand_work(incomplete@);
                            lemma_work_concat(rest, rules.expand(incomplete@));
                        }
                    },
                }
            }
        }
    }
}

/// The layout `layout` in terms of keys and characters: for every character
/// its key, beside the character.
pub open spec fn labelled<Key>(keys: Seq<Key>, chars: Seq<char>, layout: Seq<usize>) -> Seq<
    (Key, char),
> {
    Seq::new(layout.len(), |i: int| (keys[layout[i] as int], chars[i]))
}

/// What the search returns: the last layout that it reports when the bound
/// is lowered with every layout found, in terms of keys and characters, with
/// its objective; `None` when it reports none.
pub open spec fn outcome<Key, const A2: usize, const A3: usize, const N: usize>(
    rules: Rules<A2, A3, N>,
    keys: Seq<Key>,
    chars: Seq<char>,
    max: nat,
) -> Option<(Seq<(Key, char)>, nat)> {
    let trace = rules.trace(seq![Placement::empty(N as nat)], max);
    if trace.len() == 0 {
        None
    } else {
        Some((labelled(keys, chars, trace.last().0), trace.last().1))
    }
}

/// What the search returns is a best layout. It returns a layout exactly
/// when an admissible layout has an objective below the bound; that layout
/// is admissible, its objective is below the bound, and no admissible
/// layout has a lower one.
pub proof fn lemma_outcome_is_least<Key, const A2: usize, const A3: usize, const N: usize>(
    rules: Rules<A2, A3, N>,
    keys: Seq<Key>,
    chars: Seq<char>,
    max: nat,
)
    requires
        rules.wf(),
        rules.symmetries.ordered(),
    ensures
        outcome(rules, keys, chars, max) is None <==> forall|layout: Placement|
            #[trigger] rules.admissible(layout) ==> rules.total(layout) >= max,
        outcome(rules, keys, chars, max) matches Some(best) ==> {
            &&& best.1 < max
            &&& exists|layout: Placement|
                {
                    &&& #[trigger] rules.admissible(layout)
                    &&& rules.total(layout) == best.1
                    &&& best.0 == labelled(keys, chars, layout.keys)
                }
            &&& forall|layout: Placement|
                #[trigger] rules.admissible(layout) && rules.total(layout) < max ==> best.1
                    <= rules.total(layout)
        },
{
    let start = Placement::empty(N as nat);
    let stack = seq![start];
    let trace = rules.trace(stack, max);
    assert(start.wf()) by {
        assert forall|v: usize| v < start.keys.len() implies start.keys.contains(v) by {
            assert(start.keys[v as int] == v);
        }
    }
    rules.lemma_within_empty(start);
    assert(rules.sound(stack) && rules.respectful(stack) && rules.constrained(stack));
    rules.lemma_trace_admissible(stack, max);
    assert forall|layout: Placement|
        #[trigger] rules.admissible(layout) && rules.total(layout) < max implies trace.len() > 0
        && trace.last().1 <= rules.total(layout) by {
        rules.lemma_trace_finds_least(max, layout);
    }
    if trace.len() > 0 {
        let found = trace[trace.len() - 1];
        let layout = Placement { keys: found.0, len: N as nat };
        assert(rules.admissible(layout) && rules.total(layout) == found.1);
    }
}

/// Searches all layouts and returns the best one with an objective below
/// `max_score`, with its objective. Returns `None` when no layout has an
/// objective below `max_score`.
pub fn optimize<Key: Translatable, const A2: usize, const A3: usize, const N: usize>(
    chars: &Encoding<char, N>,
    keys: &Encoding<Key, N>,
    bigram_analyzer: &Analyzer<N, A2, 2>,
    trigram_analyzer: &Analyzer<N, A3, 3>,
    symmetries: &Symmetries<N>,
    max_score: u64,
) -> (r: Option<(Vec<(Key, char)>, u64)>)
    requires
        chars.wf(),
        keys.wf(),
        bigram_analyzer.wf(),
        trigram_analyzer.wf(),
        bigram_analyzer.weighted_cap() + trigram_analyzer.weighted_cap() <= u64::MAX,
    ensures
        ({
            let rules = Rules {
                bigrams: *bigram_analyzer,
                trigrams: *trigram_analyzer,
                symmetries: *symmetries,
            };
            match r {
                Some((pairs, score)) => outcome(rules, keys@, chars@, max_score as nat) == Some(
                    (pairs@, score as nat),
                ),
                None => outcome(rules, keys@, chars@, max_score as nat) is None,
            }
        }),
{
    let mut generator = Generator::new(
        PartialLayout::new(),
        bigram_analyzer,
        trigram_analyzer,
        symmetries,
        max_score,
    );
    let ghost rules = generator.rules();
    let ghost whole = rules.trace(generator.pending(), max_score as nat);
    let ghost mut seen = Seq::<Found>::empty();
    let mut best: Option<([usize; N], u64)> = None;
    proof {
        assert(seen + whole =~= whole);
    }
    loop
        invariant
            generator.wf(),
            generator.rules() == rules,
            whole == seen + rules.trace(generator.pending(), generator.bound() as nat),
            match best {
                Some((layout, score)) => {
                    &&& seen.len() > 0
                    &&& seen.last() == (layout@, score as nat)
                    &&& layout@.len() == N
                    &&& forall|i: int| 0 <= i < N ==> #[trigger] layout@[i] < N
                },
                None => seen.len() == 0,
            },
        ensures
            whole == seen,
            match best {
                Some((layout, score)) => {
                    &&& seen.len() > 0
                    &&& seen.last() == (layout@, score as nat)
                    &&& layout@.len() == N
                    &&& forall|i: int| 0 <= i < N ==> #[trigger] layout@[i] < N
                },
                None => seen.len() == 0,
            },
        decreases work(generator.pending()),
    {
        let ghost pending = generator.pending();
        let ghost bound = generator.bound() as nat;
        proof {
            generator.lemma_wf();
            rules.lemma_search(pending, bound);
            rules.lemma_search_work(pending, bound);
        }
        match generator.next() {
            None => {
                proof {
                    assert(rules.trace(pending, bound) =~= Seq::<Found>::empty());
                    assert(seen + rules.trace(pending, bound) =~= seen);
                }
                break ;
            },
            Some((layout, score)) => {
                generator.set_max(score);
                best = Some((layout, score));
                proof {
                    let found = (layout@, score as nat);
                    let later = rules.trace(generator.pending(), score as nat);
                    assert(rules.trace(pending, bound) == seq![found] + later);
                    assert(seen.push(found) + later =~= seen + (seq![found] + later));
                    seen = seen.push(found);
                    let complete = Placement { keys: layout@, len: N as nat };
                    assert(complete.wf());
                    assert forall|i: int| 0 <= i < N implies #[trigger] layout@[i] < N by {
                        assert(complete.keys[i] < complete.keys.len());
                    }
                }
            },
        }
    }
    match best {
        None => None,
        Some((layout, score)) => {
            let mut pairs: Vec<(Key, char)> = Vec::new();
            let mut i: usize = 0;
            while i < N
                invariant
                    i <= N,
                    pairs@.len() == i,
                    layout@.len() == N,
                    forall|k: int| 0 <= k < N ==> #[trigger] layout@[k] < N,
                    forall|k: int|
                        0 <= k < i ==> pairs@[k] == (keys@[layout@[k] as int], chars@[k]),
                decreases N - i,
            {
                pairs.push((keys.decode(layout[i]), chars.decode(i)));
                i += 1;
            }
            assert(pairs@ =~= labelled(keys@, chars@, layout@));
            Some((pairs, score))
        },
    }
}

/// `rules` is what the two descriptions compile to, for characters encoded
/// by `chars` and keys encoded by `keys`, with the links `links`, which
/// point to lower places.
pub open spec fn prepared<
    Key,
    F2: Fn([Key; 2]) -> u64,
    F3: Fn([Key; 3]) -> u64,
    const A2: usize,
    const A3: usize,
    const N: usize,
>(
    rules: Rules<A2, A3, N>,
    chars: Seq<char>,
    keys: Seq<Key>,
    links: Seq<Option<usize>>,
    bigram_analyzer: Description<F2, A2, 2>,
    trigram_analyzer: Description<F3, A3, 3>,
) -> bool {
    &&& rules.wf()
    &&& rules.symmetries@ == links
    &&& rules.symmetries.ordered()
    &&& rules.bigrams.compiles(chars, keys, bigram_analyzer)
    &&& rules.trigrams.compiles(chars, keys, trigram_analyzer)
}

/// The weights are too large for a search: the counts of an n-gram set sum
/// to more than 64 bits hold, or the descriptions compile to tables that do
/// not fit, or the highest weighted sums of the two analyzers together pass
/// 64 bits.
pub open spec fn overflowing<
    Key,
    F2: Fn([Key; 2]) -> u64,
    F3: Fn([Key; 3]) -> u64,
    const A2: usize,
    const A3: usize,
    const N: usize,
>(
    chars: Seq<char>,
    keys: Seq<Key>,
    bigram_analyzer: Description<F2, A2, 2>,
    trigram_analyzer: Description<F3, A3, 3>,
) -> bool {
    ||| !bigram_analyzer.sets_fit()
    ||| !trigram_analyzer.sets_fit()
    ||| exists|sets: Seq<SparseTensor<N, 2>>, tables: Seq<NDArray<N, 2>>, applied: Seq<Applied>|
        #[trigger] compiled(sets, tables, applied, chars, keys, bigram_analyzer) && !fits(
            sets,
            tables,
            applied,
        )
    ||| exists|sets: Seq<SparseTensor<N, 3>>, tables: Seq<NDArray<N, 3>>, applied: Seq<Applied>|
        #[trigger] compiled(sets, tables, applied, chars, keys, trigram_analyzer) && !fits(
            sets,
            tables,
            applied,
        )
    ||| exists|bigrams: Analyzer<N, A2, 2>, trigrams: Analyzer<N, A3, 3>|
        {
            &&& bigrams.wf()
            &&& trigrams.wf()
            &&& #[trigger] bigrams.compiles(chars, keys, bigram_analyzer)
            &&& #[trigger] trigrams.compiles(chars, keys, trigram_analyzer)
            &&& bigrams.weighted_cap() + trigrams.weighted_cap() > u64::MAX
        }
}

/// Where no metric is applied and the counts of every n-gram set fit,
/// nothing is too large, whatever the metrics return.
pub proof fn lemma_nothing_applied<
    Key,
    F2: Fn([Key; 2]) -> u64,
    F3: Fn([Key; 3]) -> u64,
    const N: usize,
>(
    chars: Seq<char>,
    keys: Seq<Key>,
    bigram_analyzer: Description<F2, 0, 2>,
    trigram_analyzer: Description<F3, 0, 3>,
)
    requires
        bigram_analyzer.sets_fit(),
        trigram_analyzer.sets_fit(),
    ensures
        !overflowing::<Key, F2, F3, 0, 0, N>(chars, keys, bigram_analyzer, trigram_analyzer),
{
    assert forall|sets: Seq<SparseTensor<N, 2>>, tables: Seq<NDArray<N, 2>>, applied: Seq<Applied>|
        #[trigger] compiled(sets, tables, applied, chars, keys, bigram_analyzer) implies fits(
        sets,
        tables,
        applied,
    ) by {
        lemma_fits_without_applied(sets, tables, applied);
    }
    assert forall|sets: Seq<SparseTensor<N, 3>>, tables: Seq<NDArray<N, 3>>, applied: Seq<Applied>|
        #[trigger] compiled(sets, tables, applied, chars, keys, trigram_analyzer) implies fits(
        sets,
        tables,
        applied,
    ) by {
        lemma_fits_without_applied(sets, tables, applied);
    }
}

/// `r` is what the search for the best layout comes to when following the
/// symmetries from every key gave `links`: the error for links that run in
/// a circle, else the error for an unknown name, else the error for
/// weights that are too large, which is owed where the counts of an n-gram
/// set do not fit and comes only where the weights are too large, or what
/// the search returns for rules that the descriptions compile to.
pub open spec fn follows_from<
    Key,
    F2: Fn([Key; 2]) -> u64,
    F3: Fn([Key; 3]) -> u64,
    const A2: usize,
    const A3: usize,
    const N: usize,
>(
    r: Result<Option<(Vec<(Key, char)>, u64)>, Error>,
    chars: Seq<char>,
    keys: Seq<Key>,
    links: Seq<Option<usize>>,
    bigram_analyzer: Description<F2, A2, 2>,
    trigram_analyzer: Description<F3, A3, 3>,
    max_score: u64,
) -> bool {
    match arranged(keys, links) {
        None => r matches Err(Error::CycleDetected),
        Some((order, between)) => if !(bigram_analyzer.names_resolve()
            && trigram_analyzer.names_resolve()) {
            r matches Err(Error::UnknownName)
        } else if !(bigram_analyzer.sets_fit() && trigram_analyzer.sets_fit()) {
            r matches Err(Error::Overflow)
        } else {
            ||| {
                &&& r matches Err(Error::Overflow)
                &&& overflowing::<Key, F2, F3, A2, A3, N>(
                    chars,
                    order,
                    bigram_analyzer,
                    trigram_analyzer,
                )
            }
            ||| exists|rules: Rules<A2, A3, N>|
                {
                    &&& #[trigger] prepared(
                        rules,
                        chars,
                        order,
                        between,
                        bigram_analyzer,
                        trigram_analyzer,
                    )
                    &&& match r {
                        Ok(Some((pairs, score))) => outcome(rules, order, chars, max_score as nat)
                            == Some((pairs@, score as nat)),
                        Ok(None) => outcome(rules, order, chars, max_score as nat) is None,
                        Err(_) => false,
                    }
                }
        },
    }
}

/// Finds the best layout of `chars` on `keys`: the objective is the sum of
/// the weighted sums of both analyzers, and a key is given a character only
/// after the key that `symmetries` links it to. The characters should be in
/// falling order of frequency, which makes the bound cut early.
///
/// Returns the layout with its objective, or `None` when no layout has an
/// objective below `max_score`. Fails with [`Error::InvalidInput`] when a
/// character or a key occurs twice, with [`Error::CycleDetected`] when the
/// links run in a circle, with [`Error::UnknownName`] when an applied metric
/// names what is not there, and with [`Error::Overflow`] when the weights
/// are too large (see [`overflowing`]), and in no other case. The metrics
/// and `symmetries` decide what the tables hold; for tables that are
/// given, [`optimize`] states the result.
pub fn generate<
    Key: Translatable,
    F2: Fn([Key; 2]) -> u64,
    F3: Fn([Key; 3]) -> u64,
    S: Fn(Key) -> Option<Key>,
    const A2: usize,
    const A3: usize,
    const N: usize,
>(
    chars: [char; N],
    keys: [Key; N],
    bigram_analyzer: &Description<F2, A2, 2>,
    trigram_analyzer: &Description<F3, A3, 3>,
    symmetries: &S,
    max_score: u64,
) -> (r: Result<Option<(Vec<(Key, char)>, u64)>, Error>)
    requires
        callable(*symmetries, keys@),
        settles(*symmetries, keys@),
        forall|s: int|
            0 <= s < bigram_analyzer.ngram_sets@.len() ==> (
            #[trigger] bigram_analyzer.ngram_sets@[s]).1.wf(),
        forall|s: int|
            0 <= s < trigram_analyzer.ngram_sets@.len() ==> (
            #[trigger] trigram_analyzer.ngram_sets@[s]).1.wf(),
        forall|m: int, args: [Key; 2]|
            0 <= m < bigram_analyzer.metrics@.len() && made_of(keys@, args@)
                ==> #[trigger] bigram_analyzer.metrics@[m].1.requires((args,)),
        forall|m: int, args: [Key; 3]|
            0 <= m < trigram_analyzer.metrics@.len() && made_of(keys@, args@)
                ==> #[trigger] trigram_analyzer.metrics@[m].1.requires((args,)),
    ensures
        (r matches Err(Error::InvalidInput)) <==> !(chars@.no_duplicates()
            && keys@.no_duplicates()),
        chars@.no_duplicates() && keys@.no_duplicates() ==> exists|links: Seq<Option<usize>>|
            {
                &&& #[trigger] links_hold(*symmetries, keys@, links)
                &&& follows_from::<Key, F2, F3, A2, A3, N>(
                    r,
                    chars@,
                    keys@,
                    links,
                    *bigram_analyzer,
                    *trigram_analyzer,
                    max_score,
                )
            },
{
    let char_encoding = match Encoding::new(chars) {
        Ok(encoding) => encoding,
        Err(err) => {
            return Err(err);
        },
    };
    let (key_encoding, links_between) = match Symmetries::new(keys, symmetries) {
        Ok(resolved) => resolved,
        Err(err) => {
            return Err(err);
        },
    };
    let ghost links = choose|links: Seq<Option<usize>>|
        {
            &&& #[trigger] links_hold(*symmetries, keys@, links)
            &&& arranged(keys@, links) == Some((key_encoding@, links_between@))
        };
    if !bigram_analyzer.check_names() || !trigram_analyzer.check_names() {
        return Err(Error::UnknownName);
    }
    proof {
        assert forall|args: Seq<Key>| made_of(key_encoding@, args) implies made_of(keys@, args) by {
            assert forall|i: int| 0 <= i < args.len() implies keys@.contains(#[trigger] args[i]) by {
                let at = key_encoding@.index_of(args[i]);
                assert(keys@.contains(key_encoding@[at]));
            }
        }
    }
    let ghost order = key_encoding@;
    let bigrams = match Analyzer::new(&char_encoding, &key_encoding, bigram_analyzer) {
        Ok(bigrams) => bigrams,
        Err(_) => {
            proof {
                let (first, between) = arranged(keys@, links)->0;
                assert(first == order);
                assert(overflowing::<Key, F2, F3, A2, A3, N>(
                    chars@,
                    order,
                    *bigram_analyzer,
                    *trigram_analyzer,
                ));
            }
            return Err(Error::Overflow);
        },
    };
    let trigrams = match Analyzer::new(&char_encoding, &key_encoding, trigram_analyzer) {
        Ok(trigrams) => trigrams,
        Err(_) => {
            proof {
                let (first, between) = arranged(keys@, links)->0;
                assert(first == order);
                assert(overflowing::<Key, F2, F3, A2, A3, N>(
                    chars@,
                    order,
                    *bigram_analyzer,
                    *trigram_analyzer,
                ));
            }
            return Err(Error::Overflow);
        },
    };
    if bigrams.capacity().checked_add(trigrams.capacity()).is_none() {
        proof {
            let (first, between) = arranged(keys@, links)->0;
            assert(first == order);
            assert(bigrams.compiles(chars@, order, *bigram_analyzer));
            assert(trigrams.compiles(chars@, order, *trigram_analyzer));
            assert(overflowing::<Key, F2, F3, A2, A3, N>(
                chars@,
                order,
                *bigram_analyzer,
                *trigram_analyzer,
            ));
        }
        return Err(Error::Overflow);
    }
    let found = optimize(
        &char_encoding,
        &key_encoding,
        &bigrams,
        &trigrams,
        &links_between,
        max_score,
    );
    proof {
        let rules = Rules { bigrams, trigrams, symmetries: links_between };
        let (order, between) = arranged(keys@, links)->0;
        assert(prepared(rules, chars@, order, between, *bigram_analyzer, *trigram_analyzer));
    }
    Ok(found)
}

} // verus!
