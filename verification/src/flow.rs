//! Set equations over the blocks of a graph, and their least solution.
//!
//! Each block has two sets. Its meet is the union of the results of the
//! blocks that it depends on; its result is its transfer function applied
//! to its meet. A forward analysis depends along the edges, a backward one
//! against them.

use vstd::prelude::*;
use vstd::set_lib::lemma_len_subset;
use vstd::set_lib::lemma_subset_equality;

verus! {

/// A system of equations over `n` blocks.
#[verifier::reject_recursive_types(T)]
pub struct Flow<T> {
    /// The number of blocks.
    pub n: nat,
    /// `dep(q, b)`: the meet of block `b` takes in the result of block `q`.
    pub dep: spec_fn(int, int) -> bool,
    /// `transfer(b, s)`: the result of block `b` for the meet `s`.
    pub transfer: spec_fn(int, Set<T>) -> Set<T>,
}

/// An assignment of a meet and a result to every block.
#[verifier::reject_recursive_types(T)]
pub struct FlowState<T> {
    pub meet: Seq<Set<T>>,
    pub result: Seq<Set<T>>,
}

/// The blocks from the first to the last.
pub open spec fn forward_order(n: nat) -> Seq<int> {
    Seq::new(n, |i: int| i)
}

/// The blocks from the last to the first.
pub open spec fn backward_order(n: nat) -> Seq<int> {
    Seq::new(n, |i: int| n - 1 - i)
}

impl<T> FlowState<T> {
    /// Whether every set of `self` lies within the set of `other` at the
    /// same place.
    pub open spec fn below(self, other: FlowState<T>) -> bool {
        &&& self.meet.len() == other.meet.len()
        &&& self.result.len() == other.result.len()
        &&& forall|i: int|
            0 <= i < self.meet.len() ==> (#[trigger] self.meet[i]).subset_of(other.meet[i])
        &&& forall|i: int|
            0 <= i < self.result.len() ==> (#[trigger] self.result[i]).subset_of(other.result[i])
    }

    /// Whether every set lies within `u`.
    pub open spec fn within(self, u: Set<T>) -> bool {
        &&& forall|i: int| 0 <= i < self.meet.len() ==> (#[trigger] self.meet[i]).subset_of(u)
        &&& forall|i: int| 0 <= i < self.result.len() ==> (#[trigger] self.result[i]).subset_of(u)
    }

    /// The number of members of the sets of the first `k` blocks, summed.
    pub open spec fn size_upto(self, k: int) -> nat
        decreases k,
    {
        if k <= 0 {
            0
        } else {
            self.size_upto(k - 1) + self.meet[k - 1].len() + self.result[k - 1].len()
        }
    }

    /// The number of members of all sets, summed.
    pub open spec fn size(self) -> nat {
        self.size_upto(self.meet.len() as int)
    }

    /// States that lie below each other are equal.
    pub proof fn lemma_below_antisymmetric(self, other: FlowState<T>)
        requires
            self.below(other),
            other.below(self),
        ensures
            self == other,
    {
        assert forall|i: int| 0 <= i < self.meet.len() implies self.meet[i] == other.meet[i] by {
            assert(self.meet[i].subset_of(other.meet[i]));
            assert(other.meet[i].subset_of(self.meet[i]));
            assert(self.meet[i] =~= other.meet[i]);
        }
        assert forall|i: int| 0 <= i < self.result.len() implies self.result[i]
            == other.result[i] by {
            assert(self.result[i].subset_of(other.result[i]));
            assert(other.result[i].subset_of(self.result[i]));
            assert(self.result[i] =~= other.result[i]);
        }
        assert(self.meet =~= other.meet);
        assert(self.result =~= other.result);
    }

    /// Lying below is transitive.
    pub proof fn lemma_below_transitive(self, mid: FlowState<T>, other: FlowState<T>)
        requires
            self.below(mid),
            mid.below(other),
        ensures
            self.below(other),
    {
        assert forall|i: int| 0 <= i < self.meet.len() implies (#[trigger] self.meet[i]).subset_of(
            other.meet[i],
        ) by {
            assert(mid.meet[i].subset_of(other.meet[i]));
        }
        assert forall|i: int| 0 <= i < self.result.len() implies (
        #[trigger] self.result[i]).subset_of(other.result[i]) by {
            assert(mid.result[i].subset_of(other.result[i]));
        }
    }

    /// Within a finite set, a state is no larger than one above it.
    pub proof fn lemma_size_le(self, other: FlowState<T>, u: Set<T>, k: int)
        requires
            self.below(other),
            other.within(u),
            u.finite(),
            self.meet.len() == self.result.len(),
            0 <= k <= self.meet.len(),
        ensures
            self.size_upto(k) <= other.size_upto(k),
        decreases k,
    {
        if k > 0 {
            self.lemma_size_le(other, u, k - 1);
            assert(self.meet[k - 1].subset_of(other.meet[k - 1]));
            assert(self.result[k - 1].subset_of(other.result[k - 1]));
            assert(other.meet[k - 1].subset_of(u));
            assert(other.result[k - 1].subset_of(u));
            lemma_len_subset(other.meet[k - 1], u);
            lemma_len_subset(other.result[k - 1], u);
            lemma_len_subset(self.meet[k - 1], other.meet[k - 1]);
            lemma_len_subset(self.result[k - 1], other.result[k - 1]);
        }
    }

    /// Within a finite set, a state is smaller than one above it that
    /// differs from it at block `i`.
    pub proof fn lemma_size_lt(self, other: FlowState<T>, u: Set<T>, k: int, i: int)
        requires
            self.below(other),
            other.within(u),
            u.finite(),
            self.meet.len() == self.result.len(),
            0 <= i < k <= self.meet.len(),
            self.meet[i] != other.meet[i] || self.result[i] != other.result[i],
        ensures
            self.size_upto(k) < other.size_upto(k),
        decreases k,
    {
        assert(self.meet[k - 1].subset_of(other.meet[k - 1]));
        assert(self.result[k - 1].subset_of(other.result[k - 1]));
        assert(other.meet[k - 1].subset_of(u));
        assert(other.result[k - 1].subset_of(u));
        lemma_len_subset(other.meet[k - 1], u);
        lemma_len_subset(other.result[k - 1], u);
        lemma_len_subset(self.meet[k - 1], other.meet[k - 1]);
        lemma_len_subset(self.result[k - 1], other.result[k - 1]);
        if i == k - 1 {
            self.lemma_size_le(other, u, k - 1);
            if self.meet[i] != other.meet[i] {
                if self.meet[i].len() == other.meet[i].len() {
                    lemma_subset_equality(self.meet[i], other.meet[i]);
                }
            } else {
                if self.result[i].len() == other.result[i].len() {
                    lemma_subset_equality(self.result[i], other.result[i]);
                }
            }
        } else {
            self.lemma_size_lt(other, u, k - 1, i);
        }
    }

    /// Within a finite set, a state is smaller than a different one above
    /// it.
    pub proof fn lemma_size_grows(self, other: FlowState<T>, u: Set<T>)
        requires
            self.below(other),
            other.within(u),
            u.finite(),
            self.meet.len() == self.result.len(),
            self != other,
        ensures
            self.size() < other.size(),
    {
        let n = self.meet.len() as int;
        if forall|i: int|
            0 <= i < n ==> self.meet[i] == other.meet[i] && self.result[i] == other.result[i] {
            assert(self.meet =~= other.meet);
            assert(self.result =~= other.result);
        } else {
            let i = choose|i: int|
                0 <= i < n && !(self.meet[i] == other.meet[i] && self.result[i]
                    == other.result[i]);
            self.lemma_size_lt(other, u, n, i);
        }
    }

    /// Within a finite set of `c` members, the first `k` blocks hold at
    /// most `2 * k * c` members.
    pub proof fn lemma_size_bound(self, u: Set<T>, k: int)
        requires
            self.within(u),
            u.finite(),
            self.meet.len() == self.result.len(),
            0 <= k <= self.meet.len(),
        ensures
            self.size_upto(k) <= 2 * k * u.len(),
        decreases k,
    {
        if k > 0 {
            self.lemma_size_bound(u, k - 1);
            assert(self.meet[k - 1].subset_of(u));
            assert(self.result[k - 1].subset_of(u));
            lemma_len_subset(self.meet[k - 1], u);
            lemma_len_subset(self.result[k - 1], u);
            assert(2 * k * u.len() == 2 * (k - 1) * u.len() + 2 * u.len()) by (nonlinear_arith);
        } else {
            assert(2 * k * u.len() == 0) by (nonlinear_arith)
                requires
                    k == 0,
            ;
        }
    }
}

impl<T> Flow<T> {
    /// The result of block `b` for the meet `s`.
    pub open spec fn apply(self, b: int, s: Set<T>) -> Set<T> {
        (self.transfer)(b, s)
    }

    /// Whether the meet of block `b` takes in the result of block `q`.
    pub open spec fn depends(self, q: int, b: int) -> bool {
        0 <= q < self.n && (self.dep)(q, b)
    }

    /// The union of the results of the blocks that `b` depends on.
    pub open spec fn join(self, result: Seq<Set<T>>, b: int) -> Set<T> {
        Set::new(|t: T| exists|q: int| #[trigger] self.depends(q, b) && result[q].contains(t))
    }

    /// Whether a state has a meet and a result for every block.
    pub open spec fn shaped(self, st: FlowState<T>) -> bool {
        st.meet.len() == self.n && st.result.len() == self.n
    }

    /// The state in which every set is empty.
    pub open spec fn start(self) -> FlowState<T> {
        FlowState {
            meet: Seq::new(self.n, |b: int| Set::<T>::empty()),
            result: Seq::new(self.n, |b: int| Set::<T>::empty()),
        }
    }

    /// The state after block `b` was visited: its meet and its result are
    /// computed anew, all other sets stay.
    pub open spec fn step(self, st: FlowState<T>, b: int) -> FlowState<T> {
        let meet = self.join(st.result, b);
        FlowState { meet: st.meet.update(b, meet), result: st.result.update(b, self.apply(b, meet)) }
    }

    /// The state after the blocks of `order` were visited one after the
    /// other.
    pub open spec fn run(self, st: FlowState<T>, order: Seq<int>) -> FlowState<T>
        decreases order.len(),
    {
        if order.len() == 0 {
            st
        } else {
            self.step(self.run(st, order.drop_last()), order.last())
        }
    }

    /// Whether `order` names blocks only.
    pub open spec fn valid_order(self, order: Seq<int>) -> bool {
        forall|i: int| 0 <= i < order.len() ==> 0 <= #[trigger] order[i] < self.n
    }

    /// Whether `order` names every block.
    pub open spec fn covers(self, order: Seq<int>) -> bool {
        forall|b: int| 0 <= b < self.n ==> #[trigger] order.contains(b)
    }

    /// Whether a state satisfies every equation.
    pub open spec fn is_fixed_point(self, st: FlowState<T>) -> bool {
        &&& self.shaped(st)
        &&& forall|b: int| 0 <= b < self.n ==> #[trigger] st.meet[b] == self.join(st.result, b)
        &&& forall|b: int| 0 <= b < self.n ==> #[trigger] st.result[b] == self.apply(b, st.meet[b])
    }

    /// Whether a state satisfies every equation and lies below every other
    /// state that does.
    pub open spec fn is_least_fixed_point(self, st: FlowState<T>) -> bool {
        &&& self.is_fixed_point(st)
        &&& forall|other: FlowState<T>| #[trigger] self.is_fixed_point(other) ==> st.below(other)
    }

    /// Whether every transfer function keeps inclusion.
    pub open spec fn monotone(self) -> bool {
        forall|b: int, s1: Set<T>, s2: Set<T>|
            0 <= b < self.n && s1.subset_of(s2) ==> (#[trigger] self.apply(b, s1)).subset_of(
                #[trigger] self.apply(b, s2),
            )
    }

    /// Whether every transfer function stays within `u`.
    pub open spec fn closed_in(self, u: Set<T>) -> bool {
        forall|b: int, s: Set<T>|
            0 <= b < self.n && s.subset_of(u) ==> (#[trigger] self.apply(b, s)).subset_of(u)
    }

    /// Whether every set of a state lies within what its equation gives.
    pub open spec fn ascending(self, st: FlowState<T>) -> bool {
        &&& self.shaped(st)
        &&& forall|b: int|
            0 <= b < self.n ==> (#[trigger] st.meet[b]).subset_of(self.join(st.result, b))
        &&& forall|b: int|
            0 <= b < self.n ==> (#[trigger] st.result[b]).subset_of(self.apply(b, st.meet[b]))
    }

    /// Whether a state can only grow and claims nothing that a solution
    /// lacks: it is ascending and lies below every fixed point.
    pub open spec fn sound(self, st: FlowState<T>) -> bool {
        &&& self.ascending(st)
        &&& forall|other: FlowState<T>| #[trigger] self.is_fixed_point(other) ==> st.below(other)
    }

    /// Whether `order` visits every block once, and each block after the
    /// blocks that it depends on.
    pub open spec fn topological(self, order: Seq<int>) -> bool {
        &&& self.valid_order(order)
        &&& self.covers(order)
        &&& order.no_duplicates()
        &&& forall|i: int, j: int|
            0 <= i < order.len() && 0 <= j < order.len() && self.depends(
                #[trigger] order[i],
                #[trigger] order[j],
            ) ==> i < j
    }

    /// The union of larger results is larger.
    pub proof fn lemma_join_monotone(self, r1: Seq<Set<T>>, r2: Seq<Set<T>>, b: int)
        requires
            r1.len() == self.n,
            r2.len() == self.n,
            forall|q: int| 0 <= q < self.n ==> (#[trigger] r1[q]).subset_of(r2[q]),
        ensures
            self.join(r1, b).subset_of(self.join(r2, b)),
    {
        assert forall|t: T| self.join(r1, b).contains(t) implies self.join(r2, b).contains(t) by {
            let q = choose|q: int| #[trigger] self.depends(q, b) && r1[q].contains(t);
            assert(r1[q].subset_of(r2[q]));
            assert(self.depends(q, b) && r2[q].contains(t));
        }
    }

    /// The union of results within `u` lies within `u`.
    pub proof fn lemma_join_within(self, r: Seq<Set<T>>, b: int, u: Set<T>)
        requires
            r.len() == self.n,
            forall|q: int| 0 <= q < self.n ==> (#[trigger] r[q]).subset_of(u),
        ensures
            self.join(r, b).subset_of(u),
    {
        assert forall|t: T| self.join(r, b).contains(t) implies u.contains(t) by {
            let q = choose|q: int| #[trigger] self.depends(q, b) && r[q].contains(t);
            assert(r[q].subset_of(u));
        }
    }

    /// The state of empty sets is sound and lies within every set.
    pub proof fn lemma_start(self, u: Set<T>)
        ensures
            self.shaped(self.start()),
            self.sound(self.start()),
            self.start().within(u),
    {
        let st = self.start();
        assert forall|other: FlowState<T>| #[trigger] self.is_fixed_point(other) implies st.below(
            other,
        ) by {}
    }

    /// A visit keeps a sound state sound, and takes nothing away.
    pub proof fn lemma_step(self, st: FlowState<T>, b: int)
        requires
            self.monotone(),
            self.sound(st),
            0 <= b < self.n,
        ensures
            self.sound(self.step(st, b)),
            st.below(self.step(st, b)),
    {
        let meet = self.join(st.result, b);
        let res = self.apply(b, meet);
        let next = self.step(st, b);
        assert(st.meet[b].subset_of(meet));
        assert(st.result[b].subset_of(self.apply(b, st.meet[b])));
        assert(self.apply(b, st.meet[b]).subset_of(self.apply(b, meet)));
        assert(st.below(next)) by {
            assert forall|i: int| 0 <= i < st.meet.len() implies (#[trigger] st.meet[i]).subset_of(
                next.meet[i],
            ) by {}
            assert forall|i: int| 0 <= i < st.result.len() implies (
            #[trigger] st.result[i]).subset_of(next.result[i]) by {}
        }
        assert forall|c: int| 0 <= c < self.n implies (#[trigger] next.meet[c]).subset_of(
            self.join(next.result, c),
        ) by {
            assert forall|q: int| 0 <= q < self.n implies (#[trigger] st.result[q]).subset_of(
                next.result[q],
            ) by {}
            self.lemma_join_monotone(st.result, next.result, c);
            assert(st.meet[c].subset_of(self.join(st.result, c)));
        }
        assert forall|c: int| 0 <= c < self.n implies (#[trigger] next.result[c]).subset_of(
            self.apply(c, next.meet[c]),
        ) by {
            if c != b {
                assert(st.result[c].subset_of(self.apply(c, st.meet[c])));
            }
        }
        assert forall|other: FlowState<T>| #[trigger] self.is_fixed_point(other) implies next.below(
            other,
        ) by {
            assert(st.below(other));
            assert forall|q: int| 0 <= q < self.n implies (#[trigger] st.result[q]).subset_of(
                other.result[q],
            ) by {}
            self.lemma_join_monotone(st.result, other.result, b);
            assert(other.meet[b] == self.join(other.result, b));
            assert(other.result[b] == self.apply(b, other.meet[b]));
            assert(self.apply(b, meet).subset_of(self.apply(b, other.meet[b])));
            assert forall|i: int| 0 <= i < next.meet.len() implies (
            #[trigger] next.meet[i]).subset_of(other.meet[i]) by {
                if i != b {
                    assert(st.meet[i].subset_of(other.meet[i]));
                }
            }
            assert forall|i: int| 0 <= i < next.result.len() implies (
            #[trigger] next.result[i]).subset_of(other.result[i]) by {
                if i != b {
                    assert(st.result[i].subset_of(other.result[i]));
                }
            }
        }
    }

    /// A visit keeps a state within a set that the transfer functions stay
    /// in.
    pub proof fn lemma_step_within(self, st: FlowState<T>, b: int, u: Set<T>)
        requires
            self.closed_in(u),
            self.shaped(st),
            st.within(u),
            0 <= b < self.n,
        ensures
            self.step(st, b).within(u),
    {
        let meet = self.join(st.result, b);
        let next = self.step(st, b);
        assert forall|q: int| 0 <= q < self.n implies (#[trigger] st.result[q]).subset_of(u) by {}
        self.lemma_join_within(st.result, b, u);
        assert(self.apply(b, meet).subset_of(u));
        assert forall|i: int| 0 <= i < next.meet.len() implies (#[trigger] next.meet[i]).subset_of(
            u,
        ) by {
            if i != b {
                assert(st.meet[i].subset_of(u));
            }
        }
        assert forall|i: int| 0 <= i < next.result.len() implies (
        #[trigger] next.result[i]).subset_of(u) by {
            if i != b {
                assert(st.result[i].subset_of(u));
            }
        }
    }

    /// Visits keep a sound state sound, and take nothing away.
    pub proof fn lemma_run(self, st: FlowState<T>, order: Seq<int>)
        requires
            self.monotone(),
            self.sound(st),
            self.valid_order(order),
        ensures
            self.sound(self.run(st, order)),
            st.below(self.run(st, order)),
        decreases order.len(),
    {
        if order.len() > 0 {
            let before = self.run(st, order.drop_last());
            self.lemma_run(st, order.drop_last());
            self.lemma_step(before, order.last());
            st.lemma_below_transitive(before, self.run(st, order));
        }
    }

    /// Visits keep a state within a set that the transfer functions stay
    /// in.
    pub proof fn lemma_run_within(self, st: FlowState<T>, order: Seq<int>, u: Set<T>)
        requires
            self.closed_in(u),
            self.shaped(st),
            st.within(u),
            self.valid_order(order),
        ensures
            self.shaped(self.run(st, order)),
            self.run(st, order).within(u),
        decreases order.len(),
    {
        if order.len() > 0 {
            self.lemma_run_within(st, order.drop_last(), u);
            self.lemma_step_within(self.run(st, order.drop_last()), order.last(), u);
        }
    }

    /// Visiting `first` and then `second` is visiting the two in a row.
    pub proof fn lemma_run_concat(self, st: FlowState<T>, first: Seq<int>, second: Seq<int>)
        ensures
            self.run(st, first + second) == self.run(self.run(st, first), second),
        decreases second.len(),
    {
        if second.len() == 0 {
            assert(first + second =~= first);
        } else {
            self.lemma_run_concat(st, first, second.drop_last());
            assert((first + second).drop_last() =~= first + second.drop_last());
            assert((first + second).last() == second.last());
        }
    }

    /// A sound state that satisfies every equation is the least one that
    /// does.
    pub proof fn lemma_sound_fixed_point_is_least(self, st: FlowState<T>)
        requires
            self.sound(st),
            self.is_fixed_point(st),
        ensures
            self.is_least_fixed_point(st),
    {
    }

    /// The equations have at most one least solution.
    pub proof fn lemma_least_fixed_point_unique(self, a: FlowState<T>, b: FlowState<T>)
        requires
            self.is_least_fixed_point(a),
            self.is_least_fixed_point(b),
        ensures
            a == b,
    {
        assert(self.is_fixed_point(a));
        assert(self.is_fixed_point(b));
        a.lemma_below_antisymmetric(b);
    }

    /// Whatever the order in which blocks are visited and visited again,
    /// starting from empty sets: once the state satisfies every equation,
    /// it is the least solution, the same for every order.
    pub proof fn lemma_order_independent(self, first: Seq<int>, second: Seq<int>)
        requires
            self.monotone(),
            self.valid_order(first),
            self.valid_order(second),
            self.is_fixed_point(self.run(self.start(), first)),
            self.is_fixed_point(self.run(self.start(), second)),
        ensures
            self.is_least_fixed_point(self.run(self.start(), first)),
            self.run(self.start(), first) == self.run(self.start(), second),
    {
        self.lemma_start(Set::empty());
        self.lemma_run(self.start(), first);
        self.lemma_run(self.start(), second);
        self.lemma_sound_fixed_point_is_least(self.run(self.start(), first));
        self.lemma_sound_fixed_point_is_least(self.run(self.start(), second));
        self.lemma_least_fixed_point_unique(
            self.run(self.start(), first),
            self.run(self.start(), second),
        );
    }

    /// A visit that changes nothing shows that the block's equations hold.
    pub proof fn lemma_step_unchanged(self, st: FlowState<T>, b: int)
        requires
            self.shaped(st),
            0 <= b < self.n,
            self.step(st, b) == st,
        ensures
            st.meet[b] == self.join(st.result, b),
            st.result[b] == self.apply(b, st.meet[b]),
    {
        let next = self.step(st, b);
        assert(next.meet[b] == self.join(st.result, b));
        assert(next.result[b] == self.apply(b, self.join(st.result, b)));
    }

    /// A sound state that a round of visits to every block leaves as it
    /// was satisfies every equation.
    pub proof fn lemma_unchanged_is_fixed_point(self, st: FlowState<T>, order: Seq<int>)
        requires
            self.monotone(),
            self.sound(st),
            self.valid_order(order),
            self.covers(order),
            self.run(st, order) == st,
        ensures
            self.is_least_fixed_point(st),
    {
        assert forall|b: int| 0 <= b < self.n implies st.meet[b] == self.join(st.result, b)
            && st.result[b] == self.apply(b, st.meet[b]) by {
            assert(order.contains(b));
            let i = choose|i: int| 0 <= i < order.len() && order[i] == b;
            let head = order.subrange(0, i);
            let upto = order.subrange(0, i + 1);
            let tail = order.subrange(i + 1, order.len() as int);
            assert(upto.drop_last() =~= head);
            assert(upto.last() == b);
            assert(upto + tail =~= order);
            self.lemma_run(st, head);
            self.lemma_run(st, upto);
            self.lemma_run_concat(st, upto, tail);
            self.lemma_run(self.run(st, upto), tail);
            // st <= run(head) <= run(upto) <= run(order) == st
            self.lemma_step(self.run(st, head), b);
            self.run(st, head).lemma_below_transitive(self.run(st, upto), st);
            st.lemma_below_antisymmetric(self.run(st, head));
            st.lemma_below_antisymmetric(self.run(st, upto));
            assert(self.step(st, b) == st);
            self.lemma_step_unchanged(st, b);
        }
        assert(self.is_fixed_point(st));
    }

    /// A visit to block `d` leaves the union for block `c` as it was,
    /// unless `c` depends on `d`.
    pub proof fn lemma_join_untouched(self, st: FlowState<T>, d: int, c: int)
        requires
            self.shaped(st),
            0 <= d < self.n,
            !self.depends(d, c),
        ensures
            self.join(self.step(st, d).result, c) == self.join(st.result, c),
    {
        let next = self.step(st, d);
        assert forall|t: T| self.join(next.result, c).contains(t) <==> self.join(
            st.result,
            c,
        ).contains(t) by {
            if self.join(next.result, c).contains(t) {
                let q = choose|q: int| #[trigger] self.depends(q, c) && next.result[q].contains(t);
                assert(q != d);
                assert(self.depends(q, c) && st.result[q].contains(t));
            }
            if self.join(st.result, c).contains(t) {
                let q = choose|q: int| #[trigger] self.depends(q, c) && st.result[q].contains(t);
                assert(q != d);
                assert(self.depends(q, c) && next.result[q].contains(t));
            }
        }
        assert(self.join(next.result, c) =~= self.join(st.result, c));
    }

    /// After the first `k` visits of a topological order, the equations of
    /// the blocks visited hold.
    pub proof fn lemma_pass_prefix(self, st: FlowState<T>, order: Seq<int>, k: int)
        requires
            self.shaped(st),
            self.topological(order),
            0 <= k <= order.len(),
        ensures
            self.shaped(self.run(st, order.subrange(0, k))),
            forall|i: int|
                0 <= i < k ==> {
                    let now = self.run(st, order.subrange(0, k));
                    &&& now.meet[#[trigger] order[i]] == self.join(now.result, order[i])
                    &&& now.result[order[i]] == self.apply(order[i], now.meet[order[i]])
                },
        decreases k,
    {
        if k > 0 {
            let head = order.subrange(0, k - 1);
            let upto = order.subrange(0, k);
            let before = self.run(st, head);
            let d = order[k - 1];
            assert(upto.drop_last() =~= head);
            assert(upto.last() == d);
            self.lemma_pass_prefix(st, order, k - 1);
            let now = self.run(st, upto);
            assert(now == self.step(before, d));
            assert forall|i: int| 0 <= i < k implies {
                &&& now.meet[#[trigger] order[i]] == self.join(now.result, order[i])
                &&& now.result[order[i]] == self.apply(order[i], now.meet[order[i]])
            } by {
                let c = order[i];
                if self.depends(d, c) {
                    assert(self.depends(order[k - 1], order[i]));
                    assert(k - 1 < i);
                }
                self.lemma_join_untouched(before, d, c);
                if i < k - 1 {
                    assert(c != d);
                    assert(before.meet[order[i]] == self.join(before.result, order[i]));
                }
            }
        }
    }

    /// Where no block depends on itself, directly or through others, one
    /// round of visits in a topological order satisfies every equation,
    /// whatever the state before it.
    pub proof fn lemma_single_pass(self, st: FlowState<T>, order: Seq<int>)
        requires
            self.shaped(st),
            self.topological(order),
        ensures
            self.is_fixed_point(self.run(st, order)),
    {
        self.lemma_pass_prefix(st, order, order.len() as int);
        assert(order.subrange(0, order.len() as int) =~= order);
        let now = self.run(st, order);
        assert forall|b: int| 0 <= b < self.n implies now.meet[b] == self.join(now.result, b)
            && now.result[b] == self.apply(b, now.meet[b]) by {
            assert(order.contains(b));
            let i = choose|i: int| 0 <= i < order.len() && order[i] == b;
            assert(now.meet[order[i]] == self.join(now.result, order[i]));
        }
    }
}

} // verus!
