//! Solving a system of set equations by visiting the blocks round after
//! round until nothing changes.

use crate::flow::Flow;
use crate::flow::FlowState;
use crate::set::Elem;
use crate::set::VecSet;
use vstd::prelude::*;
use vstd::set_lib::lemma_len_subset;
use vstd::set_lib::lemma_subset_equality;

verus! {

/// The sets that a vector of tables holds.
pub open spec fn sets_view<T: Elem>(tables: Seq<VecSet<T>>) -> Seq<Set<T::V>> {
    Seq::new(tables.len(), |i: int| tables[i]@)
}

/// Whether every table is well formed.
pub open spec fn all_wf<T: Elem>(tables: Seq<VecSet<T>>) -> bool {
    forall|i: int| 0 <= i < tables.len() ==> (#[trigger] tables[i]).wf()
}

/// The state that two vectors of tables hold.
pub open spec fn state_of<T: Elem>(meet: Seq<VecSet<T>>, result: Seq<VecSet<T>>) -> FlowState<T::V> {
    FlowState { meet: sets_view(meet), result: sets_view(result) }
}

/// 1 for `true`, 0 for `false`.
pub open spec fn flag(b: bool) -> int {
    if b {
        1
    } else {
        0
    }
}

/// A system of equations that can be evaluated: its blocks, the order of a
/// round, what each block depends on, and its transfer functions.
pub trait Equations<T: Elem>: Sized {
    /// Whether the system is well formed.
    spec fn wf(&self) -> bool;

    /// The equations.
    spec fn flow(&self) -> Flow<T::V>;

    /// A finite set that holds every fact.
    spec fn universe(&self) -> Set<T::V>;

    /// The blocks in the order in which a round visits them.
    spec fn order(&self) -> Seq<int>;

    /// The transfer functions keep inclusion and stay within the universe;
    /// a round visits every block.
    proof fn lemma_equations(&self)
        requires
            self.wf(),
        ensures
            self.flow().monotone(),
            self.flow().closed_in(self.universe()),
            self.universe().finite(),
            self.flow().valid_order(self.order()),
            self.flow().covers(self.order()),
            self.order().len() == self.flow().n,
    ;

    /// The number of blocks.
    fn block_count(&self) -> (n: usize)
        requires
            self.wf(),
        ensures
            n == self.flow().n,
    ;

    /// The block that a round visits at position `i`.
    fn nth(&self, i: usize) -> (b: usize)
        requires
            self.wf(),
            i < self.flow().n,
        ensures
            b == self.order()[i as int],
    ;

    /// The blocks that block `b` depends on.
    fn sources(&self, b: usize) -> (r: Vec<usize>)
        requires
            self.wf(),
            b < self.flow().n,
        ensures
            forall|k: int| 0 <= k < r@.len() ==> self.flow().depends(#[trigger] r@[k] as int, b as int),
            forall|q: int| #[trigger]
                self.flow().depends(q, b as int) ==> exists|k: int|
                    0 <= k < r@.len() && #[trigger] r@[k] == q,
    ;

    /// The result of block `b` for the meet `meet`.
    fn transfer(&self, b: usize, meet: &VecSet<T>) -> (r: VecSet<T>)
        requires
            self.wf(),
            b < self.flow().n,
            meet.wf(),
        ensures
            r.wf(),
            r@ == self.flow().apply(b as int, meet@),
    ;
}

/// Tables of `n` empty sets.
fn empty_tables<T: Elem>(n: usize) -> (r: Vec<VecSet<T>>)
    ensures
        r@.len() == n,
        all_wf(r@),
        forall|i: int| 0 <= i < n ==> (#[trigger] r@[i])@ == Set::<T::V>::empty(),
{
    let mut out: Vec<VecSet<T>> = Vec::new();
    let mut i: usize = 0;
    while i < n
        invariant
            i <= n,
            out@.len() == i,
            all_wf(out@),
            forall|k: int| 0 <= k < i ==> (#[trigger] out@[k])@ == Set::<T::V>::empty(),
        decreases n - i,
    {
        out.push(VecSet::new());
        i += 1;
    }
    out
}

/// A copy of the tables.
fn copy_tables<T: Elem>(tables: &Vec<VecSet<T>>) -> (r: Vec<VecSet<T>>)
    requires
        all_wf(tables@),
    ensures
        all_wf(r@),
        sets_view(r@) == sets_view(tables@),
{
    let mut out: Vec<VecSet<T>> = Vec::new();
    let mut i: usize = 0;
    while i < tables.len()
        invariant
            i <= tables@.len(),
            all_wf(tables@),
            out@.len() == i,
            all_wf(out@),
            forall|k: int| 0 <= k < i ==> (#[trigger] out@[k])@ == tables@[k]@,
        decreases tables@.len() - i,
    {
        out.push(tables[i].dup());
        i += 1;
    }
    assert(sets_view(out@) =~= sets_view(tables@));
    out
}

/// The union of the tables that `picks` names.
fn gather<T: Elem>(tables: &Vec<VecSet<T>>, picks: &Vec<usize>) -> (r: VecSet<T>)
    requires
        all_wf(tables@),
        forall|k: int| 0 <= k < picks@.len() ==> #[trigger] picks@[k] < tables@.len(),
    ensures
        r.wf(),
        forall|t: T::V|
            r@.contains(t) <==> exists|k: int|
                0 <= k < picks@.len() && (#[trigger] tables@[picks@[k] as int])@.contains(t),
{
    let mut out: VecSet<T> = VecSet::new();
    let mut i: usize = 0;
    while i < picks.len()
        invariant
            i <= picks@.len(),
            all_wf(tables@),
            forall|k: int| 0 <= k < picks@.len() ==> #[trigger] picks@[k] < tables@.len(),
            out.wf(),
            forall|t: T::V|
                out@.contains(t) <==> exists|k: int|
                    0 <= k < i && (#[trigger] tables@[picks@[k] as int])@.contains(t),
        decreases picks@.len() - i,
    {
        let ghost before = out@;
        let q = picks[i];
        out.union_with(&tables[q]);
        proof {
            assert forall|t: T::V|
                out@.contains(t) <==> exists|k: int|
                    0 <= k < i + 1 && (#[trigger] tables@[picks@[k] as int])@.contains(t) by {
                if out@.contains(t) {
                    if before.contains(t) {
                        let k = choose|k: int|
                            0 <= k < i && (#[trigger] tables@[picks@[k] as int])@.contains(t);
                        assert(0 <= k < i + 1 && tables@[picks@[k] as int]@.contains(t));
                    } else {
                        assert(tables@[picks@[i as int] as int]@.contains(t));
                    }
                }
                if exists|k: int|
                    0 <= k < i + 1 && (#[trigger] tables@[picks@[k] as int])@.contains(t) {
                    let k = choose|k: int|
                        0 <= k < i + 1 && (#[trigger] tables@[picks@[k] as int])@.contains(t);
                    if k < i {
                        assert(before.contains(t));
                    }
                }
            }
        }
        i += 1;
    }
    out
}

/// A visit to block `b`: computes its meet and its result anew. Returns
/// whether either changed.
fn visit_block<T: Elem, P: Equations<T>>(
    problem: &P,
    meet: &mut Vec<VecSet<T>>,
    result: &mut Vec<VecSet<T>>,
    b: usize,
) -> (grew: bool)
    requires
        problem.wf(),
        b < problem.flow().n,
        old(meet)@.len() == problem.flow().n,
        old(result)@.len() == problem.flow().n,
        all_wf(old(meet)@),
        all_wf(old(result)@),
        problem.flow().sound(state_of(old(meet)@, old(result)@)),
        state_of(old(meet)@, old(result)@).within(problem.universe()),
    ensures
        final(meet)@.len() == problem.flow().n,
        final(result)@.len() == problem.flow().n,
        all_wf(final(meet)@),
        all_wf(final(result)@),
        problem.flow().sound(state_of(final(meet)@, final(result)@)),
        state_of(final(meet)@, final(result)@).within(problem.universe()),
        state_of(old(meet)@, old(result)@).below(state_of(final(meet)@, final(result)@)),
        state_of(final(meet)@, final(result)@) == problem.flow().step(
            state_of(old(meet)@, old(result)@),
            b as int,
        ),
        grew == (state_of(final(meet)@, final(result)@) != state_of(old(meet)@, old(result)@)),
{
    let ghost fl = problem.flow();
    let ghost u = problem.universe();
    let ghost cur = state_of(meet@, result@);
    proof {
        problem.lemma_equations();
    }
    let picks = problem.sources(b);
    let m = gather(result, &picks);
    proof {
        assert forall|t: T::V| m@.contains(t) <==> fl.join(cur.result, b as int).contains(t) by {
            if m@.contains(t) {
                let k = choose|k: int|
                    0 <= k < picks@.len() && (#[trigger] result@[picks@[k] as int])@.contains(t);
                assert(fl.depends(picks@[k] as int, b as int));
                assert(cur.result[picks@[k] as int].contains(t));
            }
            if fl.join(cur.result, b as int).contains(t) {
                let q = choose|q: int| #[trigger]
                    fl.depends(q, b as int) && cur.result[q].contains(t);
                let k = choose|k: int| 0 <= k < picks@.len() && #[trigger] picks@[k] == q;
                assert(result@[picks@[k] as int]@.contains(t));
            }
        }
        assert(m@ =~= fl.join(cur.result, b as int));
    }
    let r = problem.transfer(b, &m);
    let grew = m.len() != meet[b].len() || r.len() != result[b].len();
    proof {
        let next = fl.step(cur, b as int);
        fl.lemma_step(cur, b as int);
        fl.lemma_step_within(cur, b as int, u);
        assert(next.meet[b as int] == m@);
        assert(next.result[b as int] == r@);
        assert(cur.meet[b as int].subset_of(m@));
        assert(cur.result[b as int].subset_of(r@));
        assert(m@.subset_of(u));
        assert(r@.subset_of(u));
        lemma_len_subset(m@, u);
        lemma_len_subset(r@, u);
        lemma_len_subset(cur.meet[b as int], m@);
        lemma_len_subset(cur.result[b as int], r@);
        if !grew {
            lemma_subset_equality(cur.meet[b as int], m@);
            lemma_subset_equality(cur.result[b as int], r@);
            assert(next.meet =~= cur.meet);
            assert(next.result =~= cur.result);
        }
        assert(grew == (next != cur));
        assert(sets_view(meet@.update(b as int, m)) =~= cur.meet.update(b as int, m@));
        assert(sets_view(result@.update(b as int, r)) =~= cur.result.update(b as int, r@));
    }
    meet.set(b, m);
    result.set(b, r);
    grew
}

/// One round: visits every block in the order of the system. Returns
/// whether any set changed.
fn round<T: Elem, P: Equations<T>>(
    problem: &P,
    meet: &mut Vec<VecSet<T>>,
    result: &mut Vec<VecSet<T>>,
) -> (changed: bool)
    requires
        problem.wf(),
        old(meet)@.len() == problem.flow().n,
        old(result)@.len() == problem.flow().n,
        all_wf(old(meet)@),
        all_wf(old(result)@),
        problem.flow().sound(state_of(old(meet)@, old(result)@)),
        state_of(old(meet)@, old(result)@).within(problem.universe()),
    ensures
        final(meet)@.len() == problem.flow().n,
        final(result)@.len() == problem.flow().n,
        all_wf(final(meet)@),
        all_wf(final(result)@),
        problem.flow().sound(state_of(final(meet)@, final(result)@)),
        state_of(final(meet)@, final(result)@).within(problem.universe()),
        state_of(old(meet)@, old(result)@).below(state_of(final(meet)@, final(result)@)),
        state_of(final(meet)@, final(result)@) == problem.flow().run(
            state_of(old(meet)@, old(result)@),
            problem.order(),
        ),
        changed == (state_of(final(meet)@, final(result)@) != state_of(old(meet)@, old(result)@)),
{
    let ghost fl = problem.flow();
    let ghost order = problem.order();
    let ghost first = state_of(meet@, result@);
    let n = problem.block_count();
    let mut changed = false;
    let mut i: usize = 0;
    proof {
        problem.lemma_equations();
        assert(order.subrange(0, 0) =~= Seq::<int>::empty());
    }
    while i < n
        invariant
            i <= n,
            n == fl.n,
            problem.wf(),
            fl == problem.flow(),
            order == problem.order(),
            order.len() == n,
            fl.valid_order(order),
            meet@.len() == n,
            result@.len() == n,
            all_wf(meet@),
            all_wf(result@),
            fl.sound(state_of(meet@, result@)),
            state_of(meet@, result@).within(problem.universe()),
            first.below(state_of(meet@, result@)),
            state_of(meet@, result@) == fl.run(first, order.subrange(0, i as int)),
            changed == (state_of(meet@, result@) != first),
        decreases n - i,
    {
        let ghost cur = state_of(meet@, result@);
        let b = problem.nth(i);
        assert(0 <= order[i as int] < fl.n);
        let grew = visit_block(problem, meet, result, b);
        proof {
            let next = state_of(meet@, result@);
            first.lemma_below_transitive(cur, next);
            if next == first {
                cur.lemma_below_antisymmetric(first);
            }
            let upto = order.subrange(0, i + 1);
            assert(upto.drop_last() =~= order.subrange(0, i as int));
            assert(upto.last() == b);
        }
        changed = changed || grew;
        i += 1;
    }
    assert(order.subrange(0, i as int) =~= order);
    changed
}

/// The state of a solution in progress: a meet and a result for every
/// block, which rounds of visits raise to the least solution.
pub struct Solver<T: Elem, P: Equations<T> + Copy> {
    problem: P,
    meet: Vec<VecSet<T>>,
    result: Vec<VecSet<T>>,
}

impl<T: Elem, P: Equations<T> + Copy> Solver<T, P> {
    /// The system that is being solved.
    pub closed spec fn problem(&self) -> P {
        self.problem
    }

    /// The sets that the tables hold now.
    pub closed spec fn state(&self) -> FlowState<T::V> {
        state_of(self.meet@, self.result@)
    }

    /// The tables hold a sound state of a well-formed system.
    #[verifier::type_invariant]
    pub closed spec fn inv(&self) -> bool {
        &&& self.problem.wf()
        &&& self.meet@.len() == self.problem.flow().n
        &&& self.result@.len() == self.problem.flow().n
        &&& all_wf(self.meet@)
        &&& all_wf(self.result@)
        &&& self.problem.flow().sound(state_of(self.meet@, self.result@))
        &&& state_of(self.meet@, self.result@).within(self.problem.universe())
    }

    /// A solver for `problem`, with every set empty.
    pub fn new(problem: P) -> (r: Self)
        requires
            problem.wf(),
        ensures
            r.problem() == problem,
            r.state() == problem.flow().start(),
    {
        let n = problem.block_count();
        let meet: Vec<VecSet<T>> = empty_tables(n);
        let result: Vec<VecSet<T>> = empty_tables(n);
        proof {
            problem.flow().lemma_start(problem.universe());
            assert(sets_view(meet@) =~= problem.flow().start().meet);
            assert(sets_view(result@) =~= problem.flow().start().result);
        }
        Solver { problem, meet, result }
    }

    /// A visit to block `b`: its meet becomes the union of the results of
    /// the blocks that it depends on, its result what its transfer function
    /// makes of that. Returns whether either changed. Where there is no
    /// such block, nothing happens.
    pub fn visit(&mut self, b: usize) -> (changed: bool)
        ensures
            final(self).problem() == old(self).problem(),
            old(self).state().below(final(self).state()),
            changed == (final(self).state() != old(self).state()),
            final(self).state() == if b < old(self).problem().flow().n {
                old(self).problem().flow().step(old(self).state(), b as int)
            } else {
                old(self).state()
            },
    {
        proof {
            use_type_invariant(&*self);
        }
        if b >= self.meet.len() {
            return false;
        }
        let problem = self.problem;
        let mut meet = copy_tables(&self.meet);
        let mut result = copy_tables(&self.result);
        let changed = visit_block(&problem, &mut meet, &mut result, b);
        *self = Solver { problem, meet, result };
        changed
    }

    /// One round of visits to every block, in the order of the system.
    /// Returns whether any set changed; where none did, the state is the
    /// least solution.
    pub fn sweep(&mut self) -> (changed: bool)
        ensures
            final(self).problem() == old(self).problem(),
            final(self).state() == old(self).problem().flow().run(
                old(self).state(),
                old(self).problem().order(),
            ),
            old(self).state().below(final(self).state()),
            changed == (final(self).state() != old(self).state()),
            !changed ==> old(self).problem().flow().is_least_fixed_point(final(self).state()),
    {
        proof {
            use_type_invariant(&*self);
        }
        let problem = self.problem;
        let mut meet = copy_tables(&self.meet);
        let mut result = copy_tables(&self.result);
        let changed = round(&problem, &mut meet, &mut result);
        proof {
            if !changed {
                problem.lemma_equations();
                problem.flow().lemma_unchanged_is_fixed_point(self.state(), problem.order());
            }
        }
        *self = Solver { problem, meet, result };
        changed
    }

    /// Rounds of visits until one changes nothing. The state is then the
    /// least solution of the equations. Returns the number of rounds: every
    /// round but the last adds a member to some set, and the sets of a
    /// block can hold no more than the universe twice.
    pub fn solve(&mut self) -> (rounds: usize)
        ensures
            final(self).problem() == old(self).problem(),
            old(self).state().below(final(self).state()),
            old(self).problem().flow().is_least_fixed_point(final(self).state()),
            1 <= rounds <= 2 * old(self).problem().flow().n * old(self).problem().universe().len()
                + 1,
    {
        proof {
            use_type_invariant(&*self);
        }
        let problem = self.problem;
        let ghost fl = problem.flow();
        let ghost u = problem.universe();
        let ghost first = self.state();
        let mut meet = copy_tables(&self.meet);
        let mut result = copy_tables(&self.result);
        let mut changed = true;
        let mut rounds: usize = 0;
        proof {
            problem.lemma_equations();
            state_of(meet@, result@).lemma_size_bound(u, fl.n as int);
        }
        while changed
            invariant
                problem.wf(),
                fl == problem.flow(),
                u == problem.universe(),
                u.finite(),
                fl.monotone(),
                fl.valid_order(problem.order()),
                fl.covers(problem.order()),
                meet@.len() == fl.n,
                result@.len() == fl.n,
                all_wf(meet@),
                all_wf(result@),
                fl.sound(state_of(meet@, result@)),
                state_of(meet@, result@).within(u),
                first.below(state_of(meet@, result@)),
                state_of(meet@, result@).size() <= 2 * fl.n * u.len(),
                rounds + flag(changed) <= state_of(meet@, result@).size() + 1,
                !changed ==> rounds >= 1 && fl.is_least_fixed_point(state_of(meet@, result@)),
            decreases 2 * fl.n * u.len() - state_of(meet@, result@).size(), flag(changed),
        {
            let ghost before = state_of(meet@, result@);
            changed = round(&problem, &mut meet, &mut result);
            proof {
                let after = state_of(meet@, result@);
                first.lemma_below_transitive(before, after);
                after.lemma_size_bound(u, fl.n as int);
                if changed {
                    before.lemma_size_grows(after, u);
                } else {
                    fl.lemma_unchanged_is_fixed_point(before, problem.order());
                }
            }
            if rounds < usize::MAX {
                rounds += 1;
            }
        }
        *self = Solver { problem, meet, result };
        rounds
    }

    /// The system that is being solved.
    pub fn equations(&self) -> (r: &P)
        ensures
            *r == self.problem(),
            r.wf(),
    {
        proof {
            use_type_invariant(self);
        }
        &self.problem
    }

    /// The meet of block `b`, or nothing where there is no such block.
    pub fn meet_of(&self, b: usize) -> (r: Option<&VecSet<T>>)
        ensures
            match r {
                Some(set) => b < self.problem().flow().n && set.wf() && set@
                    == self.state().meet[b as int],
                None => b >= self.problem().flow().n,
            },
    {
        proof {
            use_type_invariant(self);
        }
        if b < self.meet.len() {
            Some(&self.meet[b])
        } else {
            None
        }
    }

    /// The result of block `b`, or nothing where there is no such block.
    pub fn result_of(&self, b: usize) -> (r: Option<&VecSet<T>>)
        ensures
            match r {
                Some(set) => b < self.problem().flow().n && set.wf() && set@
                    == self.state().result[b as int],
                None => b >= self.problem().flow().n,
            },
    {
        proof {
            use_type_invariant(self);
        }
        if b < self.result.len() {
            Some(&self.result[b])
        } else {
            None
        }
    }
}

} // verus!
