//! Reaching definitions: for every block, the statements whose value may
//! still be in their variable when control enters and leaves the block.

use crate::block::StmtID;
use crate::flow::forward_order;
use crate::flow::Flow;
use crate::flow::FlowState;
use crate::program::neighbor_ids;
use crate::program::BlockID;
use crate::program::Program;
use crate::program::ProgramView;
use crate::set::keys_of;
use crate::set::VecSet;
use crate::solver::Equations;
use crate::solver::Solver;
use crate::text::str_eq;
use vstd::prelude::*;
use vstd::set_lib::FiniteFull;
use vstd::set_lib::lemma_set_subset_finite;

verus! {

/// The ids of all statements of a program.
pub open spec fn stmt_ids(pv: ProgramView) -> Set<StmtID> {
    Set::new(|id: StmtID| pv.has_stmt(id))
}

/// What the statement `id` generates: its own definition.
pub open spec fn rd_gen(id: StmtID) -> Set<StmtID> {
    set![id]
}

/// What the statement `id` kills: every other statement of the program
/// that defines the same variable.
pub open spec fn rd_kill(pv: ProgramView, id: StmtID) -> Set<StmtID> {
    Set::new(
        |d: StmtID| d != id && pv.has_stmt(d) && pv.stmt_at(d).def() == pv.stmt_at(id).def(),
    )
}

/// The definitions that reach the point after the statement `id`, given
/// those that reach the point before it.
pub open spec fn rd_stmt(pv: ProgramView, id: StmtID, before: Set<StmtID>) -> Set<StmtID> {
    before.difference(rd_kill(pv, id)).union(rd_gen(id))
}

/// The definitions that reach the point after the first `k` statements of
/// block `b`, given those that reach its entry.
pub open spec fn rd_prefix(pv: ProgramView, b: int, k: int, entry: Set<StmtID>) -> Set<StmtID>
    decreases k,
{
    if k <= 0 {
        entry
    } else {
        rd_stmt(pv, (pv.blocks[b].start + k - 1) as usize, rd_prefix(pv, b, k - 1, entry))
    }
}

/// The definitions that reach the exit of block `b`, given those that
/// reach its entry.
pub open spec fn rd_block(pv: ProgramView, b: int, entry: Set<StmtID>) -> Set<StmtID> {
    rd_prefix(pv, b, pv.blocks[b].len() as int, entry)
}

/// The equations of reaching definitions. The meet of a block is its IN
/// set, the union of the OUT sets of its predecessors; its result is its
/// OUT set.
pub open spec fn rd_flow(pv: ProgramView) -> Flow<StmtID> {
    Flow {
        n: pv.blocks.len(),
        dep: |q: int, b: int| pv.has_edge(q, b),
        transfer: |b: int, entry: Set<StmtID>| rd_block(pv, b, entry),
    }
}

/// The definitions that reach the point before the statement `id`, in the
/// state `st`.
pub open spec fn rd_before(pv: ProgramView, st: FlowState<StmtID>, id: StmtID) -> Set<StmtID> {
    let b = pv.block_of(id);
    rd_prefix(pv, b, id - pv.blocks[b].start, st.meet[b])
}

/// The definitions that reach the point after the statement `id`, in the
/// state `st`.
pub open spec fn rd_after(pv: ProgramView, st: FlowState<StmtID>, id: StmtID) -> Set<StmtID> {
    let b = pv.block_of(id);
    rd_prefix(pv, b, id - pv.blocks[b].start + 1, st.meet[b])
}

/// More definitions before a run of statements give more after it.
pub proof fn lemma_rd_prefix_monotone(
    pv: ProgramView,
    b: int,
    k: int,
    s1: Set<StmtID>,
    s2: Set<StmtID>,
)
    requires
        s1.subset_of(s2),
    ensures
        rd_prefix(pv, b, k, s1).subset_of(rd_prefix(pv, b, k, s2)),
    decreases k,
{
    if k > 0 {
        lemma_rd_prefix_monotone(pv, b, k - 1, s1, s2);
    }
}

/// Only statements of the program reach a point of it.
pub proof fn lemma_rd_prefix_within(pv: ProgramView, b: int, k: int, entry: Set<StmtID>)
    requires
        pv.wf(),
        0 <= b < pv.blocks.len(),
        0 <= k <= pv.blocks[b].len(),
        entry.subset_of(stmt_ids(pv)),
    ensures
        rd_prefix(pv, b, k, entry).subset_of(stmt_ids(pv)),
    decreases k,
{
    if k > 0 {
        lemma_rd_prefix_within(pv, b, k - 1, entry);
        let id = (pv.blocks[b].start + k - 1) as usize;
        assert(pv.blocks[b].ids_fit());
        assert(pv.blocks[b].in_range(id));
    }
}

/// The equations of reaching definitions keep inclusion.
pub proof fn lemma_rd_monotone(pv: ProgramView)
    ensures
        rd_flow(pv).monotone(),
{
    let fl = rd_flow(pv);
    assert forall|b: int, s1: Set<StmtID>, s2: Set<StmtID>|
        0 <= b < fl.n && s1.subset_of(s2) implies (#[trigger] fl.apply(b, s1)).subset_of(
        #[trigger] fl.apply(b, s2),
    ) by {
        lemma_rd_prefix_monotone(pv, b, pv.blocks[b].len() as int, s1, s2);
    }
}

/// The equations of reaching definitions stay within the statements of the
/// program, of which there are finitely many.
pub proof fn lemma_rd_closed(pv: ProgramView)
    requires
        pv.wf(),
    ensures
        rd_flow(pv).closed_in(stmt_ids(pv)),
        stmt_ids(pv).finite(),
{
    let fl = rd_flow(pv);
    assert forall|b: int, s: Set<StmtID>|
        0 <= b < fl.n && s.subset_of(stmt_ids(pv)) implies (#[trigger] fl.apply(b, s)).subset_of(
        stmt_ids(pv),
    ) by {
        lemma_rd_prefix_within(pv, b, pv.blocks[b].len() as int, s);
    }
    <usize as FiniteFull>::full_properties();
    lemma_set_subset_finite(Set::<usize>::full(), stmt_ids(pv));
}

/// Reaching definitions do not depend on the order of the visits: from
/// empty sets, whatever blocks are visited and in whatever order, once the
/// sets satisfy the equations they are the least solution, the same for
/// every order.
pub proof fn lemma_rd_order_independent(pv: ProgramView, first: Seq<int>, second: Seq<int>)
    requires
        rd_flow(pv).valid_order(first),
        rd_flow(pv).valid_order(second),
        rd_flow(pv).is_fixed_point(rd_flow(pv).run(rd_flow(pv).start(), first)),
        rd_flow(pv).is_fixed_point(rd_flow(pv).run(rd_flow(pv).start(), second)),
    ensures
        rd_flow(pv).is_least_fixed_point(rd_flow(pv).run(rd_flow(pv).start(), first)),
        rd_flow(pv).run(rd_flow(pv).start(), first) == rd_flow(pv).run(
            rd_flow(pv).start(),
            second,
        ),
{
    lemma_rd_monotone(pv);
    rd_flow(pv).lemma_order_independent(first, second);
}

/// Where `order` visits every block once and each block after all its
/// predecessors, one round in that order from empty sets gives the least
/// solution.
pub proof fn lemma_rd_single_sweep(pv: ProgramView, order: Seq<int>)
    requires
        rd_flow(pv).topological(order),
    ensures
        rd_flow(pv).is_least_fixed_point(rd_flow(pv).run(rd_flow(pv).start(), order)),
{
    let fl = rd_flow(pv);
    lemma_rd_monotone(pv);
    fl.lemma_start(Set::empty());
    fl.lemma_single_pass(fl.start(), order);
    fl.lemma_run(fl.start(), order);
    fl.lemma_sound_fixed_point_is_least(fl.run(fl.start(), order));
}

/// Where every edge leads from a block to a later one, the graph has no
/// cycle and the block order is topological: one round in block order from
/// empty sets gives the least solution.
pub proof fn lemma_rd_single_sweep_in_block_order(pv: ProgramView)
    requires
        forall|e: (usize, usize)| #[trigger] pv.edges.contains(e) ==> e.0 < e.1,
    ensures
        rd_flow(pv).is_least_fixed_point(
            rd_flow(pv).run(rd_flow(pv).start(), forward_order(pv.blocks.len())),
        ),
{
    let fl = rd_flow(pv);
    let order = forward_order(pv.blocks.len());
    assert forall|b: int| 0 <= b < fl.n implies #[trigger] order.contains(b) by {
        assert(order[b] == b);
    }
    assert forall|i: int, j: int|
        0 <= i < order.len() && 0 <= j < order.len() && fl.depends(
            #[trigger] order[i],
            #[trigger] order[j],
        ) implies i < j by {
        assert(pv.edges.contains((i as usize, j as usize)));
    }
    lemma_rd_single_sweep(pv, order);
}

/// The definitions that reach the point after the statement `id`, given
/// those that reach the point before it.
fn apply_stmt(program: &Program, id: StmtID, before: &VecSet<StmtID>) -> (r: VecSet<StmtID>)
    requires
        program@.has_stmt(id),
        before.wf(),
    ensures
        r.wf(),
        r@ == rd_stmt(program@, id, before@),
{
    let ghost pv = program@;
    let ghost kill = rd_kill(pv, id);
    let mut out: VecSet<StmtID> = VecSet::new();
    let name = match program.get_stmt(id) {
        Some(stmt) => match stmt.def() {
            Some(name) => name,
            None => {
                assert(false);
                return out;
            },
        },
        None => {
            assert(false);
            return out;
        },
    };
    let items = before.items();
    let ghost keys = keys_of(items@);
    let mut i: usize = 0;
    assert(keys.subrange(0, 0).to_set() =~= Set::<StmtID>::empty());
    assert(out@ =~= keys.subrange(0, 0).to_set().difference(kill));
    while i < items.len()
        invariant
            i <= items@.len(),
            pv == program@,
            kill == rd_kill(pv, id),
            keys == keys_of(items@),
            pv.has_stmt(id),
            name@ == pv.stmt_at(id).def(),
            out.wf(),
            out@ == keys.subrange(0, i as int).to_set().difference(kill),
        decreases items@.len() - i,
    {
        let d = items[i];
        let killed = d != id && match program.get_stmt(d) {
            Some(stmt) => match stmt.def() {
                Some(other) => str_eq(other, name),
                None => false,
            },
            None => false,
        };
        proof {
            assert(keys[i as int] == d);
            assert(killed == kill.contains(d));
            assert(keys.subrange(0, i + 1) =~= keys.subrange(0, i as int).push(d));
            keys.subrange(0, i as int).lemma_push_to_set_commute(d);
        }
        if !killed {
            out.insert(d);
        }
        assert(out@ =~= keys.subrange(0, i + 1).to_set().difference(kill));
        i += 1;
    }
    assert(keys.subrange(0, i as int) =~= keys);
    out.insert(id);
    assert(out@ =~= rd_stmt(pv, id, before@));
    out
}

/// The definitions that reach the point after the first `k` statements of
/// block `b`, given those that reach its entry.
fn apply_prefix(program: &Program, b: BlockID, k: usize, entry: &VecSet<StmtID>) -> (r: VecSet<
    StmtID,
>)
    requires
        program@.wf(),
        b < program@.len(),
        k <= program@.blocks[b as int].len(),
        entry.wf(),
    ensures
        r.wf(),
        r@ == rd_prefix(program@, b as int, k as int, entry@),
{
    let ghost pv = program@;
    let mut cur = entry.dup();
    let start = match program.get_block(b) {
        Some(block) => block.start(),
        None => {
            assert(false);
            return cur;
        },
    };
    let mut j: usize = 0;
    while j < k
        invariant
            j <= k,
            pv == program@,
            pv.wf(),
            b < pv.len(),
            k <= pv.blocks[b as int].len(),
            start == pv.blocks[b as int].start,
            cur.wf(),
            cur@ == rd_prefix(pv, b as int, j as int, entry@),
        decreases k - j,
    {
        assert(pv.blocks[b as int].ids_fit());
        let id = start + j;
        proof {
            pv.lemma_block_of(b as int, id);
        }
        cur = apply_stmt(program, id, &cur);
        j += 1;
    }
    cur
}

/// The equations of reaching definitions over a program, ready to be
/// evaluated.
#[derive(Clone, Copy)]
pub struct ReachingEquations<'a> {
    pub program: &'a Program,
}

impl<'a> ReachingEquations<'a> {
    /// The equations over `program`.
    pub fn new(program: &'a Program) -> (r: Self)
        ensures
            r.program == program,
            r.wf(),
    {
        proof {
            use_type_invariant(program);
        }
        ReachingEquations { program }
    }
}

impl<'a> Equations<StmtID> for ReachingEquations<'a> {
    open spec fn wf(&self) -> bool {
        self.program@.wf()
    }

    open spec fn flow(&self) -> Flow<StmtID> {
        rd_flow(self.program@)
    }

    open spec fn universe(&self) -> Set<StmtID> {
        stmt_ids(self.program@)
    }

    open spec fn order(&self) -> Seq<int> {
        forward_order(self.program@.len())
    }

    proof fn lemma_equations(&self) {
        let pv = self.program@;
        lemma_rd_monotone(pv);
        lemma_rd_closed(pv);
        let order = forward_order(pv.len());
        assert forall|b: int| 0 <= b < pv.len() implies #[trigger] order.contains(b) by {
            assert(order[b] == b);
        }
    }

    fn block_count(&self) -> (n: usize) {
        self.program.len()
    }

    fn nth(&self, i: usize) -> (b: usize) {
        i
    }

    fn sources(&self, b: usize) -> (r: Vec<usize>) {
        let preds = self.program.predecessors(b);
        let mut out: Vec<usize> = Vec::new();
        let mut k: usize = 0;
        while k < preds.len()
            invariant
                k <= preds@.len(),
                out@.len() == k,
                forall|j: int| 0 <= j < k ==> #[trigger] out@[j] == preds@[j].0,
            decreases preds@.len() - k,
        {
            out.push(preds[k].0);
            k += 1;
        }
        proof {
            let pv = self.program@;
            let fl = self.flow();
            assert(out@ =~= neighbor_ids(preds@));
            assert forall|j: int| 0 <= j < out@.len() implies fl.depends(
                #[trigger] out@[j] as int,
                b as int,
            ) by {
                assert(neighbor_ids(preds@).contains(out@[j]));
                assert(preds@[j].0 < pv.len());
            }
            assert forall|q: int| #[trigger] fl.depends(q, b as int) implies exists|j: int|
                0 <= j < out@.len() && #[trigger] out@[j] == q by {
                assert(pv.edges.contains((q as usize, b)));
                assert(neighbor_ids(preds@).contains(q as usize));
                let j = choose|j: int| 0 <= j < out@.len() && out@[j] == q as usize;
                assert(out@[j] == q);
            }
        }
        out
    }

    fn transfer(&self, b: usize, meet: &VecSet<StmtID>) -> (r: VecSet<StmtID>) {
        let k = match self.program.get_block(b) {
            Some(block) => block.len(),
            None => 0,
        };
        apply_prefix(self.program, b, k, meet)
    }
}

/// Reaching definitions of a program: for every block the definitions that
/// reach its entry (IN) and its exit (OUT).
pub struct ReachingDefinitions<'a> {
    solver: Solver<StmtID, ReachingEquations<'a>>,
}

impl<'a> ReachingDefinitions<'a> {
    /// The program that is analysed.
    pub closed spec fn program(&self) -> ProgramView {
        self.solver.problem().program@
    }

    /// The IN set of every block as the meet, the OUT set as the result.
    pub closed spec fn state(&self) -> FlowState<StmtID> {
        self.solver.state()
    }

    /// The IN set of every block.
    pub open spec fn ins(&self) -> Seq<Set<StmtID>> {
        self.state().meet
    }

    /// The OUT set of every block.
    pub open spec fn outs(&self) -> Seq<Set<StmtID>> {
        self.state().result
    }

    /// The analysis of `program` before any block was visited: every set
    /// is empty.
    pub fn new(program: &'a Program) -> (r: Self)
        ensures
            r.program() == program@,
            r.program().wf(),
            r.state() == rd_flow(program@).start(),
    {
        ReachingDefinitions { solver: Solver::new(ReachingEquations::new(program)) }
    }

    /// One round over all blocks in block order: each block's IN set
    /// becomes the union of the OUT sets of its predecessors, its OUT set
    /// what its statements make of that. Returns whether any set changed;
    /// where none did, the sets are the least solution.
    pub fn sweep(&mut self) -> (changed: bool)
        ensures
            final(self).program() == old(self).program(),
            final(self).state() == rd_flow(old(self).program()).run(
                old(self).state(),
                forward_order(old(self).program().len()),
            ),
            old(self).state().below(final(self).state()),
            changed == (final(self).state() != old(self).state()),
            !changed ==> rd_flow(old(self).program()).is_least_fixed_point(final(self).state()),
    {
        self.solver.sweep()
    }

    /// A visit to block `b` alone: its IN set becomes the union of the OUT sets of its
    /// predecessors, its OUT set what its statements make of that.
    /// Returns whether either changed. Where the program has no such
    /// block, nothing happens.
    pub fn visit(&mut self, b: BlockID) -> (changed: bool)
        ensures
            final(self).program() == old(self).program(),
            old(self).state().below(final(self).state()),
            changed == (final(self).state() != old(self).state()),
            final(self).state() == if b < old(self).program().len() {
                rd_flow(old(self).program()).step(old(self).state(), b as int)
            } else {
                old(self).state()
            },
    {
        self.solver.visit(b)
    }

    /// Rounds until one changes nothing: the sets are then the least
    /// solution of the equations. Returns the number of rounds, which the
    /// number of blocks and the number of statements bound.
    pub fn solve(&mut self) -> (rounds: usize)
        ensures
            final(self).program() == old(self).program(),
            old(self).state().below(final(self).state()),
            rd_flow(old(self).program()).is_least_fixed_point(final(self).state()),
            1 <= rounds <= 2 * old(self).program().len() * stmt_ids(old(self).program()).len() + 1,
    {
        self.solver.solve()
    }

    /// The reaching definitions of `program`: the least solution of its
    /// equations.
    pub fn analyze(program: &'a Program) -> (r: Self)
        ensures
            r.program() == program@,
            rd_flow(program@).is_least_fixed_point(r.state()),
    {
        let mut analysis = ReachingDefinitions::new(program);
        analysis.solve();
        analysis
    }

    /// The definitions that reach the entry of block `b`; nothing where the
    /// program has no such block.
    pub fn in_set(&self, b: BlockID) -> (r: Option<&VecSet<StmtID>>)
        ensures
            match r {
                Some(ids) => b < self.program().len() && ids.wf() && ids@ == self.ins()[b as int],
                None => b >= self.program().len(),
            },
    {
        self.solver.meet_of(b)
    }

    /// The definitions that reach the exit of block `b`; nothing where the
    /// program has no such block.
    pub fn out_set(&self, b: BlockID) -> (r: Option<&VecSet<StmtID>>)
        ensures
            match r {
                Some(ids) => b < self.program().len() && ids.wf() && ids@ == self.outs()[b as int],
                None => b >= self.program().len(),
            },
    {
        self.solver.result_of(b)
    }

    /// The definitions that reach the point after `extra` more statements
    /// than those before the statement `id`.
    fn at(&self, id: StmtID, extra: usize) -> (r: Option<VecSet<StmtID>>)
        requires
            extra <= 1,
        ensures
            match r {
                Some(ids) => self.program().has_stmt(id) && ids.wf() && ids@ == rd_prefix(
                    self.program(),
                    self.program().block_of(id),
                    id - self.program().blocks[self.program().block_of(id)].start + extra,
                    self.state().meet[self.program().block_of(id)],
                ),
                None => !self.program().has_stmt(id),
            },
    {
        let program = self.solver.equations().program;
        let ghost pv = program@;
        let n = program.len();
        let mut b: usize = 0;
        while b < n
            invariant
                b <= n,
                n == pv.len(),
                pv == program@,
                pv == self.program(),
                pv.wf(),
                extra <= 1,
                forall|c: int| 0 <= c < b ==> !(#[trigger] pv.blocks[c]).in_range(id),
            decreases n - b,
        {
            if let Some(block) = program.get_block(b) {
                if block.in_range(id) {
                    proof {
                        pv.lemma_block_of(b as int, id);
                    }
                    let k = id - block.start() + extra;
                    return match self.solver.meet_of(b) {
                        Some(entry) => Some(apply_prefix(program, b, k, entry)),
                        None => None,
                    };
                }
            }
            b += 1;
        }
        None
    }

    /// The definitions that reach the point before the statement `id`;
    /// nothing where the program has no such statement.
    pub fn in_at(&self, id: StmtID) -> (r: Option<VecSet<StmtID>>)
        ensures
            match r {
                Some(ids) => self.program().has_stmt(id) && ids.wf() && ids@ == rd_before(
                    self.program(),
                    self.state(),
                    id,
                ),
                None => !self.program().has_stmt(id),
            },
    {
        self.at(id, 0)
    }

    /// The definitions that reach the point after the statement `id`;
    /// nothing where the program has no such statement.
    pub fn out_at(&self, id: StmtID) -> (r: Option<VecSet<StmtID>>)
        ensures
            match r {
                Some(ids) => self.program().has_stmt(id) && ids.wf() && ids@ == rd_after(
                    self.program(),
                    self.state(),
                    id,
                ),
                None => !self.program().has_stmt(id),
            },
    {
        self.at(id, 1)
    }
}

} // verus!
