//! Live variables: for every block, the variables whose value may be read
//! before it is overwritten, when control enters and leaves the block.

use crate::block::BlockView;
use crate::block::StmtID;
use crate::flow::backward_order;
use crate::flow::Flow;
use crate::flow::FlowState;
use crate::program::neighbor_ids;
use crate::program::BlockID;
use crate::program::Program;
use crate::program::ProgramView;
use crate::set::VecSet;
use crate::solver::Equations;
use crate::solver::Solver;
use crate::stmt::Stmt;
use crate::stmt::StmtView;
use vstd::prelude::*;
use vstd::seq_lib::seq_to_set_is_finite;

verus! {

/// The name of a variable as a value.
pub type Name = Seq<char>;

/// The variables that are live before a statement, given those that are
/// live after it: what it reads, and what is live after it but for the
/// variable that it writes.
pub open spec fn lv_stmt(stmt: StmtView, after: Set<Name>) -> Set<Name> {
    stmt.uses().to_set().union(after.remove(stmt.def()))
}

/// The variables that are live before statement number `k` of a block,
/// given those that are live at its exit: the statements from `k` on, the
/// last one first.
pub open spec fn lv_suffix(block: BlockView, k: int, exit: Set<Name>) -> Set<Name>
    decreases block.stmts.len() - k,
{
    if k >= block.stmts.len() {
        exit
    } else {
        lv_stmt(block.stmts[k], lv_suffix(block, k + 1, exit))
    }
}

/// The variables that are live at the entry of block `b`, given those that
/// are live at its exit.
pub open spec fn lv_block(pv: ProgramView, b: int, exit: Set<Name>) -> Set<Name> {
    lv_suffix(pv.blocks[b], 0, exit)
}

/// The equations of live variables. The meet of a block is its OUT set,
/// the union of the IN sets of its successors; its result is its IN set.
pub open spec fn lv_flow(pv: ProgramView) -> Flow<Name> {
    Flow {
        n: pv.blocks.len(),
        dep: |q: int, b: int| pv.has_edge(b, q),
        transfer: |b: int, exit: Set<Name>| lv_block(pv, b, exit),
    }
}

/// The variables that the first `k` statements of a block read.
pub open spec fn block_uses(block: BlockView, k: int) -> Set<Name> {
    Set::new(
        |v: Name|
            exists|j: int|
                0 <= j < k && j < block.stmts.len() && (#[trigger] block.stmts[j]).uses().contains(
                    v,
                ),
    )
}

/// The variables that the first `m` blocks of a program read.
pub open spec fn program_uses(pv: ProgramView, m: int) -> Set<Name> {
    Set::new(
        |v: Name|
            exists|b: int|
                0 <= b < m && b < pv.blocks.len() && block_uses(
                    #[trigger] pv.blocks[b],
                    pv.blocks[b].stmts.len() as int,
                ).contains(v),
    )
}

/// The variables that a program reads.
pub open spec fn used_vars(pv: ProgramView) -> Set<Name> {
    program_uses(pv, pv.blocks.len() as int)
}

/// The variables that are live before the statement `id`, in the state
/// `st`.
pub open spec fn lv_before(pv: ProgramView, st: FlowState<Name>, id: StmtID) -> Set<Name> {
    let b = pv.block_of(id);
    lv_suffix(pv.blocks[b], id - pv.blocks[b].start, st.meet[b])
}

/// The variables that are live after the statement `id`, in the state
/// `st`.
pub open spec fn lv_after(pv: ProgramView, st: FlowState<Name>, id: StmtID) -> Set<Name> {
    let b = pv.block_of(id);
    lv_suffix(pv.blocks[b], id - pv.blocks[b].start + 1, st.meet[b])
}

/// A block reads finitely many variables.
pub proof fn lemma_block_uses_finite(block: BlockView, k: int)
    requires
        0 <= k <= block.stmts.len(),
    ensures
        block_uses(block, k).finite(),
    decreases k,
{
    if k == 0 {
        assert(block_uses(block, k) =~= Set::<Name>::empty());
    } else {
        lemma_block_uses_finite(block, k - 1);
        let last = block.stmts[k - 1].uses();
        seq_to_set_is_finite(last);
        assert(block_uses(block, k) =~= block_uses(block, k - 1).union(last.to_set())) by {
            assert forall|v: Name| block_uses(block, k).contains(v) <==> block_uses(
                block,
                k - 1,
            ).union(last.to_set()).contains(v) by {
                if block_uses(block, k).contains(v) {
                    let j = choose|j: int|
                        0 <= j < k && j < block.stmts.len() && (
                        #[trigger] block.stmts[j]).uses().contains(v);
                    if j < k - 1 {
                        assert(block_uses(block, k - 1).contains(v));
                    }
                }
                if block_uses(block, k - 1).contains(v) {
                    let j = choose|j: int|
                        0 <= j < k - 1 && j < block.stmts.len() && (
                        #[trigger] block.stmts[j]).uses().contains(v);
                    assert(block.stmts[j].uses().contains(v));
                }
                if last.to_set().contains(v) {
                    assert(block.stmts[k - 1].uses().contains(v));
                }
            }
        }
    }
}

/// A program reads finitely many variables.
pub proof fn lemma_program_uses_finite(pv: ProgramView, m: int)
    requires
        0 <= m <= pv.blocks.len(),
    ensures
        program_uses(pv, m).finite(),
    decreases m,
{
    if m == 0 {
        assert(program_uses(pv, m) =~= Set::<Name>::empty());
    } else {
        lemma_program_uses_finite(pv, m - 1);
        let block = pv.blocks[m - 1];
        let last = block_uses(block, block.stmts.len() as int);
        lemma_block_uses_finite(block, block.stmts.len() as int);
        assert(program_uses(pv, m) =~= program_uses(pv, m - 1).union(last)) by {
            assert forall|v: Name| program_uses(pv, m).contains(v) <==> program_uses(
                pv,
                m - 1,
            ).union(last).contains(v) by {
                if program_uses(pv, m).contains(v) {
                    let b = choose|b: int|
                        0 <= b < m && b < pv.blocks.len() && block_uses(
                            #[trigger] pv.blocks[b],
                            pv.blocks[b].stmts.len() as int,
                        ).contains(v);
                    if b < m - 1 {
                        assert(program_uses(pv, m - 1).contains(v));
                    }
                }
                if program_uses(pv, m - 1).contains(v) {
                    let b = choose|b: int|
                        0 <= b < m - 1 && b < pv.blocks.len() && block_uses(
                            #[trigger] pv.blocks[b],
                            pv.blocks[b].stmts.len() as int,
                        ).contains(v);
                    assert(block_uses(pv.blocks[b], pv.blocks[b].stmts.len() as int).contains(v));
                }
                if last.contains(v) {
                    assert(block_uses(pv.blocks[m - 1], pv.blocks[m - 1].stmts.len() as int).contains(
                        v,
                    ));
                }
            }
        }
    }
}

/// More live variables after a run of statements give more before it.
pub proof fn lemma_lv_suffix_monotone(block: BlockView, k: int, s1: Set<Name>, s2: Set<Name>)
    requires
        s1.subset_of(s2),
    ensures
        lv_suffix(block, k, s1).subset_of(lv_suffix(block, k, s2)),
    decreases block.stmts.len() - k,
{
    if k < block.stmts.len() {
        lemma_lv_suffix_monotone(block, k + 1, s1, s2);
    }
}

/// Only variables that the program reads are live at a point of it.
pub proof fn lemma_lv_suffix_within(pv: ProgramView, b: int, k: int, exit: Set<Name>)
    requires
        0 <= b < pv.blocks.len(),
        0 <= k,
        exit.subset_of(used_vars(pv)),
    ensures
        lv_suffix(pv.blocks[b], k, exit).subset_of(used_vars(pv)),
    decreases pv.blocks[b].stmts.len() - k,
{
    let block = pv.blocks[b];
    if k < block.stmts.len() {
        lemma_lv_suffix_within(pv, b, k + 1, exit);
        assert forall|v: Name| block.stmts[k].uses().to_set().contains(v) implies used_vars(
            pv,
        ).contains(v) by {
            assert(block.stmts[k].uses().contains(v));
            assert(block_uses(pv.blocks[b], pv.blocks[b].stmts.len() as int).contains(v));
        }
    }
}

/// The equations of live variables keep inclusion.
pub proof fn lemma_lv_monotone(pv: ProgramView)
    ensures
        lv_flow(pv).monotone(),
{
    let fl = lv_flow(pv);
    assert forall|b: int, s1: Set<Name>, s2: Set<Name>|
        0 <= b < fl.n && s1.subset_of(s2) implies (#[trigger] fl.apply(b, s1)).subset_of(
        #[trigger] fl.apply(b, s2),
    ) by {
        lemma_lv_suffix_monotone(pv.blocks[b], 0, s1, s2);
    }
}

/// The equations of live variables stay within the variables that the
/// program reads, of which there are finitely many.
pub proof fn lemma_lv_closed(pv: ProgramView)
    ensures
        lv_flow(pv).closed_in(used_vars(pv)),
        used_vars(pv).finite(),
{
    let fl = lv_flow(pv);
    assert forall|b: int, s: Set<Name>|
        0 <= b < fl.n && s.subset_of(used_vars(pv)) implies (#[trigger] fl.apply(b, s)).subset_of(
        used_vars(pv),
    ) by {
        lemma_lv_suffix_within(pv, b, 0, s);
    }
    lemma_program_uses_finite(pv, pv.blocks.len() as int);
}

/// Live variables do not depend on the order of the visits: from empty
/// sets, whatever blocks are visited and in whatever order, once the sets
/// satisfy the equations they are the least solution, the same for every
/// order.
pub proof fn lemma_lv_order_independent(pv: ProgramView, first: Seq<int>, second: Seq<int>)
    requires
        lv_flow(pv).valid_order(first),
        lv_flow(pv).valid_order(second),
        lv_flow(pv).is_fixed_point(lv_flow(pv).run(lv_flow(pv).start(), first)),
        lv_flow(pv).is_fixed_point(lv_flow(pv).run(lv_flow(pv).start(), second)),
    ensures
        lv_flow(pv).is_least_fixed_point(lv_flow(pv).run(lv_flow(pv).start(), first)),
        lv_flow(pv).run(lv_flow(pv).start(), first) == lv_flow(pv).run(
            lv_flow(pv).start(),
            second,
        ),
{
    lemma_lv_monotone(pv);
    lv_flow(pv).lemma_order_independent(first, second);
}

/// Where `order` visits every block once and each block after all its
/// successors, one round in that order from empty sets gives the least
/// solution.
pub proof fn lemma_lv_single_sweep(pv: ProgramView, order: Seq<int>)
    requires
        lv_flow(pv).topological(order),
    ensures
        lv_flow(pv).is_least_fixed_point(lv_flow(pv).run(lv_flow(pv).start(), order)),
{
    let fl = lv_flow(pv);
    lemma_lv_monotone(pv);
    fl.lemma_start(Set::empty());
    fl.lemma_single_pass(fl.start(), order);
    fl.lemma_run(fl.start(), order);
    fl.lemma_sound_fixed_point_is_least(fl.run(fl.start(), order));
}

/// The variables that are live before a statement, given those that are
/// live after it.
fn apply_stmt(stmt: &Stmt, after: &VecSet<String>) -> (r: VecSet<String>)
    requires
        after.wf(),
    ensures
        r.wf(),
        r@ == lv_stmt(stmt@, after@),
{
    let mut out = after.dup();
    match stmt.def() {
        Some(name) => {
            let name = name.to_owned();
            out.remove(&name);
        },
        None => {},
    }
    let ghost base = out@;
    let uses = stmt.uses();
    let ghost names = uses.deep_view();
    let mut i: usize = 0;
    assert(names.subrange(0, 0).to_set() =~= Set::<Name>::empty());
    assert(out@ =~= base.union(names.subrange(0, 0).to_set()));
    while i < uses.len()
        invariant
            i <= uses@.len(),
            names == uses.deep_view(),
            names == stmt@.uses(),
            out.wf(),
            out@ == base.union(names.subrange(0, i as int).to_set()),
        decreases uses@.len() - i,
    {
        let name = uses[i].to_owned();
        proof {
            assert(names[i as int] == name@);
            assert(names.subrange(0, i + 1) =~= names.subrange(0, i as int).push(name@));
            names.subrange(0, i as int).lemma_push_to_set_commute(name@);
        }
        out.insert(name);
        assert(out@ =~= base.union(names.subrange(0, i + 1).to_set()));
        i += 1;
    }
    assert(names.subrange(0, i as int) =~= names);
    assert(out@ =~= lv_stmt(stmt@, after@));
    out
}

/// The variables that are live before statement number `k` of block `b`,
/// given those that are live at its exit.
fn apply_suffix(program: &Program, b: BlockID, k: usize, exit: &VecSet<String>) -> (r: VecSet<
    String,
>)
    requires
        program@.wf(),
        b < program@.len(),
        exit.wf(),
    ensures
        r.wf(),
        r@ == lv_suffix(program@.blocks[b as int], k as int, exit@),
{
    let ghost pv = program@;
    let mut cur = exit.dup();
    let block = match program.get_block(b) {
        Some(block) => block,
        None => {
            assert(false);
            return cur;
        },
    };
    let start = block.start();
    let mut j: usize = block.len();
    assert(pv.blocks[b as int].ids_fit());
    while j > k
        invariant
            j <= block@.stmts.len(),
            k <= j || j == block@.stmts.len(),
            b < pv.blocks.len(),
            block@ == pv.blocks[b as int],
            block@.ids_fit(),
            start == block@.start,
            cur.wf(),
            cur@ == lv_suffix(block@, j as int, exit@),
        decreases j,
    {
        j -= 1;
        match block.get(start + j) {
            Some(stmt) => {
                cur = apply_stmt(stmt, &cur);
            },
            None => {
                assert(false);
            },
        }
    }
    cur
}

/// The equations of live variables over a program, ready to be evaluated.
#[derive(Clone, Copy)]
pub struct LiveEquations<'a> {
    pub program: &'a Program,
}

impl<'a> LiveEquations<'a> {
    /// The equations over `program`.
    pub fn new(program: &'a Program) -> (r: Self)
        ensures
            r.program == program,
            r.wf(),
    {
        proof {
            use_type_invariant(program);
        }
        LiveEquations { program }
    }
}

impl<'a> Equations<String> for LiveEquations<'a> {
    open spec fn wf(&self) -> bool {
        self.program@.wf()
    }

    open spec fn flow(&self) -> Flow<Name> {
        lv_flow(self.program@)
    }

    open spec fn universe(&self) -> Set<Name> {
        used_vars(self.program@)
    }

    open spec fn order(&self) -> Seq<int> {
        backward_order(self.program@.len())
    }

    proof fn lemma_equations(&self) {
        let pv = self.program@;
        lemma_lv_monotone(pv);
        lemma_lv_closed(pv);
        let order = backward_order(pv.len());
        assert forall|b: int| 0 <= b < pv.len() implies #[trigger] order.contains(b) by {
            assert(order[pv.len() - 1 - b] == b);
        }
    }

    fn block_count(&self) -> (n: usize) {
        self.program.len()
    }

    fn nth(&self, i: usize) -> (b: usize) {
        self.program.len() - 1 - i
    }

    fn sources(&self, b: usize) -> (r: Vec<usize>) {
        let succs = self.program.successors(b);
        let mut out: Vec<usize> = Vec::new();
        let mut k: usize = 0;
        while k < succs.len()
            invariant
                k <= succs@.len(),
                out@.len() == k,
                forall|j: int| 0 <= j < k ==> #[trigger] out@[j] == succs@[j].0,
            decreases succs@.len() - k,
        {
            out.push(succs[k].0);
            k += 1;
        }
        proof {
            let pv = self.program@;
            let fl = self.flow();
            assert(out@ =~= neighbor_ids(succs@));
            assert forall|j: int| 0 <= j < out@.len() implies fl.depends(
                #[trigger] out@[j] as int,
                b as int,
            ) by {
                assert(neighbor_ids(succs@).contains(out@[j]));
                assert(succs@[j].0 < pv.len());
            }
            assert forall|q: int| #[trigger] fl.depends(q, b as int) implies exists|j: int|
                0 <= j < out@.len() && #[trigger] out@[j] == q by {
                assert(pv.edges.contains((b, q as usize)));
                assert(neighbor_ids(succs@).contains(q as usize));
                let j = choose|j: int| 0 <= j < out@.len() && out@[j] == q as usize;
                assert(out@[j] == q);
            }
        }
        out
    }

    fn transfer(&self, b: usize, meet: &VecSet<String>) -> (r: VecSet<String>) {
        apply_suffix(self.program, b, 0, meet)
    }
}

/// Live variables of a program: for every block the variables that are
/// live at its entry (IN) and at its exit (OUT).
pub struct LiveVariables<'a> {
    solver: Solver<String, LiveEquations<'a>>,
}

impl<'a> LiveVariables<'a> {
    /// The program that is analysed.
    pub closed spec fn program(&self) -> ProgramView {
        self.solver.problem().program@
    }

    /// The OUT set of every block as the meet, the IN set as the result.
    pub closed spec fn state(&self) -> FlowState<Name> {
        self.solver.state()
    }

    /// The IN set of every block.
    pub open spec fn ins(&self) -> Seq<Set<Name>> {
        self.state().result
    }

    /// The OUT set of every block.
    pub open spec fn outs(&self) -> Seq<Set<Name>> {
        self.state().meet
    }

    /// The analysis of `program` before any block was visited: every set
    /// is empty.
    pub fn new(program: &'a Program) -> (r: Self)
        ensures
            r.program() == program@,
            r.program().wf(),
            r.state() == lv_flow(program@).start(),
    {
        LiveVariables { solver: Solver::new(LiveEquations::new(program)) }
    }

    /// One round over all blocks from the last to the first: each block's
    /// OUT set becomes the union of the IN sets of its successors, its IN
    /// set what its statements, the last one first, make of that. Returns
    /// whether any set changed; where none did, the sets are the least
    /// solution.
    pub fn sweep(&mut self) -> (changed: bool)
        ensures
            final(self).program() == old(self).program(),
            final(self).state() == lv_flow(old(self).program()).run(
                old(self).state(),
                backward_order(old(self).program().len()),
            ),
            old(self).state().below(final(self).state()),
            changed == (final(self).state() != old(self).state()),
            !changed ==> lv_flow(old(self).program()).is_least_fixed_point(final(self).state()),
    {
        self.solver.sweep()
    }

    /// A visit to block `b` alone: its OUT set becomes the union of the IN sets of its
    /// successors, its IN set what its statements make of that.
    /// Returns whether either changed. Where the program has no such
    /// block, nothing happens.
    pub fn visit(&mut self, b: BlockID) -> (changed: bool)
        ensures
            final(self).program() == old(self).program(),
            old(self).state().below(final(self).state()),
            changed == (final(self).state() != old(self).state()),
            final(self).state() == if b < old(self).program().len() {
                lv_flow(old(self).program()).step(old(self).state(), b as int)
            } else {
                old(self).state()
            },
    {
        self.solver.visit(b)
    }

    /// Rounds until one changes nothing: the sets are then the least
    /// solution of the equations. Returns the number of rounds, which the
    /// number of blocks and the number of variables that it reads bound.
    pub fn solve(&mut self) -> (rounds: usize)
        ensures
            final(self).program() == old(self).program(),
            old(self).state().below(final(self).state()),
            lv_flow(old(self).program()).is_least_fixed_point(final(self).state()),
            1 <= rounds <= 2 * old(self).program().len() * used_vars(old(self).program()).len() + 1,
    {
        self.solver.solve()
    }

    /// The live variables of `program`: the least solution of its
    /// equations.
    pub fn analyze(program: &'a Program) -> (r: Self)
        ensures
            r.program() == program@,
            lv_flow(program@).is_least_fixed_point(r.state()),
    {
        let mut analysis = LiveVariables::new(program);
        analysis.solve();
        analysis
    }

    /// The variables that are live at the entry of block `b`; nothing
    /// where the program has no such block.
    pub fn in_set(&self, b: BlockID) -> (r: Option<&VecSet<String>>)
        ensures
            match r {
                Some(names) => b < self.program().len() && names.wf() && names@
                    == self.ins()[b as int],
                None => b >= self.program().len(),
            },
    {
        self.solver.result_of(b)
    }

    /// The variables that are live at the exit of block `b`; nothing where
    /// the program has no such block.
    pub fn out_set(&self, b: BlockID) -> (r: Option<&VecSet<String>>)
        ensures
            match r {
                Some(names) => b < self.program().len() && names.wf() && names@
                    == self.outs()[b as int],
                None => b >= self.program().len(),
            },
    {
        self.solver.meet_of(b)
    }

    /// The variables that are live before the statement `extra` places
    /// after the statement `id`.
    fn at(&self, id: StmtID, extra: usize) -> (r: Option<VecSet<String>>)
        requires
            extra <= 1,
        ensures
            match r {
                Some(names) => self.program().has_stmt(id) && names.wf() && names@ == lv_suffix(
                    self.program().blocks[self.program().block_of(id)],
                    id - self.program().blocks[self.program().block_of(id)].start + extra,
                    self.state().meet[self.program().block_of(id)],
                ),
                None => !self.program().has_stmt(id),
            },
    {
        let program = self.solver.equations().program;
        let ghost pv = program@;
        let n = program.len();
        let mut b: usize = 0;
        while b < n
            invariant
                b <= n,
                n == pv.len(),
                pv == program@,
                pv == self.program(),
                pv.wf(),
                extra <= 1,
                forall|c: int| 0 <= c < b ==> !(#[trigger] pv.blocks[c]).in_range(id),
            decreases n - b,
        {
            if let Some(block) = program.get_block(b) {
                if block.in_range(id) {
                    proof {
                        pv.lemma_block_of(b as int, id);
                        assert(pv.blocks[b as int].ids_fit());
                    }
                    let k = id - block.start() + extra;
                    return match self.solver.meet_of(b) {
                        Some(exit) => Some(apply_suffix(program, b, k, exit)),
                        None => None,
                    };
                }
            }
            b += 1;
        }
        None
    }

    /// The variables that are live before the statement `id`; nothing
    /// where the program has no such statement.
    pub fn in_at(&self, id: StmtID) -> (r: Option<VecSet<String>>)
        ensures
            match r {
                Some(names) => self.program().has_stmt(id) && names.wf() && names@ == lv_before(
                    self.program(),
                    self.state(),
                    id,
                ),
                None => !self.program().has_stmt(id),
            },
    {
        self.at(id, 0)
    }

    /// The variables that are live after the statement `id`; nothing where
    /// the program has no such statement.
    pub fn out_at(&self, id: StmtID) -> (r: Option<VecSet<String>>)
        ensures
            match r {
                Some(names) => self.program().has_stmt(id) && names.wf() && names@ == lv_after(
                    self.program(),
                    self.state(),
                    id,
                ),
                None => !self.program().has_stmt(id),
            },
    {
        self.at(id, 1)
    }
}

} // verus!
