//! Programs: basic blocks in order and a directed graph over their indices.

use crate::block::numbered_views;
use crate::block::Block;
use crate::block::BlockView;
use crate::block::StmtID;
use crate::graph::first_occurrences;
use crate::graph::graph_edges;
use crate::graph::graph_from_edges;
use crate::graph::graph_neighbors;
use crate::graph::lemma_first_occurrences;
use crate::graph::lemma_neighbors_in;
use crate::graph::neighbors_in;
use crate::stmt::Stmt;
use crate::stmt::StmtView;
use petgraph::graphmap::GraphMap;
use petgraph::Directed;
use std::hash::RandomState;
use vstd::prelude::*;

verus! {

/// The index of a block in its program.
pub type BlockID = usize;

/// Why blocks and edges make no program.
#[derive(Debug, Clone, Copy, PartialEq, Eq)]
pub enum ProgramError {
    /// The id ranges of the blocks do not increase in block order, or one
    /// of them ends beyond the largest id.
    StmtIdsOverlap,
    /// An edge names a block that the program does not have.
    EdgeOutOfRange,
}

/// A control-flow graph: blocks, and edges between their indices.
pub struct Program {
    blocks: Vec<Block>,
    graph: GraphMap<usize, (), Directed, RandomState>,
}

/// A program as a value: its blocks in order, and its edges, each once as
/// (source, target), in the order in which they were given.
pub struct ProgramView {
    pub blocks: Seq<BlockView>,
    pub edges: Seq<(usize, usize)>,
}

impl ProgramView {
    /// The number of blocks.
    pub open spec fn len(self) -> nat {
        self.blocks.len()
    }

    /// Whether the id ranges of the blocks increase in block order.
    pub open spec fn ids_increase(self) -> bool {
        ids_increase(self.blocks)
    }

    /// Whether both ends of every edge are blocks of the program.
    pub open spec fn edges_in_range(self) -> bool {
        edges_in_range(self.edges, self.blocks.len())
    }

    /// Whether this is a program: ids increase, edges join blocks, and no
    /// edge is listed twice.
    pub open spec fn wf(self) -> bool {
        self.ids_increase() && self.edges_in_range() && self.edges.no_duplicates()
    }

    /// Whether the graph has an edge from block `from` to block `to`.
    pub open spec fn has_edge(self, from: int, to: int) -> bool {
        0 <= from < self.blocks.len() && 0 <= to < self.blocks.len() && from <= usize::MAX && to
            <= usize::MAX && self.edges.contains((from as usize, to as usize))
    }

    /// Whether a statement of the program has id `id`.
    pub open spec fn has_stmt(self, id: usize) -> bool {
        exists|b: int| 0 <= b < self.blocks.len() && (#[trigger] self.blocks[b]).in_range(id)
    }

    /// The block that holds the statement with id `id`.
    pub open spec fn block_of(self, id: usize) -> int {
        choose|b: int| 0 <= b < self.blocks.len() && (#[trigger] self.blocks[b]).in_range(id)
    }

    /// The statement with id `id`, for an id of the program.
    pub open spec fn stmt_at(self, id: usize) -> StmtView
        recommends
            self.has_stmt(id),
    {
        self.blocks[self.block_of(id)].stmt_at(id)
    }

    /// The statement with id `id`, if the program has one.
    pub open spec fn get_stmt(self, id: usize) -> Option<StmtView> {
        if self.has_stmt(id) {
            Some(self.stmt_at(id))
        } else {
            None
        }
    }

    /// The block with index `i`, if the program has one.
    pub open spec fn get_block(self, i: usize) -> Option<BlockView> {
        if i < self.blocks.len() {
            Some(self.blocks[i as int])
        } else {
            None
        }
    }

    /// The statements of the first `k` blocks in program order, each with
    /// its id.
    pub open spec fn stmts_upto(self, k: int) -> Seq<(usize, StmtView)>
        decreases k,
    {
        if k <= 0 {
            Seq::empty()
        } else {
            self.stmts_upto(k - 1) + self.blocks[k - 1].numbered()
        }
    }

    /// All statements in program order, each with its id.
    pub open spec fn stmts(self) -> Seq<(usize, StmtView)> {
        self.stmts_upto(self.blocks.len() as int)
    }

    /// In a program an id belongs to one block only.
    pub proof fn lemma_block_of(self, b: int, id: usize)
        requires
            self.ids_increase(),
            0 <= b < self.blocks.len(),
            self.blocks[b].in_range(id),
        ensures
            self.has_stmt(id),
            self.block_of(id) == b,
            self.stmt_at(id) == self.blocks[b].stmt_at(id),
    {
        let c = self.block_of(id);
        assert(self.blocks[c].in_range(id));
        if c < b {
            assert(self.blocks[c].end() <= self.blocks[b].start);
        } else if b < c {
            assert(self.blocks[b].end() <= self.blocks[c].start);
        }
    }
}

/// Whether id ranges increase in block order: every range ends within the
/// ids, and of two blocks that hold statements the earlier one ends before
/// the later one starts. Between them ids may be left out; an empty block
/// may start anywhere.
pub open spec fn ids_increase(blocks: Seq<BlockView>) -> bool {
    &&& forall|i: int| 0 <= i < blocks.len() ==> (#[trigger] blocks[i]).ids_fit()
    &&& forall|i: int, j: int|
        0 <= i < j < blocks.len() && (#[trigger] blocks[i]).len() > 0 && (#[trigger] blocks[j]).len()
            > 0 ==> blocks[i].end() <= blocks[j].start
}

/// Whether both ends of every edge are below `n`.
pub open spec fn edges_in_range(edges: Seq<(usize, usize)>, n: nat) -> bool {
    forall|e: (usize, usize)| #[trigger] edges.contains(e) ==> e.0 < n && e.1 < n
}

/// The values of a vector of blocks.
pub open spec fn block_views(blocks: Seq<Block>) -> Seq<BlockView> {
    Seq::new(blocks.len(), |i: int| blocks[i]@)
}

/// The indices of a list of neighbours.
pub open spec fn neighbor_ids(pairs: Seq<(BlockID, &Block)>) -> Seq<BlockID> {
    Seq::new(pairs.len(), |k: int| pairs[k].0)
}

/// Whether the id ranges of `blocks` increase in block order.
fn check_ids(blocks: &Vec<Block>) -> (r: bool)
    ensures
        r == ids_increase(block_views(blocks@)),
{
    let ghost views = block_views(blocks@);
    let mut next: usize = 0;
    let mut i: usize = 0;
    while i < blocks.len()
        invariant
            i <= blocks@.len(),
            views == block_views(blocks@),
            forall|k: int| 0 <= k < i ==> (#[trigger] views[k]).ids_fit(),
            forall|k: int, j: int|
                0 <= k < j < i && (#[trigger] views[k]).len() > 0 && (#[trigger] views[j]).len() > 0
                    ==> views[k].end() <= views[j].start,
            forall|k: int| 0 <= k < i && (#[trigger] views[k]).len() > 0 ==> views[k].end() <= next,
            next == 0 || exists|k: int|
                0 <= k < i && (#[trigger] views[k]).len() > 0 && views[k].end() == next,
        decreases blocks@.len() - i,
    {
        let start = blocks[i].start();
        let len = blocks[i].len();
        assert(views[i as int] == blocks@[i as int]@);
        if start > usize::MAX - len {
            assert(!views[i as int].ids_fit());
            return false;
        }
        if len > 0 {
            if start < next {
                proof {
                    let k = choose|k: int|
                        0 <= k < i && (#[trigger] views[k]).len() > 0 && views[k].end() == next;
                    assert(views[k].end() > views[i as int].start);
                    assert(views[i as int].len() > 0);
                }
                return false;
            }
            next = start + len;
        }
        i += 1;
    }
    true
}

/// Whether both ends of every edge are below `n`.
fn check_edges(edges: &[(BlockID, BlockID)], n: usize) -> (r: bool)
    ensures
        r == edges_in_range(edges@, n as nat),
{
    let mut i: usize = 0;
    while i < edges.len()
        invariant
            i <= edges@.len(),
            forall|k: int| 0 <= k < i ==> (#[trigger] edges@[k]).0 < n && edges@[k].1 < n,
        decreases edges@.len() - i,
    {
        let e = edges[i];
        if e.0 >= n || e.1 >= n {
            assert(edges@.contains(edges@[i as int]));
            return false;
        }
        i += 1;
    }
    assert forall|e: (usize, usize)| #[trigger] edges@.contains(e) implies e.0 < n && e.1 < n by {
        let k = choose|k: int| 0 <= k < edges@.len() && edges@[k] == e;
        assert(edges@[k].0 < n);
    }
    true
}

impl View for Program {
    type V = ProgramView;

    closed spec fn view(&self) -> ProgramView {
        ProgramView { blocks: block_views(self.blocks@), edges: graph_edges(self.graph) }
    }
}

impl Program {
    /// Every program that exists is well formed.
    #[verifier::type_invariant]
    pub open spec fn inv(&self) -> bool {
        self@.wf()
    }

    /// Builds a program from its blocks and the edges between their
    /// indices; an edge that is given twice counts once. Blocks whose id
    /// ranges do not increase are rejected, and so is an edge to or from a
    /// block that is not there.
    pub fn new(blocks: Vec<Block>, edges: &[(BlockID, BlockID)]) -> (r: Result<
        Program,
        ProgramError,
    >)
        ensures
            match r {
                Ok(p) => p@.blocks == block_views(blocks@) && p@.edges == first_occurrences(edges@)
                    && p@.wf(),
                Err(ProgramError::StmtIdsOverlap) => !ids_increase(block_views(blocks@)),
                Err(ProgramError::EdgeOutOfRange) => ids_increase(block_views(blocks@))
                    && !edges_in_range(edges@, blocks@.len()),
            },
    {
        if !check_ids(&blocks) {
            return Err(ProgramError::StmtIdsOverlap);
        }
        if !check_edges(edges, blocks.len()) {
            return Err(ProgramError::EdgeOutOfRange);
        }
        let graph = graph_from_edges(edges);
        proof {
            lemma_first_occurrences(edges@);
        }
        Ok(Program { blocks, graph })
    }

    /// Whether the program has no block.
    pub fn is_empty(&self) -> (r: bool)
        ensures
            r == (self@.len() == 0),
    {
        self.blocks.len() == 0
    }

    /// The number of blocks.
    pub fn len(&self) -> (r: usize)
        ensures
            r == self@.len(),
    {
        self.blocks.len()
    }

    /// The blocks in order.
    pub fn blocks(&self) -> (r: Vec<&Block>)
        ensures
            r@.len() == self@.len(),
            forall|i: int| 0 <= i < r@.len() ==> (#[trigger] r@[i])@ == self@.blocks[i],
    {
        let mut out: Vec<&Block> = Vec::new();
        let mut i: usize = 0;
        while i < self.blocks.len()
            invariant
                i <= self.blocks@.len(),
                out@.len() == i,
                forall|k: int| 0 <= k < i ==> #[trigger] out@[k] == self.blocks@[k],
            decreases self.blocks@.len() - i,
        {
            out.push(&self.blocks[i]);
            i += 1;
        }
        out
    }

    /// All statements in program order, each with its id.
    pub fn stmts(&self) -> (r: Vec<(StmtID, &Stmt)>)
        ensures
            numbered_views(r@) == self@.stmts(),
    {
        proof {
            use_type_invariant(self);
        }
        let mut out: Vec<(StmtID, &Stmt)> = Vec::new();
        let mut i: usize = 0;
        assert(numbered_views(out@) =~= self@.stmts_upto(0));
        while i < self.blocks.len()
            invariant
                i <= self.blocks@.len(),
                self@.wf(),
                numbered_views(out@) == self@.stmts_upto(i as int),
            decreases self.blocks@.len() - i,
        {
            assert(self@.blocks[i as int].ids_fit());
            let part = self.blocks[i].stmts();
            let ghost before = out@;
            let mut k: usize = 0;
            while k < part.len()
                invariant
                    k <= part@.len(),
                    out@ == before + part@.subrange(0, k as int),
                decreases part@.len() - k,
            {
                out.push(part[k]);
                assert(out@ =~= before + part@.subrange(0, k + 1));
                k += 1;
            }
            assert(part@.subrange(0, k as int) =~= part@);
            assert(numbered_views(out@) =~= numbered_views(before) + numbered_views(part@));
            i += 1;
        }
        out
    }

    /// The block with index `i`, or nothing where the program has none.
    pub fn get_block(&self, i: BlockID) -> (r: Option<&Block>)
        ensures
            match r {
                Some(b) => self@.get_block(i) == Some(b@),
                None => self@.get_block(i) is None,
            },
    {
        if i < self.blocks.len() {
            Some(&self.blocks[i])
        } else {
            None
        }
    }

    /// The statement with id `i`, or nothing where the program has none.
    pub fn get_stmt(&self, i: StmtID) -> (r: Option<&Stmt>)
        ensures
            match r {
                Some(stmt) => self@.get_stmt(i) == Some(stmt@),
                None => self@.get_stmt(i) is None,
            },
    {
        proof {
            use_type_invariant(self);
        }
        let mut b: usize = 0;
        while b < self.blocks.len()
            invariant
                b <= self.blocks@.len(),
                self@.wf(),
                forall|k: int| 0 <= k < b ==> !(#[trigger] self@.blocks[k]).in_range(i),
            decreases self.blocks@.len() - b,
        {
            match self.blocks[b].get(i) {
                Some(stmt) => {
                    proof {
                        self@.lemma_block_of(b as int, i);
                    }
                    return Some(stmt);
                },
                None => {},
            }
            b += 1;
        }
        None
    }

    /// The blocks with an edge to `block_id`, each with its index and
    /// once, in the order of the edges.
    pub fn predecessors(&self, block_id: BlockID) -> (r: Vec<(BlockID, &Block)>)
        ensures
            neighbor_ids(r@) == neighbors_in(self@.edges, block_id, true),
            neighbor_ids(r@).no_duplicates(),
            forall|q: usize| #[trigger]
                neighbor_ids(r@).contains(q) <==> self@.edges.contains((q, block_id)),
            forall|k: int|
                0 <= k < r@.len() ==> (#[trigger] r@[k]).0 < self@.len() && r@[k].1@
                    == self@.blocks[r@[k].0 as int],
    {
        self.neighbors(block_id, true)
    }

    /// The blocks with an edge from `block_id`, each with its index and
    /// once, in the order of the edges.
    pub fn successors(&self, block_id: BlockID) -> (r: Vec<(BlockID, &Block)>)
        ensures
            neighbor_ids(r@) == neighbors_in(self@.edges, block_id, false),
            neighbor_ids(r@).no_duplicates(),
            forall|q: usize| #[trigger]
                neighbor_ids(r@).contains(q) <==> self@.edges.contains((block_id, q)),
            forall|k: int|
                0 <= k < r@.len() ==> (#[trigger] r@[k]).0 < self@.len() && r@[k].1@
                    == self@.blocks[r@[k].0 as int],
    {
        self.neighbors(block_id, false)
    }

    /// The neighbours of a block against or along the edges.
    fn neighbors(&self, block_id: BlockID, incoming: bool) -> (r: Vec<(BlockID, &Block)>)
        ensures
            neighbor_ids(r@) == neighbors_in(self@.edges, block_id, incoming),
            neighbor_ids(r@).no_duplicates(),
            forall|q: usize| #[trigger]
                neighbor_ids(r@).contains(q) <==> self@.edges.contains(
                    if incoming {
                        (q, block_id)
                    } else {
                        (block_id, q)
                    },
                ),
            forall|k: int|
                0 <= k < r@.len() ==> (#[trigger] r@[k]).0 < self@.len() && r@[k].1@
                    == self@.blocks[r@[k].0 as int],
    {
        proof {
            use_type_invariant(self);
            lemma_neighbors_in(self@.edges, block_id, incoming);
        }
        let ids = graph_neighbors(&self.graph, block_id, incoming);
        let mut out: Vec<(BlockID, &Block)> = Vec::new();
        let mut k: usize = 0;
        while k < ids.len()
            invariant
                k <= ids@.len(),
                self@.wf(),
                forall|m: usize|
                    ids@.contains(m) <==> self@.edges.contains(
                        if incoming {
                            (m, block_id)
                        } else {
                            (block_id, m)
                        },
                    ),
                out@.len() == k,
                forall|j: int|
                    0 <= j < k ==> (#[trigger] out@[j]).0 == ids@[j] && out@[j].0
                        < self.blocks@.len() && out@[j].1 == self.blocks@[out@[j].0 as int],
            decreases ids@.len() - k,
        {
            let q = ids[k];
            assert(ids@.contains(q));
            out.push((q, &self.blocks[q]));
            k += 1;
        }
        assert(neighbor_ids(out@) =~= ids@);
        out
    }
}

impl Default for Program {
    /// The program without blocks.
    fn default() -> (p: Program)
        ensures
            p@.blocks.len() == 0,
            p@.edges.len() == 0,
    {
        let edges: Vec<(BlockID, BlockID)> = Vec::new();
        let graph = graph_from_edges(edges.as_slice());
        Program { blocks: Vec::new(), graph }
    }
}

} // verus!
