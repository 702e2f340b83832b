//! A sample program: the flow graph of Figure 9.13 of the Dragon Book.

use crate::block::stmt_views;
use crate::block::Block;
use crate::block::BlockView;
use crate::graph::lemma_first_occurrences;
use crate::program::block_views;
use crate::program::BlockID;
use crate::program::Program;
use crate::program::ProgramView;
use crate::stmt::BinOp;
use crate::stmt::RValue;
use crate::stmt::RValueView;
use crate::stmt::Stmt;
use crate::stmt::StmtView;
use vstd::prelude::*;

verus! {

/// The statement `dst = lhs op rhs`.
fn binary(dst: &str, lhs: RValue, operator: BinOp, rhs: RValue) -> (r: Stmt)
    ensures
        r@ == StmtView::Op(dst@, lhs@, operator, rhs@),
{
    Stmt::Op(dst.to_owned(), lhs, operator, rhs)
}

/// The statement `dst = src`.
fn copy(dst: &str, src: &str) -> (r: Stmt)
    ensures
        r@ == StmtView::Copy(dst@, RValueView::Var(src@)),
{
    Stmt::Copy(dst.to_owned(), RValue::Var(src.to_owned()))
}

/// The variable `name`.
fn var(name: &str) -> (r: RValue)
    ensures
        r@ == RValueView::Var(name@),
{
    RValue::Var(name.to_owned())
}

/// The blocks of the figure: an empty entry block, `i = m-1; j = n;
/// a = u1` from id 1, `i = i+1; j = j-1` from id 4, `a = u2` with id 6,
/// `i = u3` with id 7, and an empty exit block.
pub open spec fn figure_9_13_blocks() -> Seq<BlockView> {
    seq![
        BlockView { start: 0, stmts: Seq::empty() },
        BlockView {
            start: 1,
            stmts: seq![
                StmtView::Op("i"@, RValueView::Var("m"@), BinOp::Sub, RValueView::Lit(1)),
                StmtView::Copy("j"@, RValueView::Var("n"@)),
                StmtView::Copy("a"@, RValueView::Var("u1"@)),
            ],
        },
        BlockView {
            start: 4,
            stmts: seq![
                StmtView::Op("i"@, RValueView::Var("i"@), BinOp::Add, RValueView::Lit(1)),
                StmtView::Op("j"@, RValueView::Var("j"@), BinOp::Sub, RValueView::Lit(1)),
            ],
        },
        BlockView { start: 6, stmts: seq![StmtView::Copy("a"@, RValueView::Var("u2"@))] },
        BlockView { start: 7, stmts: seq![StmtView::Copy("i"@, RValueView::Var("u3"@))] },
        BlockView { start: 7, stmts: Seq::empty() },
    ]
}

/// The edges of the figure.
pub open spec fn figure_9_13_edges() -> Seq<(BlockID, BlockID)> {
    seq![(0, 1), (1, 2), (2, 3), (2, 4), (3, 4), (4, 2), (4, 5)]
}

/// The program of the figure: six blocks, of which the third, fourth and
/// fifth form a loop.
pub fn figure_9_13() -> (p: Program)
    ensures
        p@.blocks == figure_9_13_blocks(),
        p@.edges == figure_9_13_edges(),
{
    let mut blocks: Vec<Block> = Vec::new();
    let entry: Vec<Stmt> = Vec::new();
    let mut b1: Vec<Stmt> = Vec::new();
    b1.push(binary("i", var("m"), BinOp::Sub, RValue::Lit(1)));
    b1.push(copy("j", "n"));
    b1.push(copy("a", "u1"));
    let mut b2: Vec<Stmt> = Vec::new();
    b2.push(binary("i", var("i"), BinOp::Add, RValue::Lit(1)));
    b2.push(binary("j", var("j"), BinOp::Sub, RValue::Lit(1)));
    let mut b3: Vec<Stmt> = Vec::new();
    b3.push(copy("a", "u2"));
    let mut b4: Vec<Stmt> = Vec::new();
    b4.push(copy("i", "u3"));
    let exit: Vec<Stmt> = Vec::new();
    proof {
        let want = figure_9_13_blocks();
        assert(stmt_views(entry@) =~= want[0].stmts);
        assert(stmt_views(b1@) =~= want[1].stmts);
        assert(stmt_views(b2@) =~= want[2].stmts);
        assert(stmt_views(b3@) =~= want[3].stmts);
        assert(stmt_views(b4@) =~= want[4].stmts);
        assert(stmt_views(exit@) =~= want[5].stmts);
    }
    blocks.push(Block::new(0, entry));
    blocks.push(Block::new(1, b1));
    blocks.push(Block::new(4, b2));
    blocks.push(Block::new(6, b3));
    blocks.push(Block::new(7, b4));
    blocks.push(Block::new(7, exit));
    let mut edges: Vec<(BlockID, BlockID)> = Vec::new();
    edges.push((0, 1));
    edges.push((1, 2));
    edges.push((2, 3));
    edges.push((2, 4));
    edges.push((3, 4));
    edges.push((4, 2));
    edges.push((4, 5));
    proof {
        assert(block_views(blocks@) =~= figure_9_13_blocks());
        assert(edges@ =~= figure_9_13_edges());
        let pv = ProgramView { blocks: figure_9_13_blocks(), edges: edges@ };
        assert(pv.ids_increase());
        assert forall|e: (usize, usize)| #[trigger] edges@.contains(e) implies e.0 < 6 && e.1
            < 6 by {
            let k = choose|k: int| 0 <= k < edges@.len() && edges@[k] == e;
            assert(edges@[k].0 < 6 && edges@[k].1 < 6);
        }
        assert(edges@.no_duplicates());
        lemma_first_occurrences(edges@);
    }
    match Program::new(blocks, edges.as_slice()) {
        Ok(p) => p,
        Err(_) => {
            assert(false);
            Program::default()
        },
    }
}

} // verus!
