//! Basic blocks: a run of statements with consecutive statement ids.

use crate::stmt::ParseError;
use crate::stmt::Stmt;
use crate::stmt::StmtView;
use crate::text::spec_lines;
use crate::text::split_lines;
use vstd::prelude::*;

verus! {

/// The id of a statement, unique in its program.
pub type StmtID = usize;

/// A basic block: its statements in order, the first with id `start` and
/// each next one with the next id.
pub struct Block {
    start: usize,
    stmts: Vec<Stmt>,
}

/// A block as a value.
pub struct BlockView {
    pub start: usize,
    pub stmts: Seq<StmtView>,
}

impl BlockView {
    /// The number of statements.
    pub open spec fn len(self) -> nat {
        self.stmts.len()
    }

    /// One past the id of the last statement.
    pub open spec fn end(self) -> int {
        self.start + self.stmts.len()
    }

    /// Whether `id` is the id of a statement of the block.
    pub open spec fn in_range(self, id: usize) -> bool {
        self.start <= id < self.end()
    }

    /// The statement with id `id`, for an id of the block.
    pub open spec fn stmt_at(self, id: usize) -> StmtView
        recommends
            self.in_range(id),
    {
        self.stmts[id - self.start]
    }

    /// The statement with id `id`, if the block has one.
    pub open spec fn get(self, id: usize) -> Option<StmtView> {
        if self.in_range(id) {
            Some(self.stmt_at(id))
        } else {
            None
        }
    }

    /// Whether the end of the id range fits a machine word.
    pub open spec fn ids_fit(self) -> bool {
        self.end() <= usize::MAX
    }

    /// The statements in order, each with its id.
    pub open spec fn numbered(self) -> Seq<(usize, StmtView)> {
        Seq::new(self.stmts.len(), |k: int| ((self.start + k) as usize, self.stmts[k]))
    }
}

/// The values of a sequence of statements, each with its id.
pub open spec fn numbered_views(pairs: Seq<(usize, &Stmt)>) -> Seq<(usize, StmtView)> {
    Seq::new(pairs.len(), |k: int| (pairs[k].0, pairs[k].1@))
}

/// The statements that a sequence of lines denotes, empty lines left out,
/// or the error of the first line that is no statement.
pub open spec fn parse_lines(lines: Seq<Seq<char>>) -> Result<Seq<StmtView>, ParseError>
    decreases lines.len(),
{
    if lines.len() == 0 {
        Ok(Seq::empty())
    } else {
        match parse_lines(lines.drop_last()) {
            Err(e) => Err(e),
            Ok(stmts) => if lines.last().len() == 0 {
                Ok(stmts)
            } else {
                match StmtView::parse(lines.last()) {
                    Ok(stmt) => Ok(stmts.push(stmt)),
                    Err(e) => Err(e),
                }
            },
        }
    }
}

/// The views of the statements of a vector.
pub open spec fn stmt_views(stmts: Seq<Stmt>) -> Seq<StmtView> {
    Seq::new(stmts.len(), |i: int| stmts[i]@)
}

impl View for Block {
    type V = BlockView;

    closed spec fn view(&self) -> BlockView {
        BlockView { start: self.start, stmts: stmt_views(self.stmts@) }
    }
}

impl Block {
    /// A block of the given statements, the first with id `start`.
    pub fn new(start: usize, stmts: Vec<Stmt>) -> (b: Block)
        ensures
            b@ == (BlockView { start, stmts: stmt_views(stmts@) }),
    {
        Block { start, stmts }
    }

    /// Reads a block from a text with one statement on each line; empty
    /// lines are skipped. The first line that is no statement fails the
    /// whole block, with its error.
    pub fn parse(start: usize, s: &str) -> (r: Result<Block, ParseError>)
        ensures
            match r {
                Ok(b) => parse_lines(spec_lines(s@)) == Ok::<Seq<StmtView>, ParseError>(b@.stmts)
                    && b@.start == start,
                Err(e) => parse_lines(spec_lines(s@)) == Err::<Seq<StmtView>, ParseError>(e),
            },
    {
        let lines = split_lines(s);
        let ghost all = spec_lines(s@);
        let mut stmts: Vec<Stmt> = Vec::new();
        let mut i: usize = 0;
        assert(all.subrange(0, 0) =~= Seq::<Seq<char>>::empty());
        assert(stmt_views(stmts@) =~= Seq::<StmtView>::empty());
        while i < lines.len()
            invariant
                i <= lines.len(),
                lines.deep_view() == all,
                all == spec_lines(s@),
                parse_lines(all.subrange(0, i as int)) == Ok::<Seq<StmtView>, ParseError>(
                    stmt_views(stmts@),
                ),
            decreases lines.len() - i,
        {
            let line = lines[i];
            proof {
                let upto = all.subrange(0, i + 1);
                assert(upto.drop_last() =~= all.subrange(0, i as int));
                assert(upto.last() == line@);
            }
            if !line.is_empty() {
                match Stmt::parse(line) {
                    Ok(stmt) => {
                        let ghost before = stmt_views(stmts@);
                        stmts.push(stmt);
                        assert(stmt_views(stmts@) =~= before.push(stmt@));
                    },
                    Err(e) => {
                        proof {
                            let upto = all.subrange(0, i + 1);
                            assert(StmtView::parse(upto.last()) == Err::<StmtView, ParseError>(e));
                            assert(parse_lines(upto) == Err::<Seq<StmtView>, ParseError>(e));
                            lemma_parse_lines_error(all, i + 1);
                        }
                        return Err(e);
                    },
                }
            }
            i += 1;
        }
        assert(all.subrange(0, i as int) =~= all);
        Ok(Block { start, stmts })
    }

    /// The id of the first statement.
    pub fn start(&self) -> (r: usize)
        ensures
            r == self@.start,
    {
        self.start
    }

    /// Whether `i` is the id of a statement of the block.
    pub fn in_range(&self, i: usize) -> (r: bool)
        ensures
            r == self@.in_range(i),
    {
        i >= self.start && i - self.start < self.stmts.len()
    }

    /// Whether the block has no statement.
    pub fn is_empty(&self) -> (r: bool)
        ensures
            r == (self@.len() == 0),
    {
        self.stmts.len() == 0
    }

    /// The number of statements.
    pub fn len(&self) -> (r: usize)
        ensures
            r == self@.len(),
    {
        self.stmts.len()
    }

    /// The statement with id `i`, or nothing for an id outside the block.
    pub fn get(&self, i: usize) -> (r: Option<&Stmt>)
        ensures
            match r {
                Some(stmt) => self@.get(i) == Some(stmt@),
                None => self@.get(i) is None,
            },
    {
        if i < self.start {
            None
        } else if i - self.start < self.stmts.len() {
            Some(&self.stmts[i - self.start])
        } else {
            None
        }
    }

    /// The statements of the block in order, each with its id. The ids
    /// must fit: the block may not end beyond the largest machine word.
    pub fn stmts(&self) -> (r: Vec<(usize, &Stmt)>)
        requires
            self@.ids_fit(),
        ensures
            numbered_views(r@) == self@.numbered(),
    {
        let mut out: Vec<(usize, &Stmt)> = Vec::new();
        let mut k: usize = 0;
        while k < self.stmts.len()
            invariant
                k <= self.stmts@.len(),
                self.start + self.stmts@.len() <= usize::MAX,
                out@.len() == k,
                forall|j: int|
                    0 <= j < k ==> (#[trigger] out@[j]).0 == self.start + j && out@[j].1
                        == self.stmts@[j],
            decreases self.stmts@.len() - k,
        {
            out.push((self.start + k, &self.stmts[k]));
            k += 1;
        }
        assert(numbered_views(out@) =~= self@.numbered());
        out
    }
}

/// Where a prefix of the lines fails, all the lines fail with the same
/// error.
proof fn lemma_parse_lines_error(lines: Seq<Seq<char>>, k: int)
    requires
        0 <= k <= lines.len(),
        parse_lines(lines.subrange(0, k)) is Err,
    ensures
        parse_lines(lines) == parse_lines(lines.subrange(0, k)),
    decreases lines.len() - k,
{
    if k == lines.len() {
        assert(lines.subrange(0, k) =~= lines);
    } else {
        assert(lines.drop_last().subrange(0, k) =~= lines.subrange(0, k));
        lemma_parse_lines_error(lines.drop_last(), k);
    }
}

} // verus!
