//! Statements of the three-address language: a binary operation or a copy
//! over variables and literals.

use crate::pattern::captures;
use crate::pattern::regex_captures;
use crate::text::parse_lit;
use crate::text::spec_parse_lit;
use crate::text::str_eq;
use vstd::prelude::*;
use vstd::string::*;

verus! {

/// The name of a variable.
pub type Var = String;

/// A literal operand.
pub type Lit = u32;

/// The text of a binary operation: destination, `=`, left operand, operator,
/// right operand, with at most one white-space character on each side of
/// `=` and of the operator.
pub const OP_PATTERN: &'static str =
    r"^(?P<dst>\w+)\s?=\s?(?P<lhs>\w+)\s?(?P<op>\+|-|\*)\s?(?P<rhs>\w+)$";

/// The text of a copy: destination, `=`, source, with at most one
/// white-space character on each side of `=`.
pub const COPY_PATTERN: &'static str = r"^(?P<dst>\w+)\s?=\s?(?P<src>\w+)$";

/// Why a text is no statement.
#[derive(Debug, Clone, Copy, PartialEq, Eq)]
pub enum ParseError {
    /// The text has the form of neither a binary operation nor a copy.
    InvalidStatementSyntax,
    /// The operator is none of `+`, `-` and `*`.
    InvalidOperator,
}

/// An operand: a variable or a literal.
#[derive(Debug, PartialEq)]
pub enum RValue {
    Var(Var),
    Lit(Lit),
}

/// An operand as a value: the characters of a variable's name, or a literal.
pub enum RValueView {
    Var(Seq<char>),
    Lit(u32),
}

impl RValueView {
    /// The variable that the operand reads: its name if it is a variable,
    /// nothing if it is a literal.
    pub open spec fn vars(self) -> Seq<Seq<char>> {
        match self {
            RValueView::Var(name) => seq![name],
            RValueView::Lit(_) => Seq::empty(),
        }
    }
}

impl View for RValue {
    type V = RValueView;

    open spec fn view(&self) -> RValueView {
        match self {
            RValue::Var(name) => RValueView::Var(name@),
            RValue::Lit(n) => RValueView::Lit(*n),
        }
    }
}

impl RValue {
    /// The operand that a token denotes: a literal where the token is a
    /// decimal number that fits 32 bits, else the variable of that name.
    pub open spec fn spec_parse(s: Seq<char>) -> RValueView {
        match spec_parse_lit(s) {
            Some(n) => RValueView::Lit(n),
            None => RValueView::Var(s),
        }
    }

    /// Reads an operand from a token.
    pub fn parse(s: &str) -> (r: RValue)
        ensures
            r@ == RValue::spec_parse(s@),
    {
        match parse_lit(s) {
            Some(n) => RValue::Lit(n),
            None => RValue::Var(s.to_owned()),
        }
    }

    /// The name of the variable, if the operand is one.
    pub fn var(&self) -> (r: Option<&str>)
        ensures
            match r {
                Some(name) => self@ == RValueView::Var(name@),
                None => self@ is Lit,
            },
    {
        match self {
            RValue::Var(name) => Some(name.as_str()),
            RValue::Lit(_) => None,
        }
    }
}

impl From<Var> for RValue {
    fn from(var: Var) -> (r: RValue) {
        RValue::Var(var)
    }
}

impl vstd::std_specs::convert::FromSpecImpl<Var> for RValue {
    open spec fn obeys_from_spec() -> bool {
        true
    }

    open spec fn from_spec(var: Var) -> RValue {
        RValue::Var(var)
    }
}

impl From<Lit> for RValue {
    fn from(lit: Lit) -> (r: RValue) {
        RValue::Lit(lit)
    }
}

impl vstd::std_specs::convert::FromSpecImpl<Lit> for RValue {
    open spec fn obeys_from_spec() -> bool {
        true
    }

    open spec fn from_spec(lit: Lit) -> RValue {
        RValue::Lit(lit)
    }
}

/// A binary operator.
#[derive(Debug, Clone, Copy, PartialEq, Eq)]
pub enum BinOp {
    Add,
    Sub,
    Mul,
}

impl BinOp {
    /// The operator that a token denotes.
    pub open spec fn spec_parse(s: Seq<char>) -> Result<BinOp, ParseError> {
        if s == seq!['+'] {
            Ok(BinOp::Add)
        } else if s == seq!['-'] {
            Ok(BinOp::Sub)
        } else if s == seq!['*'] {
            Ok(BinOp::Mul)
        } else {
            Err(ParseError::InvalidOperator)
        }
    }

    /// Reads an operator from a token.
    pub fn parse(s: &str) -> (r: Result<BinOp, ParseError>)
        ensures
            r == BinOp::spec_parse(s@),
    {
        proof {
            reveal_strlit("+");
            reveal_strlit("-");
            reveal_strlit("*");
            assert("+"@ =~= seq!['+']);
            assert("-"@ =~= seq!['-']);
            assert("*"@ =~= seq!['*']);
        }
        if str_eq(s, "+") {
            Ok(BinOp::Add)
        } else if str_eq(s, "-") {
            Ok(BinOp::Sub)
        } else if str_eq(s, "*") {
            Ok(BinOp::Mul)
        } else {
            Err(ParseError::InvalidOperator)
        }
    }
}

/// A statement: `dst = lhs op rhs` or `dst = src`.
#[derive(Debug, PartialEq)]
pub enum Stmt {
    Op(Var, RValue, BinOp, RValue),
    Copy(Var, RValue),
}

/// A statement as a value.
pub enum StmtView {
    Op(Seq<char>, RValueView, BinOp, RValueView),
    Copy(Seq<char>, RValueView),
}

impl StmtView {
    /// The variable that the statement writes.
    pub open spec fn def(self) -> Seq<char> {
        match self {
            StmtView::Op(dst, _, _, _) => dst,
            StmtView::Copy(dst, _) => dst,
        }
    }

    /// The operands of the statement, from left to right.
    pub open spec fn operands(self) -> Seq<RValueView> {
        match self {
            StmtView::Op(_, lhs, _, rhs) => seq![lhs, rhs],
            StmtView::Copy(_, src) => seq![src],
        }
    }

    /// The variables that the statement reads, from left to right; one that
    /// stands on both sides of an operator is listed twice.
    pub open spec fn uses(self) -> Seq<Seq<char>> {
        match self {
            StmtView::Op(_, lhs, _, rhs) => lhs.vars() + rhs.vars(),
            StmtView::Copy(_, src) => src.vars(),
        }
    }

    /// The binary operation that the groups of `OP_PATTERN` denote: the
    /// whole match, then destination, left operand, operator, right operand.
    pub open spec fn from_op_groups(groups: Seq<Option<Seq<char>>>) -> Result<StmtView, ParseError> {
        if groups.len() == 5 && groups[1] is Some && groups[2] is Some && groups[3] is Some
            && groups[4] is Some {
            match BinOp::spec_parse(groups[3]->0) {
                Ok(op) => Ok(
                    StmtView::Op(
                        groups[1]->0,
                        RValue::spec_parse(groups[2]->0),
                        op,
                        RValue::spec_parse(groups[4]->0),
                    ),
                ),
                Err(e) => Err(e),
            }
        } else {
            Err(ParseError::InvalidStatementSyntax)
        }
    }

    /// The copy that the groups of `COPY_PATTERN` denote: the whole match,
    /// then destination and source.
    pub open spec fn from_copy_groups(groups: Seq<Option<Seq<char>>>) -> Result<
        StmtView,
        ParseError,
    > {
        if groups.len() == 3 && groups[1] is Some && groups[2] is Some {
            Ok(StmtView::Copy(groups[1]->0, RValue::spec_parse(groups[2]->0)))
        } else {
            Err(ParseError::InvalidStatementSyntax)
        }
    }

    /// The statement that a line denotes: a binary operation where
    /// `OP_PATTERN` matches the line, else a copy where `COPY_PATTERN` does.
    pub open spec fn parse(line: Seq<char>) -> Result<StmtView, ParseError> {
        match regex_captures(OP_PATTERN@, line) {
            Some(groups) => StmtView::from_op_groups(groups),
            None => match regex_captures(COPY_PATTERN@, line) {
                Some(groups) => StmtView::from_copy_groups(groups),
                None => Err(ParseError::InvalidStatementSyntax),
            },
        }
    }
}

impl View for Stmt {
    type V = StmtView;

    open spec fn view(&self) -> StmtView {
        match self {
            Stmt::Op(dst, lhs, op, rhs) => StmtView::Op(dst@, lhs@, *op, rhs@),
            Stmt::Copy(dst, src) => StmtView::Copy(dst@, src@),
        }
    }
}

/// Whether a result holds the statement, or the error, that `expected` names.
pub open spec fn parsed_as(r: Result<Stmt, ParseError>, expected: Result<StmtView, ParseError>) -> bool {
    match r {
        Ok(stmt) => expected == Ok::<StmtView, ParseError>(stmt@),
        Err(e) => expected == Err::<StmtView, ParseError>(e),
    }
}

impl Stmt {
    /// Builds a binary operation from the groups that `OP_PATTERN` captured.
    pub fn from_op_captures(groups: &Vec<Option<String>>) -> (r: Result<Stmt, ParseError>)
        ensures
            parsed_as(r, StmtView::from_op_groups(groups.deep_view())),
    {
        let ghost g = groups.deep_view();
        if groups.len() != 5 {
            return Err(ParseError::InvalidStatementSyntax);
        }
        proof {
            assert(g[1] == groups@[1].deep_view());
            assert(g[2] == groups@[2].deep_view());
            assert(g[3] == groups@[3].deep_view());
            assert(g[4] == groups@[4].deep_view());
        }
        match &groups[1] {
            Some(dst) => match &groups[2] {
                Some(lhs) => match &groups[3] {
                    Some(op) => match &groups[4] {
                        Some(rhs) => {
                            let lhs = RValue::parse(lhs.as_str());
                            match BinOp::parse(op.as_str()) {
                                Ok(op) => {
                                    let rhs = RValue::parse(rhs.as_str());
                                    Ok(Stmt::Op(dst.clone(), lhs, op, rhs))
                                },
                                Err(e) => Err(e),
                            }
                        },
                        None => Err(ParseError::InvalidStatementSyntax),
                    },
                    None => Err(ParseError::InvalidStatementSyntax),
                },
                None => Err(ParseError::InvalidStatementSyntax),
            },
            None => Err(ParseError::InvalidStatementSyntax),
        }
    }

    /// Builds a copy from the groups that `COPY_PATTERN` captured.
    pub fn from_copy_captures(groups: &Vec<Option<String>>) -> (r: Result<Stmt, ParseError>)
        ensures
            parsed_as(r, StmtView::from_copy_groups(groups.deep_view())),
    {
        let ghost g = groups.deep_view();
        if groups.len() != 3 {
            return Err(ParseError::InvalidStatementSyntax);
        }
        proof {
            assert(g[1] == groups@[1].deep_view());
            assert(g[2] == groups@[2].deep_view());
        }
        match &groups[1] {
            Some(dst) => match &groups[2] {
                Some(src) => Ok(Stmt::Copy(dst.clone(), RValue::parse(src.as_str()))),
                None => Err(ParseError::InvalidStatementSyntax),
            },
            None => Err(ParseError::InvalidStatementSyntax),
        }
    }

    /// Reads a statement from a line of text.
    pub fn parse(s: &str) -> (r: Result<Stmt, ParseError>)
        ensures
            parsed_as(r, StmtView::parse(s@)),
    {
        match captures(OP_PATTERN, s) {
            Some(groups) => Stmt::from_op_captures(&groups),
            None => match captures(COPY_PATTERN, s) {
                Some(groups) => Stmt::from_copy_captures(&groups),
                None => Err(ParseError::InvalidStatementSyntax),
            },
        }
    }

    /// The variable that the statement writes. Every statement writes one.
    pub fn def(&self) -> (r: Option<&str>)
        ensures
            r matches Some(name) && name@ == self@.def(),
    {
        match self {
            Stmt::Op(dst, _, _, _) => Some(dst.as_str()),
            Stmt::Copy(dst, _) => Some(dst.as_str()),
        }
    }

    /// The variables that the statement reads, from left to right.
    pub fn uses(&self) -> (r: Vec<&str>)
        ensures
            r.deep_view() == self@.uses(),
    {
        let mut names: Vec<&str> = Vec::new();
        match self {
            Stmt::Op(_, lhs, _, rhs) => {
                if let Some(name) = lhs.var() {
                    names.push(name);
                }
                if let Some(name) = rhs.var() {
                    names.push(name);
                }
            },
            Stmt::Copy(_, src) => {
                if let Some(name) = src.var() {
                    names.push(name);
                }
            },
        }
        assert(names.deep_view() =~= self@.uses());
        names
    }
}

/// The variables that a statement reads are the names of its variable
/// operands, and no others: a literal operand is never among them.
pub proof fn lemma_uses_are_variable_operands(s: StmtView)
    ensures
        forall|name: Seq<char>|
            s.uses().contains(name) <==> s.operands().contains(RValueView::Var(name)),
        s.uses().len() <= s.operands().len(),
{
    assert forall|name: Seq<char>|
        s.uses().contains(name) <==> s.operands().contains(RValueView::Var(name)) by {
        match s {
            StmtView::Op(_, lhs, _, rhs) => {
                let ops = seq![lhs, rhs];
                assert(ops[0] == lhs && ops[1] == rhs);
                if s.uses().contains(name) {
                    let i = choose|i: int| 0 <= i < s.uses().len() && s.uses()[i] == name;
                    if lhs == RValueView::Var(name) {
                        assert(ops[0] == RValueView::Var(name));
                    } else {
                        assert(rhs == RValueView::Var(name));
                        assert(ops[1] == RValueView::Var(name));
                    }
                }
                if ops.contains(RValueView::Var(name)) {
                    if lhs == RValueView::Var(name) {
                        assert(s.uses()[0] == name);
                    } else {
                        assert(rhs == RValueView::Var(name));
                        assert(s.uses()[s.uses().len() - 1] == name);
                    }
                }
            },
            StmtView::Copy(_, src) => {
                let ops = seq![src];
                assert(ops[0] == src);
                if s.uses().contains(name) {
                    assert(src == RValueView::Var(name));
                    assert(ops[0] == RValueView::Var(name));
                }
                if ops.contains(RValueView::Var(name)) {
                    assert(s.uses()[0] == name);
                }
            },
        }
    }
}

} // verus!
