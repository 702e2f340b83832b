use data_flow::stmt::COPY_PATTERN;
use data_flow::stmt::OP_PATTERN;
use data_flow::text::parse_lit;
use data_flow::text::split_lines;
use data_flow::text::str_eq;
use data_flow::BinOp;
use data_flow::Block;
use data_flow::ParseError;
use data_flow::RValue;
use data_flow::Stmt;

fn s(s: &str) -> String {
    s.to_owned()
}

fn statements(block: &Block) -> Vec<&Stmt> {
    block.stmts().into_iter().map(|(_, stmt)| stmt).collect()
}

#[test]
fn parse_test() {
    let block = "c = a + b
d = c - a";

    let stmts = vec![
        Stmt::Op(s("c"), s("a").into(), BinOp::Add, s("b").into()),
        Stmt::Op(s("d"), s("c").into(), BinOp::Sub, s("a").into()),
    ];

    let parsed = Block::parse(0, block).unwrap();
    assert_eq!(statements(&parsed), stmts.iter().collect::<Vec<&Stmt>>());
}

#[test]
fn literal_follows_the_standard_reader() {
    let inputs = [
        "", "0", "7", "17", "007", "+5", "+", "-5", "++5", "5+", "4294967295", "4294967296",
        "99999999999999999999", "12a", "a12", " 1", "1 ", "1_000", "\u{ff11}\u{ff12}", "\u{0663}",
        "0x10", "+0", "00000000000000000000001",
    ];
    for input in inputs {
        assert_eq!(parse_lit(input), input.parse::<u32>().ok(), "literal {:?}", input);
    }
    assert_eq!(parse_lit("4294967295"), Some(u32::MAX));
    assert_eq!(parse_lit("4294967296"), None);
    assert_eq!(parse_lit("305"), Some(305));
}

#[test]
fn lines_follow_the_standard_splitter() {
    let inputs = [
        "", "a", "a\n", "a\nb", "a\n\nb", "\n", "\n\n", "a\r\nb", "a\r\n", "a\r", "\r", "\r\n",
        "a\rb\nc", "a\r\r\nb", "x = 1\ny = 2\n", "\u{e9}t\u{e9}\n\u{4e2d}\r\n", "a\n\r",
    ];
    for input in inputs {
        let expected: Vec<&str> = input.lines().collect();
        assert_eq!(split_lines(input), expected, "text {:?}", input);
    }
    assert_eq!(split_lines("a\r\n\nb"), vec!["a", "", "b"]);
}

#[test]
fn names_compare_by_their_characters() {
    assert!(str_eq("", ""));
    assert!(str_eq("abc", "abc"));
    assert!(!str_eq("abc", "abd"));
    assert!(!str_eq("abc", "ab"));
    assert!(!str_eq("a", "\u{e9}"));
    assert!(str_eq("\u{e9}", "\u{e9}"));
}

#[test]
fn operand_is_a_literal_or_a_variable() {
    assert_eq!(RValue::parse("17"), RValue::Lit(17));
    assert_eq!(RValue::parse("x1"), RValue::Var(s("x1")));
    assert_eq!(RValue::parse("4294967296"), RValue::Var(s("4294967296")));
    assert_eq!(RValue::parse("1").var(), None);
    assert_eq!(RValue::parse("u1").var(), Some("u1"));
    let from_name: RValue = s("v").into();
    let from_number: RValue = 3u32.into();
    assert_eq!(from_name, RValue::Var(s("v")));
    assert_eq!(from_number, RValue::Lit(3));
}

#[test]
fn operator_is_one_of_three() {
    assert_eq!(BinOp::parse("+"), Ok(BinOp::Add));
    assert_eq!(BinOp::parse("-"), Ok(BinOp::Sub));
    assert_eq!(BinOp::parse("*"), Ok(BinOp::Mul));
    assert_eq!(BinOp::parse("/"), Err(ParseError::InvalidOperator));
    assert_eq!(BinOp::parse(""), Err(ParseError::InvalidOperator));
    assert_eq!(BinOp::parse("++"), Err(ParseError::InvalidOperator));
}

#[test]
fn statement_has_one_of_two_forms() {
    assert_eq!(
        Stmt::parse("i = m-1"),
        Ok(Stmt::Op(s("i"), RValue::Var(s("m")), BinOp::Sub, RValue::Lit(1)))
    );
    assert_eq!(
        Stmt::parse("a=b*c"),
        Ok(Stmt::Op(s("a"), RValue::Var(s("b")), BinOp::Mul, RValue::Var(s("c"))))
    );
    assert_eq!(Stmt::parse("j = n"), Ok(Stmt::Copy(s("j"), RValue::Var(s("n")))));
    assert_eq!(Stmt::parse("k=12"), Ok(Stmt::Copy(s("k"), RValue::Lit(12))));
    assert_eq!(Stmt::parse("a = b / c"), Err(ParseError::InvalidStatementSyntax));
    assert_eq!(Stmt::parse("a  = b"), Err(ParseError::InvalidStatementSyntax));
    assert_eq!(Stmt::parse(" a = b"), Err(ParseError::InvalidStatementSyntax));
    assert_eq!(Stmt::parse("a = b + "), Err(ParseError::InvalidStatementSyntax));
    assert_eq!(Stmt::parse("a + b"), Err(ParseError::InvalidStatementSyntax));
    assert_eq!(Stmt::parse(""), Err(ParseError::InvalidStatementSyntax));
}

#[test]
fn statement_is_built_from_captured_groups() {
    let some = |text: &str| Some(s(text));
    let op = vec![some("c = a + 2"), some("c"), some("a"), some("+"), some("2")];
    assert_eq!(
        Stmt::from_op_captures(&op),
        Ok(Stmt::Op(s("c"), RValue::Var(s("a")), BinOp::Add, RValue::Lit(2)))
    );
    let bad_operator = vec![some("c = a % 2"), some("c"), some("a"), some("%"), some("2")];
    assert_eq!(Stmt::from_op_captures(&bad_operator), Err(ParseError::InvalidOperator));
    let short = vec![some("c = a"), some("c"), some("a")];
    assert_eq!(Stmt::from_op_captures(&short), Err(ParseError::InvalidStatementSyntax));
    let missing = vec![some("c = a + 2"), some("c"), None, some("+"), some("2")];
    assert_eq!(Stmt::from_op_captures(&missing), Err(ParseError::InvalidStatementSyntax));

    let copy = vec![some("d = 9"), some("d"), some("9")];
    assert_eq!(Stmt::from_copy_captures(&copy), Ok(Stmt::Copy(s("d"), RValue::Lit(9))));
    assert_eq!(Stmt::from_copy_captures(&op), Err(ParseError::InvalidStatementSyntax));
    let no_source = vec![some("d = 9"), some("d"), None];
    assert_eq!(Stmt::from_copy_captures(&no_source), Err(ParseError::InvalidStatementSyntax));
}

#[test]
fn patterns_name_their_groups_in_order() {
    let op = regex::Regex::new(OP_PATTERN).unwrap();
    let names: Vec<Option<&str>> = op.capture_names().collect();
    assert_eq!(names, vec![None, Some("dst"), Some("lhs"), Some("op"), Some("rhs")]);
    let copy = regex::Regex::new(COPY_PATTERN).unwrap();
    let names: Vec<Option<&str>> = copy.capture_names().collect();
    assert_eq!(names, vec![None, Some("dst"), Some("src")]);
}

#[test]
fn statement_defines_one_variable_and_uses_only_variables() {
    let op = Stmt::parse("x = y + 2").unwrap();
    assert_eq!(op.def(), Some("x"));
    assert_eq!(op.uses(), vec!["y"]);
    let both = Stmt::parse("x = y * z").unwrap();
    assert_eq!(both.def(), Some("x"));
    assert_eq!(both.uses(), vec!["y", "z"]);
    let twice = Stmt::parse("x = x + x").unwrap();
    assert_eq!(twice.uses(), vec!["x", "x"]);
    let literals = Stmt::parse("x = 1 - 2").unwrap();
    assert_eq!(literals.def(), Some("x"));
    assert!(literals.uses().is_empty());
    let copy = Stmt::parse("a = b").unwrap();
    assert_eq!(copy.def(), Some("a"));
    assert_eq!(copy.uses(), vec!["b"]);
    let constant = Stmt::parse("a = 5").unwrap();
    assert_eq!(constant.def(), Some("a"));
    assert!(constant.uses().is_empty());
}

#[test]
fn block_skips_empty_lines() {
    let block = Block::parse(10, "\na = 1\n\r\n\nb = a\r\n").unwrap();
    assert_eq!(block.len(), 2);
    assert_eq!(block.start(), 10);
    assert!(!block.is_empty());
    let pairs = block.stmts();
    assert_eq!(pairs.len(), 2);
    assert_eq!(pairs[0], (10, &Stmt::Copy(s("a"), RValue::Lit(1))));
    assert_eq!(pairs[1], (11, &Stmt::Copy(s("b"), RValue::Var(s("a")))));
}

#[test]
fn block_fails_with_the_first_bad_line() {
    assert_eq!(Block::parse(0, "a = 1\nnonsense\nb = 2").err(), Some(ParseError::InvalidStatementSyntax));
    assert_eq!(Block::parse(0, "a = 1\n \nb = 2").err(), Some(ParseError::InvalidStatementSyntax));
    assert_eq!(Block::parse(0, "a = b / 2").err(), Some(ParseError::InvalidStatementSyntax));
}

#[test]
fn block_answers_by_global_id() {
    let block = Block::parse(4, "i = i+1\nj = j-1").unwrap();
    assert!(!block.in_range(3));
    assert!(block.in_range(4));
    assert!(block.in_range(5));
    assert!(!block.in_range(6));
    assert_eq!(block.get(3), None);
    assert_eq!(
        block.get(4),
        Some(&Stmt::Op(s("i"), RValue::Var(s("i")), BinOp::Add, RValue::Lit(1)))
    );
    assert_eq!(
        block.get(5),
        Some(&Stmt::Op(s("j"), RValue::Var(s("j")), BinOp::Sub, RValue::Lit(1)))
    );
    assert_eq!(block.get(6), None);
    assert_eq!(block.get(usize::MAX), None);

    let empty = Block::parse(7, "").unwrap();
    assert!(empty.is_empty());
    assert_eq!(empty.len(), 0);
    assert!(!empty.in_range(7));
    assert_eq!(empty.get(7), None);

    let last = Block::new(usize::MAX, vec![Stmt::Copy(s("a"), RValue::Lit(1))]);
    assert!(last.in_range(usize::MAX));
    assert_eq!(last.get(usize::MAX), Some(&Stmt::Copy(s("a"), RValue::Lit(1))));
}
