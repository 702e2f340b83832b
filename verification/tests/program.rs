use data_flow::figure_9_13;
use data_flow::BinOp;
use data_flow::Block;
use data_flow::BlockID;
use data_flow::Program;
use data_flow::ProgramError;
use data_flow::RValue;
use data_flow::Stmt;

fn block(start: usize, text: &str) -> Block {
    Block::parse(start, text).unwrap()
}

fn ids(neighbors: Vec<(BlockID, &Block)>) -> Vec<BlockID> {
    let mut out: Vec<BlockID> = neighbors.into_iter().map(|(id, _)| id).collect();
    out.sort();
    out
}

#[test]
fn program_rejects_an_edge_out_of_range() {
    let r = Program::new(vec![block(0, "a = 1"), block(1, "b = a")], &[(0, 1), (1, 2)]);
    assert_eq!(r.err(), Some(ProgramError::EdgeOutOfRange));
    let r = Program::new(vec![block(0, "a = 1")], &[(5, 0)]);
    assert_eq!(r.err(), Some(ProgramError::EdgeOutOfRange));
    let r = Program::new(Vec::new(), &[(0, 0)]);
    assert_eq!(r.err(), Some(ProgramError::EdgeOutOfRange));
}

#[test]
fn program_rejects_overlapping_ids() {
    let r = Program::new(vec![block(0, "a = 1\nb = 2"), block(1, "c = 3")], &[]);
    assert_eq!(r.err(), Some(ProgramError::StmtIdsOverlap));
    let r = Program::new(vec![block(5, "a = 1"), block(0, "c = 3")], &[]);
    assert_eq!(r.err(), Some(ProgramError::StmtIdsOverlap));
    let r = Program::new(vec![block(usize::MAX, "a = 1")], &[]);
    assert_eq!(r.err(), Some(ProgramError::StmtIdsOverlap));
    let r = Program::new(vec![block(0, "a = 1\nb = 2"), block(1, "c = 3")], &[(0, 9)]);
    assert_eq!(r.err(), Some(ProgramError::StmtIdsOverlap));
}

#[test]
fn program_accepts_gaps_and_empty_blocks() {
    let p = Program::new(
        vec![block(0, ""), block(10, "a = 1"), block(3, ""), block(20, "b = a"), block(20, "")],
        &[(0, 1), (1, 3), (3, 4)],
    )
    .unwrap();
    assert_eq!(p.len(), 5);
    assert!(!p.is_empty());
    assert_eq!(p.get_stmt(10), Some(&Stmt::Copy("a".to_owned(), RValue::Lit(1))));
    assert_eq!(p.get_stmt(20), Some(&Stmt::Copy("b".to_owned(), RValue::Var("a".to_owned()))));
    assert_eq!(p.get_stmt(0), None);
    assert_eq!(p.get_stmt(3), None);
    assert_eq!(p.get_stmt(11), None);
    assert_eq!(p.get_stmt(21), None);
}

#[test]
fn program_lists_neighbors_once() {
    let p = Program::new(
        vec![block(0, "a = 1"), block(1, "b = a"), block(2, "c = b"), block(3, "d = c")],
        &[(0, 1), (0, 2), (1, 2), (0, 1), (2, 2), (2, 0), (1, 2)],
    )
    .unwrap();
    assert_eq!(ids(p.successors(0)), vec![1, 2]);
    assert_eq!(ids(p.successors(1)), vec![2]);
    assert_eq!(ids(p.successors(2)), vec![0, 2]);
    assert_eq!(ids(p.successors(3)), Vec::<usize>::new());
    assert_eq!(ids(p.predecessors(0)), vec![2]);
    assert_eq!(ids(p.predecessors(1)), vec![0]);
    assert_eq!(ids(p.predecessors(2)), vec![0, 1, 2]);
    assert_eq!(ids(p.predecessors(3)), Vec::<usize>::new());
    assert_eq!(ids(p.predecessors(17)), Vec::<usize>::new());
    assert_eq!(ids(p.successors(17)), Vec::<usize>::new());
    for (id, found) in p.predecessors(2) {
        assert_eq!(found.start(), p.get_block(id).unwrap().start());
        assert_eq!(found.start(), id);
    }
}

#[test]
fn neighbors_come_in_the_order_of_their_edges() {
    let p = Program::new(
        vec![block(0, "a = 1"), block(1, "b = a"), block(2, "c = b"), block(3, "d = c")],
        &[(3, 0), (2, 0), (0, 3), (0, 0), (1, 0), (2, 0), (0, 1), (0, 3)],
    )
    .unwrap();
    let order = |neighbors: Vec<(BlockID, &Block)>| -> Vec<BlockID> {
        neighbors.into_iter().map(|(id, _)| id).collect()
    };
    assert_eq!(order(p.predecessors(0)), vec![3, 2, 0, 1]);
    assert_eq!(order(p.successors(0)), vec![3, 0, 1]);
    assert_eq!(order(p.successors(2)), vec![0]);
    assert_eq!(order(p.predecessors(3)), vec![0]);
}

#[test]
fn program_answers_queries() {
    let p = figure_9_13();
    assert_eq!(p.len(), 6);
    assert_eq!(p.blocks().len(), 6);
    let starts: Vec<usize> = p.blocks().iter().map(|b| b.start()).collect();
    assert_eq!(starts, vec![0, 1, 4, 6, 7, 7]);
    let lens: Vec<usize> = p.blocks().iter().map(|b| b.len()).collect();
    assert_eq!(lens, vec![0, 3, 2, 1, 1, 0]);
    assert_eq!(p.get_block(2).unwrap().len(), 2);
    assert!(p.get_block(6).is_none());
    let all = p.stmts();
    let all_ids: Vec<usize> = all.iter().map(|(id, _)| *id).collect();
    assert_eq!(all_ids, vec![1, 2, 3, 4, 5, 6, 7]);
    for (id, stmt) in all {
        assert_eq!(p.get_stmt(id), Some(stmt));
    }
    assert_eq!(p.get_stmt(0), None);
    assert_eq!(p.get_stmt(8), None);
    assert_eq!(
        p.get_stmt(4),
        Some(&Stmt::Op("i".to_owned(), RValue::Var("i".to_owned()), BinOp::Add, RValue::Lit(1)))
    );
    assert_eq!(ids(p.successors(2)), vec![3, 4]);
    assert_eq!(ids(p.predecessors(2)), vec![1, 4]);
    assert_eq!(ids(p.successors(4)), vec![2, 5]);
    assert_eq!(ids(p.predecessors(4)), vec![2, 3]);
    assert_eq!(ids(p.predecessors(0)), Vec::<usize>::new());
    assert_eq!(ids(p.successors(5)), Vec::<usize>::new());
}

#[test]
fn figure_is_what_its_text_reads_as() {
    let blocks = vec![
        block(0, ""),
        block(
            1,
            "i = m-1
j = n
a = u1",
        ),
        block(
            4,
            "i = i+1
j = j-1",
        ),
        block(6, "a = u2"),
        block(7, "i = u3"),
        block(7, ""),
    ];
    let edges = &[(0, 1), (1, 2), (2, 3), (2, 4), (3, 4), (4, 2), (4, 5)];
    let read = Program::new(blocks, edges).unwrap();
    let built = figure_9_13();
    assert_eq!(read.len(), built.len());
    assert_eq!(read.stmts(), built.stmts());
    for b in 0..read.len() {
        assert_eq!(read.get_block(b).unwrap().start(), built.get_block(b).unwrap().start());
        assert_eq!(read.get_block(b).unwrap().len(), built.get_block(b).unwrap().len());
        assert_eq!(ids(read.successors(b)), ids(built.successors(b)));
        assert_eq!(ids(read.predecessors(b)), ids(built.predecessors(b)));
    }
}

#[test]
fn default_program_is_empty() {
    let p = Program::default();
    assert!(p.is_empty());
    assert_eq!(p.len(), 0);
    assert!(p.blocks().is_empty());
    assert!(p.stmts().is_empty());
    assert!(p.get_block(0).is_none());
    assert_eq!(p.get_stmt(0), None);
    assert!(p.successors(0).is_empty());
    assert!(p.predecessors(0).is_empty());
}
