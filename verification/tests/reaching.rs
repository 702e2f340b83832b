use data_flow::figure_9_13;
use data_flow::Block;
use data_flow::Program;
use data_flow::ReachingDefinitions;
use data_flow::VecSet;

fn sorted(ids: Option<&VecSet<usize>>) -> Vec<usize> {
    let set = ids.unwrap();
    let mut ids = set.to_vec();
    assert_eq!(ids.len(), set.len());
    ids.sort();
    ids.dedup();
    assert_eq!(ids.len(), set.len());
    ids
}

fn two_blocks() -> Program {
    let blocks = vec![Block::parse(0, "x = 1\ny = 2").unwrap(), Block::parse(2, "x = x+y").unwrap()];
    Program::new(blocks, &[(0, 1)]).unwrap()
}

fn tables(analysis: &ReachingDefinitions, n: usize) -> Vec<(Vec<usize>, Vec<usize>)> {
    (0..n).map(|b| (sorted(analysis.in_set(b)), sorted(analysis.out_set(b)))).collect()
}

#[test]
fn reaching_definitions_of_two_blocks() {
    let p = two_blocks();
    let rd = ReachingDefinitions::analyze(&p);
    assert_eq!(sorted(rd.in_set(0)), Vec::<usize>::new());
    assert_eq!(sorted(rd.out_set(0)), vec![0, 1]);
    assert_eq!(sorted(rd.in_set(1)), vec![0, 1]);
    assert_eq!(sorted(rd.out_set(1)), vec![1, 2]);
    assert!(rd.in_set(2).is_none());
    assert!(rd.out_set(2).is_none());
}

#[test]
fn reaching_definitions_start_empty() {
    let p = two_blocks();
    let rd = ReachingDefinitions::new(&p);
    assert_eq!(tables(&rd, 2), vec![(vec![], vec![]), (vec![], vec![])]);
}

#[test]
fn acyclic_graph_needs_one_sweep() {
    let p = two_blocks();
    let mut rd = ReachingDefinitions::new(&p);
    assert!(rd.sweep());
    let after_one = tables(&rd, 2);
    assert!(!rd.sweep());
    assert_eq!(tables(&rd, 2), after_one);
    assert_eq!(after_one, tables(&ReachingDefinitions::analyze(&p), 2));
}

#[test]
fn cyclic_graph_needs_more_sweeps_and_ends() {
    let p = figure_9_13();
    let mut rd = ReachingDefinitions::new(&p);
    assert!(rd.sweep());
    let after_one = tables(&rd, 6);
    assert!(rd.sweep());
    let after_two = tables(&rd, 6);
    assert_ne!(after_one, after_two);
    assert!(!rd.sweep());
    assert_eq!(tables(&rd, 6), after_two);
    for b in 0..6 {
        assert!(after_one[b].0.iter().all(|id| after_two[b].0.contains(id)));
        assert!(after_one[b].1.iter().all(|id| after_two[b].1.contains(id)));
    }
}

#[test]
fn reaching_definitions_of_the_figure() {
    let p = figure_9_13();
    let rd = ReachingDefinitions::analyze(&p);
    let expected: Vec<(Vec<usize>, Vec<usize>)> = vec![
        (vec![], vec![]),
        (vec![], vec![1, 2, 3]),
        (vec![1, 2, 3, 5, 6, 7], vec![3, 4, 5, 6]),
        (vec![3, 4, 5, 6], vec![4, 5, 6]),
        (vec![3, 4, 5, 6], vec![3, 5, 6, 7]),
        (vec![3, 5, 6, 7], vec![3, 5, 6, 7]),
    ];
    assert_eq!(tables(&rd, 6), expected);
}

#[test]
fn reaching_definitions_do_not_depend_on_the_order() {
    let p = figure_9_13();
    let expected = tables(&ReachingDefinitions::analyze(&p), 6);
    let orders: Vec<Vec<usize>> = vec![
        vec![5, 4, 3, 2, 1, 0],
        vec![2, 4, 0, 5, 3, 1],
        vec![4, 4, 2, 2, 1, 0, 3, 5, 9],
        vec![1, 0, 3, 5, 2, 4],
    ];
    for order in orders {
        let mut rd = ReachingDefinitions::new(&p);
        let mut rounds = 0;
        loop {
            let mut changed = false;
            for b in &order {
                changed |= rd.visit(*b);
            }
            rounds += 1;
            if !changed {
                break;
            }
            assert!(rounds < 100);
        }
        assert_eq!(tables(&rd, 6), expected, "order {:?}", order);
        assert!(!rd.sweep());
    }
}

#[test]
fn visit_of_a_missing_block_changes_nothing() {
    let p = two_blocks();
    let mut rd = ReachingDefinitions::new(&p);
    assert!(!rd.visit(2));
    assert!(rd.visit(0));
    assert!(!rd.visit(0));
    assert!(rd.visit(1));
    assert!(!rd.visit(7));
    assert_eq!(tables(&rd, 2), tables(&ReachingDefinitions::analyze(&p), 2));
}

#[test]
fn later_definition_in_a_block_kills_the_earlier() {
    let blocks = vec![
        Block::parse(0, "x = 1\nx = 2\ny = x").unwrap(),
        Block::parse(5, "y = 3\nz = y").unwrap(),
    ];
    let p = Program::new(blocks, &[(0, 1), (1, 1)]).unwrap();
    let rd = ReachingDefinitions::analyze(&p);
    assert_eq!(sorted(rd.out_set(0)), vec![1, 2]);
    assert_eq!(sorted(rd.in_set(1)), vec![1, 2, 5, 6]);
    assert_eq!(sorted(rd.out_set(1)), vec![1, 5, 6]);
}

#[test]
fn reaching_definitions_at_a_statement() {
    let p = figure_9_13();
    let rd = ReachingDefinitions::analyze(&p);
    assert_eq!(sorted(rd.in_at(4).as_ref()), vec![1, 2, 3, 5, 6, 7]);
    assert_eq!(sorted(rd.out_at(4).as_ref()), vec![2, 3, 4, 5, 6]);
    assert_eq!(sorted(rd.in_at(5).as_ref()), vec![2, 3, 4, 5, 6]);
    assert_eq!(sorted(rd.out_at(5).as_ref()), vec![3, 4, 5, 6]);
    assert_eq!(sorted(rd.in_at(1).as_ref()), Vec::<usize>::new());
    assert_eq!(sorted(rd.out_at(1).as_ref()), vec![1]);
    assert_eq!(sorted(rd.out_at(3).as_ref()), vec![1, 2, 3]);
    assert_eq!(sorted(rd.in_at(7).as_ref()), sorted(rd.in_set(4)));
    assert_eq!(sorted(rd.out_at(7).as_ref()), sorted(rd.out_set(4)));
    assert!(rd.in_at(0).is_none());
    assert!(rd.out_at(0).is_none());
    assert!(rd.in_at(8).is_none());
    assert!(rd.out_at(8).is_none());
}

#[test]
fn rounds_are_counted_and_bounded() {
    let p = figure_9_13();
    let mut rd = ReachingDefinitions::new(&p);
    assert_eq!(rd.solve(), 3);
    assert_eq!(rd.solve(), 1);
    assert!(3 <= 2 * 6 * 7 + 1);
    let q = two_blocks();
    let mut rd = ReachingDefinitions::new(&q);
    assert_eq!(rd.solve(), 2);
    let empty = Program::default();
    let mut rd = ReachingDefinitions::new(&empty);
    assert_eq!(rd.solve(), 1);
}

#[test]
fn reaching_definitions_of_an_empty_program() {
    let p = Program::default();
    let mut rd = ReachingDefinitions::new(&p);
    assert!(!rd.sweep());
    assert!(rd.in_set(0).is_none());
    assert!(rd.in_at(0).is_none());
}
