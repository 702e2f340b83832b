use data_flow::figure_9_13;
use data_flow::Block;
use data_flow::LiveVariables;
use data_flow::Program;
use data_flow::VecSet;

fn sorted(names: Option<&VecSet<String>>) -> Vec<String> {
    let set = names.unwrap();
    let mut names = set.to_vec();
    assert_eq!(names.len(), set.len());
    names.sort();
    names.dedup();
    assert_eq!(names.len(), set.len());
    names
}

fn names(list: &[&str]) -> Vec<String> {
    list.iter().map(|name| name.to_string()).collect()
}

fn tables(analysis: &LiveVariables, n: usize) -> Vec<(Vec<String>, Vec<String>)> {
    (0..n).map(|b| (sorted(analysis.in_set(b)), sorted(analysis.out_set(b)))).collect()
}

fn two_blocks() -> Program {
    let blocks = vec![Block::parse(0, "x = 1\ny = 2").unwrap(), Block::parse(2, "z = x+y").unwrap()];
    Program::new(blocks, &[(0, 1)]).unwrap()
}

fn looping(first: &str, second: &str) -> Program {
    let blocks = vec![Block::parse(0, first).unwrap(), Block::parse(1, second).unwrap()];
    Program::new(blocks, &[(0, 1), (1, 0)]).unwrap()
}

#[test]
fn live_variables_of_two_blocks() {
    let p = two_blocks();
    let lv = LiveVariables::analyze(&p);
    assert_eq!(sorted(lv.out_set(1)), names(&[]));
    assert_eq!(sorted(lv.in_set(1)), names(&["x", "y"]));
    assert_eq!(sorted(lv.out_set(0)), names(&["x", "y"]));
    assert_eq!(sorted(lv.in_set(0)), names(&[]));
    assert!(lv.in_set(2).is_none());
    assert!(lv.out_set(2).is_none());
}

#[test]
fn live_variables_of_a_loop_settle_in_two_sweeps() {
    let p = looping("x = 1", "y = x+1");
    let mut lv = LiveVariables::new(&p);
    assert!(lv.sweep());
    let after_one = tables(&lv, 2);
    let changed = lv.sweep();
    let after_two = tables(&lv, 2);
    assert!(!lv.sweep());
    assert_eq!(tables(&lv, 2), after_two);
    assert_eq!(changed, after_one != after_two);
    for b in 0..2 {
        assert!(after_one[b].0.iter().all(|name| after_two[b].0.contains(name)));
        assert!(after_one[b].1.iter().all(|name| after_two[b].1.contains(name)));
    }
    assert_eq!(after_two, vec![(names(&[]), names(&["x"])), (names(&["x"]), names(&[]))]);
    assert_eq!(after_two, tables(&LiveVariables::analyze(&p), 2));
}

#[test]
fn live_variables_flow_around_the_back_edge() {
    let p = looping("x = y", "y = x+1");
    let mut lv = LiveVariables::new(&p);
    assert!(lv.sweep());
    let after_one = tables(&lv, 2);
    assert_eq!(after_one, vec![(names(&["y"]), names(&["x"])), (names(&["x"]), names(&[]))]);
    assert!(lv.sweep());
    let after_two = tables(&lv, 2);
    assert_eq!(after_two, vec![(names(&["y"]), names(&["x"])), (names(&["x"]), names(&["y"]))]);
    assert!(!lv.sweep());
    assert_eq!(tables(&lv, 2), after_two);
    for b in 0..2 {
        assert!(after_one[b].0.iter().all(|name| after_two[b].0.contains(name)));
        assert!(after_one[b].1.iter().all(|name| after_two[b].1.contains(name)));
    }
    assert_eq!(after_two, tables(&LiveVariables::analyze(&p), 2));
}

#[test]
fn variable_defined_and_used_again_in_a_block() {
    let blocks = vec![
        Block::parse(0, "a = b\nb = a+c\nd = b").unwrap(),
        Block::parse(3, "e = d+a").unwrap(),
    ];
    let p = Program::new(blocks, &[(0, 1)]).unwrap();
    let lv = LiveVariables::analyze(&p);
    assert_eq!(sorted(lv.in_set(1)), names(&["a", "d"]));
    assert_eq!(sorted(lv.out_set(0)), names(&["a", "d"]));
    assert_eq!(sorted(lv.in_set(0)), names(&["b", "c"]));
    assert_eq!(sorted(lv.out_at(0).as_ref()), names(&["a", "c"]));
    assert_eq!(sorted(lv.in_at(1).as_ref()), names(&["a", "c"]));
    assert_eq!(sorted(lv.out_at(1).as_ref()), names(&["a", "b"]));
    assert_eq!(sorted(lv.in_at(2).as_ref()), names(&["a", "b"]));
    assert_eq!(sorted(lv.out_at(2).as_ref()), names(&["a", "d"]));
    assert_eq!(sorted(lv.in_at(0).as_ref()), sorted(lv.in_set(0)));
    assert_eq!(sorted(lv.in_at(3).as_ref()), names(&["a", "d"]));
    assert_eq!(sorted(lv.out_at(3).as_ref()), names(&[]));
    assert!(lv.in_at(4).is_none());
    assert!(lv.out_at(4).is_none());
}

#[test]
fn live_variables_of_the_figure() {
    let p = figure_9_13();
    let lv = LiveVariables::analyze(&p);
    let expected = vec![
        (names(&["m", "n", "u1", "u2", "u3"]), names(&["m", "n", "u1", "u2", "u3"])),
        (names(&["m", "n", "u1", "u2", "u3"]), names(&["i", "j", "u2", "u3"])),
        (names(&["i", "j", "u2", "u3"]), names(&["j", "u2", "u3"])),
        (names(&["j", "u2", "u3"]), names(&["j", "u2", "u3"])),
        (names(&["j", "u2", "u3"]), names(&["i", "j", "u2", "u3"])),
        (names(&[]), names(&[])),
    ];
    assert_eq!(tables(&lv, 6), expected);
}

#[test]
fn live_variables_do_not_depend_on_the_order() {
    let p = figure_9_13();
    let expected = tables(&LiveVariables::analyze(&p), 6);
    let orders: Vec<Vec<usize>> =
        vec![vec![0, 1, 2, 3, 4, 5], vec![2, 4, 0, 5, 3, 1], vec![3, 3, 1, 0, 2, 4, 5, 6]];
    for order in orders {
        let mut lv = LiveVariables::new(&p);
        let mut rounds = 0;
        loop {
            let mut changed = false;
            for b in &order {
                changed |= lv.visit(*b);
            }
            rounds += 1;
            if !changed {
                break;
            }
            assert!(rounds < 100);
        }
        assert_eq!(tables(&lv, 6), expected, "order {:?}", order);
        assert!(!lv.sweep());
    }
}

#[test]
fn live_rounds_are_counted() {
    let p = looping("x = y", "y = x+1");
    let mut lv = LiveVariables::new(&p);
    assert_eq!(lv.solve(), 3);
    assert_eq!(lv.solve(), 1);
    let q = two_blocks();
    let mut lv = LiveVariables::new(&q);
    assert_eq!(lv.solve(), 2);
}

#[test]
fn live_variables_start_empty() {
    let p = two_blocks();
    let mut lv = LiveVariables::new(&p);
    assert_eq!(tables(&lv, 2), vec![(names(&[]), names(&[])), (names(&[]), names(&[]))]);
    assert!(!lv.visit(2));
    assert!(lv.visit(1));
    assert_eq!(sorted(lv.in_set(1)), names(&["x", "y"]));
    assert_eq!(sorted(lv.out_set(0)), names(&[]));
}
