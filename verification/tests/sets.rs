use data_flow::VecSet;

fn sorted(set: &VecSet<usize>) -> Vec<usize> {
    let mut items = set.to_vec();
    items.sort();
    items
}

#[test]
fn set_holds_each_member_once() {
    let mut set: VecSet<usize> = VecSet::new();
    assert_eq!(set.len(), 0);
    assert!(!set.contains(&3));
    assert!(set.insert(3));
    assert!(set.insert(1));
    assert!(!set.insert(3));
    assert_eq!(set.len(), 2);
    assert!(set.contains(&3));
    assert!(set.contains(&1));
    assert!(!set.contains(&2));
    assert_eq!(sorted(&set), vec![1, 3]);
    assert_eq!(set.items().len(), 2);
    assert!(set.remove(&3));
    assert!(!set.remove(&3));
    assert!(!set.contains(&3));
    assert_eq!(sorted(&set), vec![1]);
}

#[test]
fn set_union_adds_what_is_missing() {
    let mut left: VecSet<usize> = VecSet::new();
    left.insert(1);
    left.insert(2);
    let mut right: VecSet<usize> = VecSet::new();
    right.insert(2);
    right.insert(5);
    left.union_with(&right);
    assert_eq!(sorted(&left), vec![1, 2, 5]);
    assert_eq!(sorted(&right), vec![2, 5]);
    let copy = left.dup();
    left.remove(&1);
    assert_eq!(sorted(&copy), vec![1, 2, 5]);
    assert_eq!(sorted(&left), vec![2, 5]);
}

#[test]
fn set_of_names_compares_by_characters() {
    let mut set: VecSet<String> = VecSet::new();
    assert!(set.insert("x".to_owned()));
    assert!(!set.insert(String::from("x")));
    assert!(set.insert("xy".to_owned()));
    assert!(set.contains(&"xy".to_owned()));
    assert!(!set.contains(&"y".to_owned()));
    assert!(set.remove(&"x".to_owned()));
    assert_eq!(set.to_vec(), vec!["xy".to_owned()]);
}
