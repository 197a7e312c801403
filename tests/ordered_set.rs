use qi_rust::ordered_set::OrderedSet;

#[test]
fn ordered_set() {
    let mut x = OrderedSet::new();

    let added = x.add(&1);
    assert_eq!(added, true);

    let not_added = x.add(&1);
    assert_eq!(not_added, false);

    let idx = x.index(&1);
    assert_eq!(idx.unwrap(), 0);

    let not_exist = x.index(&2);
    assert_eq!(not_exist.is_none(), true)
}

#[test]
fn add_reports_new_once_per_distinct_value() {
    let mut x: OrderedSet<String> = OrderedSet::new();
    let adds = ["b", "a", "b", "c", "a", "a", "d"];
    let mut reported = Vec::new();
    for a in adds.iter() {
        reported.push(x.add(&a.to_string()));
    }
    assert_eq!(reported, vec![true, true, false, true, false, false, true]);
    assert_eq!(x.len(), 4);
    assert_eq!(x.index(&"b".to_string()), Some(0));
    assert_eq!(x.index(&"a".to_string()), Some(1));
    assert_eq!(x.index(&"c".to_string()), Some(2));
    assert_eq!(x.index(&"d".to_string()), Some(3));
    assert_eq!(x.index(&"e".to_string()), None);
    assert!(x.contains(&"c".to_string()));
    assert!(!x.contains(&"z".to_string()));
    assert_eq!(x.get(2), &"c".to_string());
    assert_eq!(
        x.into_vec(),
        vec!["b".to_string(), "a".to_string(), "c".to_string(), "d".to_string()]
    );
}

#[test]
fn index_of_first_insertion_is_kept() {
    let mut x: OrderedSet<u64> = OrderedSet::new();
    assert!(x.add(&7));
    assert_eq!(x.index(&7), Some(0));
    assert!(x.add(&3));
    assert!(!x.add(&7));
    assert!(x.add(&9));
    assert_eq!(x.index(&7), Some(0));
    assert_eq!(x.index(&3), Some(1));
    assert_eq!(x.index(&9), Some(2));
}

#[test]
fn empty_set_holds_nothing() {
    let x: OrderedSet<usize> = OrderedSet::new();
    assert_eq!(x.len(), 0);
    assert_eq!(x.index(&0), None);
    assert!(x.into_vec().is_empty());
}

#[test]
fn copy_is_independent() {
    let mut x: OrderedSet<i64> = OrderedSet::new();
    x.add(&4);
    x.add(&-2);
    let mut y = x.duplicate();
    assert!(y.add(&10));
    assert_eq!(x.len(), 2);
    assert_eq!(x.index(&10), None);
    assert_eq!(y.into_vec(), vec![4, -2, 10]);
    assert_eq!(x.into_vec(), vec![4, -2]);
}

#[test]
fn add_each_reports_like_single_adds() {
    let mut x: OrderedSet<u32> = OrderedSet::new();
    let reported = x.add_each(&vec![5, 1, 5, 2, 1]);
    assert_eq!(reported, vec![true, true, false, true, false]);
    assert_eq!(x.index(&2), Some(2));
    assert_eq!(x.index(&9), None);
}
