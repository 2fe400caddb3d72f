use ph::world::{binary_search, Triggers};

#[test]
fn binary_search_finds_present_ids() {
    let v = vec![1, 3, 5, 7, 9];
    assert_eq!(binary_search(&v, 1), Ok(0));
    assert_eq!(binary_search(&v, 7), Ok(3));
    assert_eq!(binary_search(&v, 9), Ok(4));
}

#[test]
fn binary_search_gives_insertion_points() {
    let v = vec![1, 3, 5, 7, 9];
    assert_eq!(binary_search(&v, 0), Err(0));
    assert_eq!(binary_search(&v, 4), Err(2));
    assert_eq!(binary_search(&v, 10), Err(5));
    assert_eq!(binary_search(&Vec::new(), 3), Err(0));
}

#[test]
fn add_trigger_appends_and_marks_used() {
    let mut t = Triggers::default();
    assert!(!t.used);
    t.add_trigger(4);
    t.add_trigger(2);
    assert!(t.used);
    assert_eq!(t.triggered, vec![4, 2]);
}

#[test]
fn merge_keeps_a_sorted_list_sorted_without_repeats() {
    let mut a = Triggers { used: false, triggered: vec![2, 5, 9] };
    let b = Triggers { used: true, triggered: vec![9, 1, 5, 7] };
    a.merge(&b);
    assert!(a.used);
    assert_eq!(a.triggered, vec![1, 2, 5, 7, 9]);
}

#[test]
fn merge_into_empty_sorts() {
    let mut a = Triggers::default();
    let b = Triggers { used: true, triggered: vec![8, 3, 3, 6] };
    a.merge(&b);
    assert_eq!(a.triggered, vec![3, 6, 8]);
}

#[test]
fn merge_of_nothing_only_marks_used() {
    let mut a = Triggers { used: false, triggered: vec![4] };
    a.merge(&Triggers::default());
    assert!(a.used);
    assert_eq!(a.triggered, vec![4]);
}

#[test]
fn iter_yields_ids_in_order() {
    let t = Triggers { used: true, triggered: vec![3, 1, 4] };
    let got: Vec<usize> = t.iter().cloned().collect();
    assert_eq!(got, vec![3, 1, 4]);
}

#[test]
fn clear_forgets_everything() {
    let mut t = Triggers { used: true, triggered: vec![3, 1, 4] };
    t.clear();
    assert!(!t.used);
    assert!(t.triggered.is_empty());
}
