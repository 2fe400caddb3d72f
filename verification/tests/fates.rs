use ph::ddvt::{fate_of, first_containing, retain_out_of_date, Fate};

#[test]
fn fate_follows_the_box_tests() {
    assert_eq!(fate_of(false, true, true), Fate::Leaves);
    assert_eq!(fate_of(false, false, false), Fate::Leaves);
    assert_eq!(fate_of(true, true, true), Fate::Deeper);
    assert_eq!(fate_of(true, false, true), Fate::Stays);
    assert_eq!(fate_of(true, true, false), Fate::Stays);
}

#[test]
fn retain_sorts_ids_by_fate_keeping_order() {
    let fate = vec![Fate::Stays, Fate::Leaves, Fate::Deeper, Fate::Leaves, Fate::Stays, Fate::Deeper];
    let mut ids = vec![5, 1, 0, 2, 3, 4];
    let (leaving, deeper) = retain_out_of_date(&mut ids, &fate);
    assert_eq!(ids, vec![0, 4]);
    assert_eq!(leaving, vec![1, 3]);
    assert_eq!(deeper, vec![5, 2]);
}

#[test]
fn retain_on_an_empty_list() {
    let fate = vec![Fate::Leaves];
    let mut ids: Vec<usize> = Vec::new();
    let (leaving, deeper) = retain_out_of_date(&mut ids, &fate);
    assert!(ids.is_empty() && leaving.is_empty() && deeper.is_empty());
}

#[test]
fn retain_parts_hold_every_id_once() {
    let fate = vec![Fate::Deeper, Fate::Stays, Fate::Leaves, Fate::Stays];
    let before = vec![3, 2, 1, 0, 2];
    let mut ids = before.clone();
    let (leaving, deeper) = retain_out_of_date(&mut ids, &fate);
    let mut all: Vec<usize> = ids.iter().chain(leaving.iter()).chain(deeper.iter()).cloned().collect();
    all.sort();
    let mut sorted_before = before.clone();
    sorted_before.sort();
    assert_eq!(all, sorted_before);
}

#[test]
fn first_containing_ancestor() {
    assert_eq!(first_containing(&vec![false, true, true]), Some(1));
    assert_eq!(first_containing(&vec![true]), Some(0));
    assert_eq!(first_containing(&vec![false, false]), None);
    assert_eq!(first_containing(&Vec::new()), None);
}
