use ph::ddvt::{
    add_uncontained_to_leaf, index_in_uncontained, remove_uncontained_from_leaf, VolumeIds,
    MAX_LEAF_VOLUME, MIN_LEAF_VOLUME,
};

fn ids(contained: &[usize], uncontained: &[usize]) -> VolumeIds {
    VolumeIds {
        contained: contained.to_vec(),
        contained_triggers: Vec::new(),
        uncontained: uncontained.to_vec(),
        uncontained_triggers: Vec::new(),
    }
}

#[test]
fn index_finds_the_last_occurrence() {
    let v = vec![4, 7, 4, 9];
    assert_eq!(index_in_uncontained(4, &v), 2);
    assert_eq!(index_in_uncontained(7, &v), 1);
    assert_eq!(index_in_uncontained(9, &v), 3);
}

#[test]
fn index_of_a_missing_id_is_max() {
    assert_eq!(index_in_uncontained(5, &vec![1, 2, 3]), usize::MAX);
    assert_eq!(index_in_uncontained(5, &Vec::new()), usize::MAX);
}

#[test]
fn remove_swaps_the_last_element_in() {
    let mut v = vec![10, 20, 30, 40];
    remove_uncontained_from_leaf(20, &mut v);
    assert_eq!(v, vec![10, 40, 30]);
    remove_uncontained_from_leaf(30, &mut v);
    assert_eq!(v, vec![10, 40]);
}

#[test]
fn remove_of_a_missing_id_changes_nothing() {
    let mut v = vec![1, 2, 3];
    remove_uncontained_from_leaf(9, &mut v);
    assert_eq!(v, vec![1, 2, 3]);
}

#[test]
fn remove_takes_out_one_occurrence() {
    let mut v = vec![5, 6, 5, 7];
    remove_uncontained_from_leaf(5, &mut v);
    assert_eq!(v, vec![5, 6, 7]);
}

#[test]
fn remove_undoes_add() {
    let mut v = vec![3, 1, 2];
    add_uncontained_to_leaf(8, &mut v);
    assert_eq!(v, vec![3, 1, 2, 8]);
    remove_uncontained_from_leaf(8, &mut v);
    assert_eq!(v, vec![3, 1, 2]);
}

#[test]
fn len_counts_all_four_lists() {
    let v = VolumeIds {
        contained: vec![1, 2],
        contained_triggers: vec![3],
        uncontained: vec![4, 5, 6],
        uncontained_triggers: vec![7],
    };
    assert_eq!(v.len(), 7);
}

#[test]
fn joinable_compares_the_total_with_the_minimum() {
    let small = ids(&[1, 2], &[3]);
    let empty = VolumeIds::default();
    assert!(VolumeIds::joinable((&small, &empty, &empty, &empty)));
    let big = ids(&(0..MIN_LEAF_VOLUME).collect::<Vec<usize>>(), &[]);
    assert!(VolumeIds::joinable((&big, &empty, &empty, &empty)));
    let bigger = ids(&(0..MIN_LEAF_VOLUME + 1).collect::<Vec<usize>>(), &[]);
    assert!(!VolumeIds::joinable((&bigger, &empty, &empty, &empty)));
    assert!(!VolumeIds::joinable((&big, &small, &empty, &empty)));
    assert!(MIN_LEAF_VOLUME < MAX_LEAF_VOLUME);
}

#[test]
fn split_moves_contained_ids_to_their_homes() {
    let mut parent = ids(&[0, 1, 2, 3], &[4]);
    let mut children = (
        VolumeIds::default(),
        VolumeIds::default(),
        VolumeIds::default(),
        VolumeIds::default(),
    );
    // particle 0 fits child 0, particle 1 child 3, particles 2 and 3 fit none
    let homes = vec![Some(0), Some(3), None, None, None];
    // 2 overlaps children 0 and 1, 3 overlaps child 2, 4 overlaps children 1 and 3
    let overlaps = vec![
        (true, false, false, false),
        (false, false, false, true),
        (true, true, false, false),
        (false, false, true, false),
        (false, true, false, true),
    ];
    let spread = parent.split_children(&mut children, &homes, &overlaps);
    assert_eq!(parent.contained, vec![2, 3]);
    assert!(parent.uncontained.is_empty());
    assert_eq!(spread, vec![2, 3, 4]);
    assert_eq!(children.0.contained, vec![0]);
    assert_eq!(children.3.contained, vec![1]);
    assert!(children.1.contained.is_empty());
    assert_eq!(children.0.uncontained, vec![2]);
    assert_eq!(children.1.uncontained, vec![2, 4]);
    assert_eq!(children.2.uncontained, vec![3]);
    assert_eq!(children.3.uncontained, vec![4]);
}

#[test]
fn join_folds_children_back() {
    let mut parent = ids(&[2, 3], &[]);
    let c0 = ids(&[0], &[2]);
    let c1 = ids(&[], &[2, 4]);
    let c2 = ids(&[], &[3]);
    let c3 = ids(&[1], &[4]);
    let marked = parent.join_children((&c0, &c1, &c2, &c3));
    assert_eq!(marked, vec![2, 2, 3]);
    assert_eq!(parent.uncontained, vec![4]);
    assert_eq!(parent.contained, vec![2, 3, 0, 1]);
}

#[test]
fn volume_join_undoes_split() {
    let mut parent = VolumeIds {
        contained: vec![0, 1, 2, 3],
        contained_triggers: vec![5],
        uncontained: vec![4],
        uncontained_triggers: vec![6],
    };
    let mut children = (
        VolumeIds::default(),
        VolumeIds::default(),
        VolumeIds::default(),
        VolumeIds::default(),
    );
    let homes = vec![Some(0), Some(3), None, None, None, Some(2), None];
    let overlaps = vec![
        (true, false, false, false),
        (false, false, false, true),
        (true, true, false, false),
        (false, false, true, false),
        (false, true, false, true),
        (false, false, true, false),
        (true, true, true, true),
    ];
    parent.split_children(&mut children, &homes, &overlaps);
    parent.join_children((&children.0, &children.1, &children.2, &children.3));
    let mut contained = parent.contained.clone();
    contained.sort();
    assert_eq!(contained, vec![0, 1, 2, 3]);
    assert_eq!(parent.uncontained, vec![4]);
    assert_eq!(parent.contained_triggers, vec![5]);
    assert_eq!(parent.uncontained_triggers, vec![6]);
}
