use ph::quad_tree::{Iter, QuadTree};

fn four(a: i32, b: i32, c: i32, d: i32) -> Option<Box<(QuadTree<i32>, QuadTree<i32>, QuadTree<i32>, QuadTree<i32>)>> {
    Some(Box::new((
        QuadTree::<i32>::new(a),
        QuadTree::<i32>::new(b),
        QuadTree::<i32>::new(c),
        QuadTree::<i32>::new(d),
    )))
}

fn shallow_tree() -> QuadTree<i32> {
    QuadTree::<i32> { value: 0, children: four(1, 2, 3, 4) }
}

fn deeper_tree() -> QuadTree<i32> {
    QuadTree::<i32> {
        value: 0,
        children: Some(Box::new((
            QuadTree::<i32>::new(1),
            QuadTree::<i32> { value: 2, children: four(5, 6, 7, 8) },
            QuadTree::<i32>::new(3),
            QuadTree::<i32>::new(4),
        ))),
    }
}

#[test]
fn test_quad_tree_pointer_iter() {
    {
        let tree = QuadTree::<i32>::new(0);
        let mut iter = Iter::<i32>::new(&tree);
        assert_eq!(iter.next().unwrap().value, 0);
        assert_eq!(iter.next().is_none(), true);
    }
    let tree = shallow_tree();
    {
        let mut iter = Iter::<i32>::new(&tree);
        assert_eq!(iter.next().unwrap().value, 1);
        assert_eq!(iter.next().unwrap().value, 2);
        assert_eq!(iter.next().unwrap().value, 3);
        assert_eq!(iter.next().unwrap().value, 4);
        assert_eq!(iter.next().unwrap().value, 0);
        assert_eq!(iter.next().is_none(), true);
    }
}

#[test]
fn test_deeper_quad_tree_pointer_iter() {
    let tree = deeper_tree();
    {
        let mut iter = Iter::<i32>::new(&tree);
        assert_eq!(iter.next().unwrap().value, 1);
        assert_eq!(iter.next().unwrap().value, 5);
        assert_eq!(iter.next().unwrap().value, 6);
        assert_eq!(iter.next().unwrap().value, 7);
        assert_eq!(iter.next().unwrap().value, 8);
        assert_eq!(iter.next().unwrap().value, 2);
        assert_eq!(iter.next().unwrap().value, 3);
        assert_eq!(iter.next().unwrap().value, 4);
        assert_eq!(iter.next().unwrap().value, 0);
        assert_eq!(iter.next().is_none(), true);
    }
}

#[test]
fn test_deeper_quad_tree_pointer_next_back() {
    {
        let tree = QuadTree::<i32>::new(0);
        let mut iter = Iter::<i32>::new(&tree);
        assert_eq!(iter.next_back().unwrap().value, 0);
        assert_eq!(iter.next_back().is_none(), true);
    }
    let tree = deeper_tree();
    {
        let mut iter = Iter::<i32>::new(&tree);
        assert_eq!(iter.next_back().unwrap().value, 0);
        assert_eq!(iter.next_back().unwrap().value, 4);
        assert_eq!(iter.next_back().unwrap().value, 3);
        assert_eq!(iter.next_back().unwrap().value, 2);
        assert_eq!(iter.next_back().unwrap().value, 8);
        assert_eq!(iter.next_back().unwrap().value, 7);
        assert_eq!(iter.next_back().unwrap().value, 6);
        assert_eq!(iter.next_back().unwrap().value, 5);
        assert_eq!(iter.next_back().unwrap().value, 1);
        assert_eq!(iter.next_back().is_none(), true);
    }
}

#[test]
fn test_quad_tree_iter() {
    let tree = shallow_tree();
    {
        let mut iter = tree.iter();
        assert_eq!(iter.next().unwrap().value, 1);
        assert_eq!(iter.next().unwrap().value, 2);
        assert_eq!(iter.next().unwrap().value, 3);
        assert_eq!(iter.next().unwrap().value, 4);
        assert_eq!(iter.next().unwrap().value, 0);
        assert_eq!(iter.next().is_none(), true);
    }
}

#[test]
fn test_deeper_quad_tree_iter() {
    let tree = deeper_tree();
    {
        let mut iter = tree.iter();
        assert_eq!(iter.next().unwrap().value, 1);
        assert_eq!(iter.next().unwrap().value, 5);
        assert_eq!(iter.next().unwrap().value, 6);
        assert_eq!(iter.next().unwrap().value, 7);
        assert_eq!(iter.next().unwrap().value, 8);
        assert_eq!(iter.next().unwrap().value, 2);
        assert_eq!(iter.next().unwrap().value, 3);
        assert_eq!(iter.next().unwrap().value, 4);
        assert_eq!(iter.next().unwrap().value, 0);
        assert_eq!(iter.next().is_none(), true);
    }
}

#[test]
fn test_quad_tree_next_back() {
    let tree = shallow_tree();
    {
        let mut iter = tree.iter();
        assert_eq!(iter.next_back().unwrap().value, 0);
        assert_eq!(iter.next_back().unwrap().value, 4);
        assert_eq!(iter.next_back().unwrap().value, 3);
        assert_eq!(iter.next_back().unwrap().value, 2);
        assert_eq!(iter.next_back().unwrap().value, 1);
        assert_eq!(iter.next_back().is_none(), true);
    }
}

#[test]
fn test_deeper_quad_tree_next_back() {
    let tree = deeper_tree();
    {
        let mut iter = tree.iter();
        assert_eq!(iter.next_back().unwrap().value, 0);
        assert_eq!(iter.next_back().unwrap().value, 4);
        assert_eq!(iter.next_back().unwrap().value, 3);
        assert_eq!(iter.next_back().unwrap().value, 2);
        assert_eq!(iter.next_back().unwrap().value, 8);
        assert_eq!(iter.next_back().unwrap().value, 7);
        assert_eq!(iter.next_back().unwrap().value, 6);
        assert_eq!(iter.next_back().unwrap().value, 5);
        assert_eq!(iter.next_back().unwrap().value, 1);
        assert_eq!(iter.next_back().is_none(), true);
    }
}

#[test]
fn test_quad_tree_split() {
    let mut tree = QuadTree::<i32>::new(8);
    tree.split();
    let mut iter = tree.iter();
    assert_eq!(iter.next().unwrap().value, 2);
    assert_eq!(iter.next().unwrap().value, 2);
    assert_eq!(iter.next().unwrap().value, 2);
    assert_eq!(iter.next().unwrap().value, 2);
    assert_eq!(iter.next().unwrap().value, 0);
    assert_eq!(iter.next().is_none(), true);
}

#[test]
fn test_quad_tree_join() {
    let mut tree = shallow_tree();
    tree.join();
    let mut iter = tree.iter();
    assert_eq!(iter.next().unwrap().value, 10);
    assert_eq!(iter.next().is_none(), true);
}

#[test]
fn test_quad_tree_split_with() {
    let mut tree = QuadTree::<i32>::new(8);
    tree.split_with(&mut 0i32);
    let mut iter = tree.iter();
    assert_eq!(iter.next().unwrap().value, 2);
    assert_eq!(iter.next().unwrap().value, 2);
    assert_eq!(iter.next().unwrap().value, 2);
    assert_eq!(iter.next().unwrap().value, 2);
    assert_eq!(iter.next().unwrap().value, 0);
    assert_eq!(iter.next().is_none(), true);
}

#[test]
fn test_quad_tree_join_with() {
    let mut tree = shallow_tree();
    tree.join_with(&mut 0i32);
    let mut iter = tree.iter();
    assert_eq!(iter.next().unwrap().value, 10);
    assert_eq!(iter.next().is_none(), true);
}

#[test]
fn new_is_a_leaf() {
    let tree = QuadTree::<i32>::new(3);
    assert!(tree.is_leaf());
    assert_eq!(tree.value, 3);
    assert!(!shallow_tree().is_leaf());
}

#[test]
fn split_hands_the_remainder_to_the_first_child() {
    let mut tree = QuadTree::<i32>::new(11);
    tree.split();
    let values: Vec<i32> = {
        let mut iter = tree.iter();
        let mut out = Vec::new();
        while let Some(node) = iter.next() {
            out.push(node.value);
        }
        out
    };
    assert_eq!(values, vec![5, 2, 2, 2, 0]);
}

#[test]
fn split_of_a_negative_value_truncates_toward_zero() {
    let mut tree = QuadTree::<i32>::new(-11);
    tree.split();
    let mut iter = tree.iter();
    assert_eq!(iter.next().unwrap().value, -5);
    assert_eq!(iter.next().unwrap().value, -2);
    assert_eq!(iter.next().unwrap().value, -2);
    assert_eq!(iter.next().unwrap().value, -2);
    assert_eq!(iter.next().unwrap().value, 0);
}

#[test]
fn join_undoes_split() {
    for v in [0, 1, 7, 8, 11, -11, 1000003, i32::MAX, i32::MIN] {
        let mut tree = QuadTree::<i32>::new(v);
        tree.split();
        tree.join();
        assert!(tree.is_leaf());
        assert_eq!(tree.value, v);
    }
}

#[test]
fn join_of_a_leaf_keeps_its_value() {
    let mut tree = QuadTree::<i32>::new(5);
    tree.join();
    assert_eq!(tree.value, 5);
    assert!(tree.is_leaf());
}

#[test]
fn both_ends_walk_the_whole_tree_independently() {
    let tree = deeper_tree();
    let mut iter = tree.iter();
    let mut front = Vec::new();
    while let Some(node) = iter.next() {
        front.push(node.value);
    }
    let mut back = Vec::new();
    while let Some(node) = iter.next_back() {
        back.push(node.value);
    }
    back.reverse();
    assert_eq!(front, back);
    assert_eq!(front.len(), 9);
}

#[test]
fn split_then_iterate_deeper() {
    let mut tree = shallow_tree();
    if let Some(children) = tree.children.as_mut() {
        children.3.split();
    }
    let mut iter = tree.iter();
    let mut out = Vec::new();
    while let Some(node) = iter.next() {
        out.push(node.value);
    }
    assert_eq!(out, vec![1, 2, 3, 1, 1, 1, 1, 0, 0]);
}
