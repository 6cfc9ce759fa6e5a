use ropes::node::{Inode, Lnode, Node, NodeAction};
use ropes::slice::RopeSlice;

fn leaf(buf: usize, off: usize, len: usize) -> Node {
    Node::Leaf(Lnode { buf, off, len })
}

fn inner(weight: usize, left: Option<Node>, right: Option<Node>) -> Node {
    Node::Inner(Inode { weight, left: left.map(Box::new), right: right.map(Box::new) })
}

#[test]
fn constructors_build_what_they_are_given() {
    assert_eq!(Node::empty_inner(), inner(0, None, None));
    assert_eq!(Node::new_leaf(2, 3, 4), leaf(2, 3, 4));
    assert_eq!(
        Node::new_inner(Some(Box::new(leaf(0, 0, 2))), None, 2),
        inner(2, Some(leaf(0, 0, 2)), None)
    );
}

#[test]
fn len_is_weight_plus_right_length() {
    assert_eq!(Node::empty_inner().len(), 0);
    assert_eq!(leaf(0, 5, 7).len(), 7);
    let tree = inner(
        5,
        Some(inner(2, Some(leaf(0, 0, 2)), Some(leaf(1, 0, 3)))),
        Some(inner(4, Some(leaf(2, 0, 4)), Some(leaf(3, 0, 6)))),
    );
    assert_eq!(tree.len(), 15);
}

#[test]
fn leaf_insert_at_start_puts_new_node_left() {
    let mut l = Lnode { buf: 0, off: 0, len: 5 };
    let res = l.insert(Box::new(leaf(1, 0, 3)), 0);
    assert_eq!(
        res,
        NodeAction::ReplaceWith(Box::new(inner(3, Some(leaf(1, 0, 3)), Some(leaf(0, 0, 5)))), 3)
    );
    assert_eq!(l, Lnode { buf: 0, off: 0, len: 5 });
}

#[test]
fn leaf_insert_at_end_puts_new_node_right() {
    let mut l = Lnode { buf: 0, off: 2, len: 5 };
    let res = l.insert(Box::new(leaf(1, 0, 3)), 5);
    assert_eq!(
        res,
        NodeAction::ReplaceWith(Box::new(inner(5, Some(leaf(0, 2, 5)), Some(leaf(1, 0, 3)))), 3)
    );
}

#[test]
fn leaf_insert_in_middle_splits_the_leaf() {
    let mut l = Lnode { buf: 0, off: 2, len: 5 };
    let res = l.insert(Box::new(leaf(1, 0, 3)), 2);
    let expected = inner(
        5,
        Some(inner(2, Some(leaf(0, 2, 2)), Some(leaf(1, 0, 3)))),
        Some(leaf(0, 4, 3)),
    );
    assert_eq!(res, NodeAction::ReplaceWith(Box::new(expected), 3));
}

#[test]
fn leaf_remove_whole_asks_removal() {
    let mut l = Lnode { buf: 0, off: 1, len: 4 };
    assert_eq!(l.remove(0, 4), NodeAction::RemoveSelf);
    assert_eq!(l, Lnode { buf: 0, off: 1, len: 4 });
    assert_eq!(l.remove(0, 9), NodeAction::RemoveSelf);
    assert!(NodeAction::RemoveSelf.asks_removal());
    assert!(!NodeAction::AdjustLength(-1).asks_removal());
}

#[test]
fn leaf_remove_prefix_advances_offset() {
    let mut l = Lnode { buf: 0, off: 1, len: 4 };
    assert_eq!(l.remove(0, 3), NodeAction::AdjustLength(-3));
    assert_eq!(l, Lnode { buf: 0, off: 4, len: 1 });
}

#[test]
fn leaf_remove_suffix_truncates() {
    let mut l = Lnode { buf: 0, off: 1, len: 4 };
    assert_eq!(l.remove(1, 4), NodeAction::AdjustLength(-3));
    assert_eq!(l, Lnode { buf: 0, off: 1, len: 1 });
    let mut l = Lnode { buf: 0, off: 1, len: 4 };
    assert_eq!(l.remove(2, 100), NodeAction::AdjustLength(-2));
    assert_eq!(l, Lnode { buf: 0, off: 1, len: 2 });
}

#[test]
fn leaf_remove_at_end_changes_nothing() {
    let mut l = Lnode { buf: 0, off: 1, len: 4 };
    assert_eq!(l.remove(4, 6), NodeAction::AdjustLength(0));
    assert_eq!(l, Lnode { buf: 0, off: 1, len: 4 });
}

#[test]
fn leaf_remove_middle_splits() {
    let mut l = Lnode { buf: 3, off: 10, len: 8 };
    let res = l.remove(2, 5);
    let expected = inner(2, Some(leaf(3, 10, 2)), Some(leaf(3, 15, 3)));
    assert_eq!(res, NodeAction::ReplaceWith(Box::new(expected), -3));
}

#[test]
fn inner_insert_into_empty_sets_left() {
    let mut n = Node::empty_inner();
    let res = n.insert(Box::new(leaf(0, 0, 4)), 0);
    assert_eq!(res, NodeAction::AdjustLength(4));
    assert_eq!(n, inner(4, Some(leaf(0, 0, 4)), None));
}

#[test]
fn inner_insert_on_the_weight_goes_left() {
    let mut n = inner(3, Some(leaf(0, 0, 3)), Some(leaf(1, 0, 2)));
    let res = n.insert(Box::new(leaf(2, 0, 4)), 3);
    assert_eq!(res, NodeAction::AdjustLength(4));
    let expected = inner(
        7,
        Some(inner(3, Some(leaf(0, 0, 3)), Some(leaf(2, 0, 4)))),
        Some(leaf(1, 0, 2)),
    );
    assert_eq!(n, expected);
}

#[test]
fn inner_insert_beyond_the_weight_goes_right() {
    let mut n = inner(3, Some(leaf(0, 0, 3)), Some(leaf(1, 0, 2)));
    let res = n.insert(Box::new(leaf(2, 0, 4)), 4);
    assert_eq!(res, NodeAction::AdjustLength(4));
    let expected = inner(
        3,
        Some(leaf(0, 0, 3)),
        Some(inner(
            5,
            Some(inner(1, Some(leaf(1, 0, 1)), Some(leaf(2, 0, 4)))),
            Some(leaf(1, 1, 1)),
        )),
    );
    assert_eq!(n, expected);
    assert_eq!(n.len(), 9);
}

#[test]
fn inner_insert_at_end_without_right_child_goes_left() {
    let mut n = inner(3, Some(leaf(0, 0, 3)), None);
    let res = n.insert(Box::new(leaf(1, 0, 2)), 3);
    assert_eq!(res, NodeAction::AdjustLength(2));
    assert_eq!(n, inner(5, Some(inner(3, Some(leaf(0, 0, 3)), Some(leaf(1, 0, 2)))), None));
}

#[test]
fn inner_remove_everything_asks_removal() {
    let mut n = inner(3, Some(leaf(0, 0, 3)), Some(leaf(1, 0, 2)));
    assert_eq!(n.remove(0, 5), NodeAction::RemoveSelf);
    assert_eq!(n, inner(3, Some(leaf(0, 0, 3)), Some(leaf(1, 0, 2))));
    let mut n = inner(3, Some(leaf(0, 0, 3)), None);
    assert_eq!(n.remove(0, 3), NodeAction::RemoveSelf);
    let mut n = inner(0, None, Some(leaf(0, 0, 3)));
    assert_eq!(n.remove(0, 3), NodeAction::RemoveSelf);
}

#[test]
fn inner_remove_left_child_leaves_right() {
    let mut n = inner(3, Some(leaf(0, 0, 3)), Some(leaf(1, 0, 2)));
    assert_eq!(n.remove(0, 3), NodeAction::ReplaceWith(Box::new(leaf(1, 0, 2)), -3));
}

#[test]
fn inner_remove_left_child_and_part_of_right() {
    let mut n = inner(3, Some(leaf(0, 0, 3)), Some(leaf(1, 0, 4)));
    // The change of length counts what went from the survivor too.
    assert_eq!(n.remove(0, 5), NodeAction::ReplaceWith(Box::new(leaf(1, 2, 2)), -5));
}

#[test]
fn inner_remove_right_child_leaves_left() {
    let mut n = inner(3, Some(leaf(0, 0, 3)), Some(leaf(1, 0, 2)));
    assert_eq!(n.remove(3, 5), NodeAction::ReplaceWith(Box::new(leaf(0, 0, 3)), -2));
    let mut n = inner(3, Some(leaf(0, 0, 3)), Some(leaf(1, 0, 2)));
    assert_eq!(n.remove(1, 5), NodeAction::ReplaceWith(Box::new(leaf(0, 0, 1)), -4));
}

#[test]
fn inner_remove_within_one_side_adjusts() {
    let mut n = inner(3, Some(leaf(0, 0, 3)), Some(leaf(1, 0, 2)));
    assert_eq!(n.remove(1, 3), NodeAction::AdjustLength(-2));
    assert_eq!(n, inner(1, Some(leaf(0, 0, 1)), Some(leaf(1, 0, 2))));

    let mut n = inner(3, Some(leaf(0, 0, 3)), Some(leaf(1, 0, 2)));
    assert_eq!(n.remove(4, 5), NodeAction::AdjustLength(-1));
    assert_eq!(n, inner(3, Some(leaf(0, 0, 3)), Some(leaf(1, 0, 1))));
}

#[test]
fn inner_remove_across_the_weight_adjusts_both_sides() {
    let mut n = inner(3, Some(leaf(0, 0, 3)), Some(leaf(1, 0, 4)));
    assert_eq!(n.remove(2, 5), NodeAction::AdjustLength(-3));
    assert_eq!(n, inner(2, Some(leaf(0, 0, 2)), Some(leaf(1, 2, 2))));
}

#[test]
fn inner_remove_takes_replacement_of_a_child() {
    let mut n = inner(6, Some(leaf(0, 0, 6)), Some(leaf(1, 0, 2)));
    assert_eq!(n.remove(2, 4), NodeAction::AdjustLength(-2));
    let expected = inner(
        4,
        Some(inner(2, Some(leaf(0, 0, 2)), Some(leaf(0, 4, 2)))),
        Some(leaf(1, 0, 2)),
    );
    assert_eq!(n, expected);
}

#[test]
fn find_slice_collects_the_range() {
    let storage: Vec<Vec<u8>> = vec![b"Hello".to_vec(), b" ".to_vec(), b"world!".to_vec()];
    let tree = inner(
        6,
        Some(inner(5, Some(leaf(0, 0, 5)), Some(leaf(1, 0, 1)))),
        Some(leaf(2, 0, 6)),
    );
    let mut slice = RopeSlice::empty(&storage);
    tree.find_slice(3, 9, &mut slice);
    assert_eq!(slice.len(), 6);
    assert_eq!(slice.to_bytes(), b"lo wor".to_vec());

    let mut slice = RopeSlice::empty(&storage);
    tree.find_slice(0, 100, &mut slice);
    assert_eq!(slice.to_bytes(), b"Hello world!".to_vec());

    let mut slice = RopeSlice::empty(&storage);
    tree.find_slice(6, 7, &mut slice);
    assert_eq!(slice.to_bytes(), b"w".to_vec());
}

#[test]
fn push_leaf_continues_a_view() {
    let storage: Vec<Vec<u8>> = vec![b"abcdef".to_vec(), b"uvwxyz".to_vec()];
    let first = Lnode { buf: 0, off: 1, len: 4 };
    let second = Lnode { buf: 1, off: 2, len: 3 };
    let mut slice = RopeSlice::empty(&storage);
    slice.push_leaf(&first, 2, 10);
    assert_eq!(slice.to_bytes(), b"de".to_vec());
    slice.push_leaf(&second, 0, 2);
    assert_eq!(slice.to_bytes(), b"dewx".to_vec());
    assert_eq!(slice.len(), 4);
}

#[test]
fn node_replace_writes_across_leaves() {
    let mut storage: Vec<Vec<u8>> = vec![b"Hello".to_vec(), b" ".to_vec(), b"world!".to_vec()];
    let tree = inner(
        6,
        Some(inner(5, Some(leaf(0, 0, 5)), Some(leaf(1, 0, 1)))),
        Some(leaf(2, 0, 6)),
    );
    tree.replace(3, b"LO_WO", &mut storage);
    assert_eq!(storage, vec![b"HelLO".to_vec(), b"_".to_vec(), b"WOrld!".to_vec()]);
    let mut out = Vec::new();
    tree.append_to(&storage, &mut out);
    assert_eq!(out, b"HelLO_WOrld!".to_vec());
}

#[test]
fn leaf_replace_touches_only_its_range() {
    let mut storage: Vec<Vec<u8>> = vec![b"0123456789".to_vec()];
    let l = Lnode { buf: 0, off: 2, len: 5 };
    l.replace(1, b"ab", &mut storage);
    assert_eq!(storage, vec![b"012ab56789".to_vec()]);
    let mut out = b">".to_vec();
    l.append_to(&storage, &mut out);
    assert_eq!(out, b">2ab56".to_vec());
}
