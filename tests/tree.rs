use libbst::{BSTNodeCursor, BinarySearchTree, CursorError, Node, NodeCursor, NotFound};

fn tree_of(values: &[i32]) -> BinarySearchTree {
    let mut t = BinarySearchTree::new();
    for v in values {
        t.insert(*v);
    }
    t
}

fn prefix_string(t: &BinarySearchTree) -> String {
    t.prefix_text().iter().collect()
}

#[test]
fn scenario_seven_values() {
    let mut t = tree_of(&[7, 5, 9, 4, 6, 8, 10]);
    assert_eq!(prefix_string(&t), "7[5[4[**]6[**]]9[8[**]10[**]]]");
    assert_eq!(t.inline_order(), vec![4, 5, 6, 7, 8, 9, 10]);
    assert_eq!(t.length(), 7);

    let mut c = t.cursor();
    let mut root_cursor = c.clone();
    c.find(&t, 10);
    assert_eq!(c.data(&t), Some(10));
    assert_eq!(c.insert(&mut t, 1), Ok(()));
    assert_eq!(prefix_string(&t), "7[5[4[**]6[**]]9[8[**]10[1[**]*]]]");
    assert_eq!(t.inline_order(), vec![4, 5, 6, 7, 8, 9, 1, 10]);
    c.left(&t);
    assert_eq!(c.data(&t), Some(1));
    c.parent(&t);
    assert_eq!(c.data(&t), Some(10));

    root_cursor.find(&t, 11);
    assert_eq!(root_cursor.data(&t), None);
    assert_eq!(t.length(), 7);
}

#[test]
fn inorder_is_sorted_with_duplicates_first() {
    let values = [3, 1, 3, -2, 8, 3, 0, 8];
    let t = tree_of(&values);
    let got = t.inline_order();
    let mut want = values.to_vec();
    want.sort();
    assert_eq!(got, want);
    // The newest 3 sits left of the older ones: it is the left child of the
    // 3 inserted just before it.
    assert_eq!(prefix_string(&t), "3[1[-2[*0[**]]3[3[**]*]]8[8[**]*]]");
}

#[test]
fn increasing_inserts_make_a_right_spine() {
    let t = tree_of(&[1, 2, 3]);
    assert_eq!(prefix_string(&t), "1[*2[*3[**]]]");
}

#[test]
fn length_counts_inserts() {
    let mut t = BinarySearchTree::new();
    assert_eq!(t.length(), 0);
    for k in 0..50 {
        t.insert(k % 3);
        assert_eq!(t.length(), (k + 1) as u64);
    }
    assert_eq!(t.inline_order().len(), 50);
}

#[test]
fn first_insert_sets_root() {
    let mut t = BinarySearchTree::new();
    assert!(t.is_empty());
    assert_eq!(t.root(), None);
    t.insert(42);
    assert!(!t.is_empty());
    assert_eq!(t.root(), Some(0));
    assert_eq!(
        t.resolve(0),
        Some(Node { data: 42, left: None, right: None, parent: None })
    );
}

#[test]
fn empty_tree_cursor_is_unbound() {
    let t = BinarySearchTree::new();
    let mut c = t.cursor();
    assert_eq!(c.data(&t), None);
    c.parent(&t);
    assert_eq!(c.data(&t), None);
    c.left(&t);
    assert_eq!(c.data(&t), None);
    c.right(&t);
    assert_eq!(c.data(&t), None);
    c.find(&t, 3);
    assert_eq!(c.data(&t), None);
    assert_eq!(c, t.cursor());
    assert_eq!(prefix_string(&t), "*");
    assert_eq!(t.inline_order(), Vec::<i32>::new());
}

#[test]
fn find_own_value_stays_put() {
    let t = tree_of(&[7, 5, 9]);
    let mut c = t.cursor();
    let before = c;
    c.find(&t, 7);
    assert_eq!(c, before);
    assert_eq!(c.data(&t), Some(7));
}

#[test]
fn find_absent_value_unbinds() {
    let t = tree_of(&[7, 5, 9]);
    let mut c = t.cursor();
    c.find(&t, 6);
    assert_eq!(c.data(&t), None);
    c.right(&t);
    assert_eq!(c.data(&t), None);
}

#[test]
fn find_goes_downward_only() {
    let t = tree_of(&[7, 5, 9]);
    let mut c = t.cursor();
    c.left(&t);
    assert_eq!(c.data(&t), Some(5));
    c.find(&t, 9);
    assert_eq!(c.data(&t), None);
}

#[test]
fn cloned_cursor_moves_alone() {
    let t = tree_of(&[7, 5, 9]);
    let c = t.cursor();
    let mut d = c.clone();
    d.right(&t);
    assert_eq!(d.data(&t), Some(9));
    assert_eq!(c.data(&t), Some(7));
}

#[test]
fn navigation_follows_links() {
    let t = tree_of(&[7, 5, 9, 6]);
    let mut c = t.cursor();
    c.parent(&t);
    assert_eq!(c.data(&t), None);
    let mut c = t.cursor();
    c.left(&t);
    c.right(&t);
    assert_eq!(c.data(&t), Some(6));
    c.right(&t);
    assert_eq!(c.data(&t), None);
    let mut c = t.cursor();
    c.left(&t);
    c.right(&t);
    c.parent(&t);
    c.parent(&t);
    assert_eq!(c.data(&t), Some(7));
}

#[test]
fn left_child_records_parent() {
    let t = tree_of(&[7, 5]);
    let n = t.resolve(1).unwrap();
    assert_eq!(n.data, 5);
    assert_eq!(n.parent, Some(0));
    assert_eq!(t.resolve(0).unwrap().left, Some(1));
    assert_eq!(t.resolve(2), None);
}

#[test]
fn unbound_cursor_insert_fails() {
    let mut t = tree_of(&[7]);
    let mut c = t.cursor();
    c.left(&t);
    assert_eq!(c.insert(&mut t, 3), Err(CursorError::Unbound));
    assert_eq!(t.inline_order(), vec![7]);
}

#[test]
fn stale_cursor_insert_fails() {
    let big = tree_of(&[7, 5, 9]);
    let mut c: BSTNodeCursor = big.cursor();
    c.right(&big);
    let mut small = tree_of(&[1]);
    assert_eq!(c.data(&small), None);
    assert_eq!(c.insert(&mut small, 3), Err(CursorError::Stale));
    assert_eq!(small.inline_order(), vec![1]);
    c.parent(&small);
    assert_eq!(c.data(&big), None);
}

#[test]
fn find_from_reports_missing_value() {
    let t = tree_of(&[7, 5, 9, 8]);
    assert_eq!(t.find_from(0, 8), Ok(3));
    assert_eq!(t.find_from(0, 4), Err(NotFound { value: 4 }));
    assert_eq!(t.find_from(2, 5), Err(NotFound { value: 5 }));
}

#[test]
fn negative_and_extreme_values_render() {
    let t = tree_of(&[0, i32::MIN, i32::MAX, -15]);
    assert_eq!(
        prefix_string(&t),
        "0[-2147483648[*-15[**]]2147483647[**]]"
    );
    assert_eq!(t.inline_order(), vec![i32::MIN, -15, 0, i32::MAX]);
}

#[test]
fn cursor_insert_below_inner_node() {
    let mut t = tree_of(&[7, 5, 9]);
    let mut c = t.cursor();
    c.left(&t);
    assert_eq!(c.insert(&mut t, 20), Ok(()));
    assert_eq!(prefix_string(&t), "7[5[*20[**]]9[**]]");
    let mut r = t.cursor();
    r.find(&t, 20);
    assert_eq!(r.data(&t), None);
}
