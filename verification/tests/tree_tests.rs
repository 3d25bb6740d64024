use pfds::bst;
use pfds::tree::complete;
use pfds::tree::complete_size;
use pfds::tree::Tree;

#[test]
fn tree_tree_test() {
    let tree = Tree::empty().insert(1).insert(3).insert(0).insert(1);
    println!("{:?}", &tree);
    assert_eq!(tree.member(0), true);
    assert_eq!(tree.member(1), true);
    assert_eq!(tree.member(2), false);
    assert_eq!(tree.member(3), true);
}

#[test]
fn section2_2_tree_test() {
    let tree: bst::Tree = bst::Tree::empty().insert(0).insert(1);
    assert_eq!(tree.member(0), true);
    assert_eq!(tree.member(1), true);
    assert_eq!(tree.member(2), false);
}

#[test]
fn complete_test() {
    let tree = complete(1, 2);
    println!("{:?}", &tree);
    let tree_complete = complete_size(1, 9);
    println!("{:?}", &tree_complete);
}

fn count(tree: &Tree) -> u32 {
    match tree {
        Tree::Empty => 0,
        Tree::Node { ltree, rtree, .. } => 1 + count(ltree) + count(rtree),
    }
}

fn assert_balanced_split(tree: &Tree) {
    match tree {
        Tree::Empty => {}
        Tree::Node { ltree, rtree, .. } => {
            let l = count(ltree);
            let r = count(rtree);
            assert_eq!(l, (l + r) / 2);
            assert_balanced_split(ltree);
            assert_balanced_split(rtree);
        }
    }
}

#[test]
fn complete_size_balanced_split() {
    for size in 0u32..=12 {
        let tree = complete_size(1, size);
        assert_eq!(count(&tree), size);
        assert_balanced_split(&tree);
    }
    let tree = complete_size(7, 6);
    if let Tree::Node { ltree, rtree, .. } = &tree {
        assert_eq!(count(ltree), 2);
        assert_eq!(count(rtree), 3);
    } else {
        panic!("expected a node");
    }
}

#[test]
fn tree_duplicate_insert_is_noop() {
    let tree = Tree::empty().insert(7).insert(2).insert(9);
    let again = tree.insert(2);
    assert_eq!(again.member(2), true);
    assert_eq!(again.member(7), true);
    assert_eq!(again.member(9), true);
    assert_eq!(again.member(5), false);

    let simple = bst::Tree::empty().insert(7).insert(2).insert(9);
    let simple_again = simple.insert(2);
    assert_eq!(simple_again.member(2), true);
    assert_eq!(simple_again.member(7), true);
    assert_eq!(simple_again.member(9), true);
    assert_eq!(simple_again.member(5), false);
}

#[test]
fn tree_empty_membership() {
    let tree = Tree::empty();
    assert_eq!(tree.member(0), false);
    assert_eq!(tree.member(-5), false);
    let simple = bst::Tree::empty();
    assert_eq!(simple.member(0), false);
}

#[test]
fn tree_membership_round_trip() {
    let values = [5i64, -3, 12, 0, 5, 8];
    let mut tree = Tree::empty();
    for v in values {
        tree = tree.insert(v);
    }
    for v in values {
        assert!(tree.member(v));
    }
    for absent in [1i64, -4, 100, 7] {
        assert!(!tree.member(absent));
    }
}
