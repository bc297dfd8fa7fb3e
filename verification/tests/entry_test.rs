use splay_tree::Node;
use splay_tree::SplayTree;

fn build_tree(buf: &[u64]) -> SplayTree<u64> {
    let mut tree = SplayTree::new();

    for i in buf.iter().cloned() {
        tree.insert(i, i);

        assert!(tree.root().is_some());
        if let Some(root) = tree.root() {
            assert_eq!(*root.value(), i);
        }
    }

    assert_eq!(tree.len(), buf.len());
    check_structure(&tree);

    tree
}

fn check_structure(tree: &SplayTree<u64>) {
    if let Some(root) = tree.root() {
        assert!(root.parent().is_none());
        let length = check_node(root, 0);
        assert_eq!(length, tree.len());
    }
}

fn check_node(node: &Node<u64>, mut length: usize) -> usize {
    length += 1;

    if let Some(left) = node.left() {
        assert!(left.key() < node.key());
        assert_eq!(left.parent(), Some(node.key()));
        length = check_node(left, length);
    }

    if let Some(right) = node.right() {
        assert!(right.key() > node.key());
        assert_eq!(right.parent(), Some(node.key()));
        length = check_node(right, length);
    }

    length
}

#[test]
fn or_insert_test() {
    let elems = [13, 4, 3, 89, 12, 11];
    let mut tree = SplayTree::<u64>::new();
    for i in elems {
        let node = tree.entry(i).or_insert(&mut tree, i);
        assert_eq!(node.key(), i);
    }
    check_structure(&tree);

    let node = tree.entry(89).or_insert(&mut tree, 11);
    assert_eq!(node.key(), 89);
    check_structure(&tree);
}

#[test]
fn or_insert_with_test() {
    let elems = [9065, 1234, 432, 90, 11, 4, 2, 3, 0];
    let mut tree = SplayTree::<u64>::new();
    for i in elems {
        let node = tree.entry(i).or_insert_with(&mut tree, || i);
        assert_eq!(node.key(), i);
    }
    check_structure(&tree);

    let node = tree.entry(432).or_insert_with(&mut tree, || 15);
    assert_eq!(node.key(), 432);
    check_structure(&tree);
}

#[test]
fn or_insert_with_key_test() {
    let elems = [111, 234, 12, 90, 0, 1, 2, 4, 56];
    let mut tree = SplayTree::<u64>::new();
    for i in elems {
        let node = tree.entry(i).or_insert_with_key(&mut tree, |k| k * 2);
        assert_eq!(node.key(), i);
        assert_eq!(*node.value(), i * 2);
    }
    check_structure(&tree);

    let node = tree.entry(0).or_insert_with_key(&mut tree, |k| k + 2);
    assert_eq!(node.key(), 0);
    assert_eq!(*node.value(), 0);
    check_structure(&tree);
}

#[test]
fn and_modify_test() {
    let elems = [134, 45, 91, 34, 21, 27];
    let mut tree = build_tree(&elems);
    for i in elems {
        let node = tree.entry(i).and_modify(&mut tree, |x| *x + 2).or_insert(&mut tree, 2);
        assert_eq!(*node.value(), i + 2);
    }
    check_structure(&tree);

    let node = tree.entry(666).and_modify(&mut tree, |x| *x * 2).or_insert(&mut tree, 1);
    assert_eq!(*node.value(), 1);
    check_structure(&tree);
}

#[test]
fn insert_test() {
    let elems = [56, 89, 11, 14, 90];
    let mut tree = build_tree(&elems);
    for i in elems {
        let node = tree.entry(i).insert(&mut tree, i * 2 + 2);
        assert_eq!(node.key(), i);
        assert_eq!(*node.value(), i * 2 + 2);
    }
    check_structure(&tree);

    let node = tree.entry(777).insert(&mut tree, 888);
    assert_eq!(*node.value(), 888);
    check_structure(&tree);
}

#[test]
fn or_default_test() {
    let elems = [1114, 11, 1111, 34, 65, 72, 89, 91];
    let mut tree = SplayTree::<u64>::new();
    for i in elems {
        let node = tree.entry(i).or_default(&mut tree);
        assert_eq!(*node.value(), 0);
    }
    check_structure(&tree);

    tree.insert(1234, 56);
    let node = tree.entry(1234).or_default(&mut tree);
    assert_eq!(*node.value(), 56);
    check_structure(&tree);
}

#[test]
fn key_test() {
    let elems = [1234, 543, 877, 777777, 99981];
    let mut tree = SplayTree::<u64>::new();
    for i in elems {
        tree.insert(i, i);
        assert_eq!(tree.entry(i).key(), i);
    }
    assert_eq!(tree.entry(3333).key(), 3333);
}
