use splay_tree::Node;
use splay_tree::SplayTree;

fn filled(keys: &[u64]) -> SplayTree<u64> {
    let mut tree = SplayTree::new();
    for k in keys.iter().cloned() {
        tree.insert(k, k);
    }
    tree
}

fn shape_of(node: Option<&Node<u64>>) -> String {
    match node {
        None => String::from("-"),
        Some(n) => {
            if n.left().is_none() && n.right().is_none() {
                format!("{}", n.key())
            } else {
                format!("{}({} {})", n.key(), shape_of(n.left()), shape_of(n.right()))
            }
        },
    }
}

fn backrefs_ok(node: &Node<u64>) -> bool {
    let mut ok = true;
    if let Some(left) = node.left() {
        ok = ok && left.parent() == Some(node.key()) && backrefs_ok(left);
    }
    if let Some(right) = node.right() {
        ok = ok && right.parent() == Some(node.key()) && backrefs_ok(right);
    }
    ok
}

#[test]
fn splay_zig_left() {
    // the access finds key 5 directly below the root, so one right rotation
    // at the root finishes the splay
    let mut tree = filled(&[3, 6, 12, 5, 10]);
    assert_eq!(shape_of(tree.root()), "10(5(3 6) 12)");
    let node = tree.get(5).unwrap();
    assert_eq!(node.key(), 5);
    assert_eq!(shape_of(tree.root()), "5(3 10(6 12))");
    assert!(backrefs_ok(tree.root().unwrap()));
}

#[test]
fn splay_zig_right() {
    // key 20 sits directly below the root on the right: one left rotation
    let mut tree = filled(&[5, 15, 20, 30, 10]);
    assert_eq!(shape_of(tree.root()), "10(5 20(15 30))");
    let node = tree.get(20).unwrap();
    assert_eq!(node.key(), 20);
    assert_eq!(shape_of(tree.root()), "20(10(5 15) 30)");
    assert!(backrefs_ok(tree.root().unwrap()));
}

#[test]
fn splay_zig_zig_left() {
    // key 13 and its parent 15 are both left children: the splay rotates the
    // grandparent 20, then the parent 15, rightward twice
    let mut tree = filled(&[12, 14, 15, 30, 16, 13, 20]);
    assert_eq!(shape_of(tree.root()), "20(15(13(12 14) 16) 30)");
    let node = tree.get(13).unwrap();
    assert_eq!(node.key(), 13);
    assert_eq!(shape_of(tree.root()), "13(12 15(14 20(16 30)))");
    assert!(backrefs_ok(tree.root().unwrap()));
}

#[test]
fn splay_zig_zig_right() {
    // key 20 and its parent 15 are both right children: the splay rotates the
    // grandparent 13, then the parent 15, leftward twice
    let mut tree = filled(&[12, 14, 16, 20, 30, 15, 13]);
    assert_eq!(shape_of(tree.root()), "13(12 15(14 20(16 30)))");
    let node = tree.get(20).unwrap();
    assert_eq!(node.key(), 20);
    assert_eq!(shape_of(tree.root()), "20(15(13(12 14) 16) 30)");
    assert!(backrefs_ok(tree.root().unwrap()));
}

#[test]
fn splay_zig_zag_left() {
    // key 45 is a left child of a right child: the splay rotates the parent
    // 50 rightward, then the former grandparent 40 leftward
    let mut tree = filled(&[30, 44, 45, 46, 50, 60, 40]);
    assert_eq!(shape_of(tree.root()), "40(30 50(45(44 46) 60))");
    let node = tree.get(45).unwrap();
    assert_eq!(node.key(), 45);
    assert_eq!(shape_of(tree.root()), "45(40(30 44) 50(46 60))");
    assert!(backrefs_ok(tree.root().unwrap()));
}

#[test]
fn splay_zig_zag_right() {
    // key 35 is a right child of a left child: the splay rotates the parent
    // 30 leftward, then the former grandparent 40 rightward
    let mut tree = filled(&[20, 36, 50, 35, 34, 30, 40]);
    assert_eq!(shape_of(tree.root()), "40(30(20 35(34 36)) 50)");
    let node = tree.get(35).unwrap();
    assert_eq!(node.key(), 35);
    assert_eq!(shape_of(tree.root()), "35(30(20 34) 40(36 50))");
    assert!(backrefs_ok(tree.root().unwrap()));
}

#[test]
fn round_trip_test() {
    let mut tree = SplayTree::new();
    tree.insert(41, 1000);
    assert_eq!(tree.get(41).map(|n| *n.value()), Some(1000));
    let removed = tree.remove(41).unwrap();
    assert_eq!(removed.key(), 41);
    assert_eq!(*removed.value(), 1000);
    assert!(tree.get(41).is_none());
    assert!(tree.is_empty());
}

#[test]
fn overwrite_test() {
    let mut tree = filled(&[8, 2, 5]);
    tree.insert(5, 71);
    assert_eq!(tree.len(), 3);
    tree.insert(5, 72);
    assert_eq!(tree.len(), 3);
    assert_eq!(tree.get(5).map(|n| *n.value()), Some(72));
    assert_eq!(tree.root().unwrap().key(), 5);
}

#[test]
fn remove_two_children_test() {
    // removing a key with both subtrees present leaves the left subtree's
    // maximum, splayed, as the new root
    let mut tree = filled(&[3, 7, 5, 15, 10]);
    let node = tree.remove(10).unwrap();
    assert_eq!(node.key(), 10);
    assert_eq!(tree.root().unwrap().key(), 7);
    assert_eq!(tree.len(), 4);
    assert!(backrefs_ok(tree.root().unwrap()));

    let mut other = filled(&[20, 10, 30, 25, 35, 5, 15]);
    other.remove(20).unwrap();
    assert_eq!(other.root().unwrap().key(), 15);
    assert_eq!(other.len(), 6);
    assert!(backrefs_ok(other.root().unwrap()));
}

#[test]
fn size_invariant_test() {
    let mut tree = SplayTree::new();
    assert_eq!(tree.len(), 0);
    let keys = [9, 4, 13, 1, 6];
    for (n, k) in keys.iter().cloned().enumerate() {
        tree.insert(k, k);
        assert_eq!(tree.len(), n + 1);
    }
    tree.insert(4, 40);
    assert_eq!(tree.len(), keys.len());
    assert!(tree.remove(100).is_none());
    assert_eq!(tree.len(), keys.len());
    for (n, k) in keys.iter().cloned().enumerate() {
        tree.remove(k).unwrap();
        assert_eq!(tree.len(), keys.len() - n - 1);
    }
}

#[test]
fn detached_node_test() {
    let mut tree = filled(&[2, 1, 3]);
    let mut node = tree.remove(2).unwrap();
    assert!(node.is_root());
    assert_eq!(node.parent(), None);
    assert_eq!(*node.value(), 2);
    *node.value_mut() = 17;
    assert_eq!(*node.value(), 17);
    assert_eq!(node.key(), 2);
}

#[test]
fn get_mut_test() {
    let mut tree = filled(&[4, 2, 9]);
    if let Some(v) = tree.get_mut(2) {
        *v = 55;
    }
    assert_eq!(tree.root().unwrap().key(), 2);
    assert_eq!(tree.get(2).map(|n| *n.value()), Some(55));
    assert!(tree.get_mut(77).is_none());

    let min = tree.get_min_mut().unwrap();
    *min += 1;
    assert_eq!(tree.get(2).map(|n| *n.value()), Some(56));

    let max = tree.get_max_mut().unwrap();
    *max = 90;
    assert_eq!(tree.get(9).map(|n| *n.value()), Some(90));

    let mut empty = SplayTree::<u64>::new();
    assert!(empty.get_min_mut().is_none());
    assert!(empty.get_max_mut().is_none());
}

#[test]
fn child_side_test() {
    let mut tree = filled(&[3, 6, 12, 5, 10]);
    let root = tree.root().unwrap();
    assert_eq!(root.key(), 10);
    assert!(root.is_root());
    assert!(!root.is_left());
    assert!(!root.is_right());
    let five = root.left().unwrap();
    assert!(five.is_left());
    assert!(!five.is_right());
    assert!(!five.is_root());
    assert!(five.left().unwrap().is_left());
    assert!(five.right().unwrap().is_right());
    let twelve = root.right().unwrap();
    assert!(twelve.is_right());
    assert!(!twelve.is_left());
    let _ = tree.get(5);
}

#[test]
fn boundary_keys_test() {
    let mut tree = SplayTree::new();
    tree.insert(0, 1);
    tree.insert(u64::MAX, 2);
    tree.insert(7, 3);
    assert_eq!(tree.len(), 3);
    assert_eq!(tree.get_min().map(|n| n.key()), Some(0));
    assert_eq!(tree.get_max().map(|n| n.key()), Some(u64::MAX));
    assert_eq!(tree.get(0).map(|n| *n.value()), Some(1));
    assert_eq!(tree.get(u64::MAX).map(|n| *n.value()), Some(2));
    assert_eq!(tree.remove(u64::MAX).map(|n| n.key()), Some(u64::MAX));
    assert_eq!(tree.get_max().map(|n| n.key()), Some(7));
    assert_eq!(tree.len(), 2);
}

#[test]
fn miss_leaves_tree_untouched_test() {
    // the walk splays on a hit but never on a miss
    let mut tree = filled(&[12, 14, 15, 30, 16, 13, 20]);
    let before = shape_of(tree.root());
    assert!(tree.get(17).is_none());
    assert_eq!(shape_of(tree.root()), before);
    assert!(!tree.contains_key(17));
    assert_eq!(shape_of(tree.root()), before);
}
