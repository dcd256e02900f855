use avl_tree::node::{AVLNode, Side};
use avl_tree::tree::AVLTree;

/// Recomputes heights bottom-up and checks search order, cached heights and
/// the balance condition over the whole structure; returns the real height.
fn check_invariants(node: &Option<Box<AVLNode>>, lo: Option<u64>, hi: Option<u64>) -> usize {
    match node {
        None => 0,
        Some(n) => {
            if let Some(lo) = lo {
                assert!(n.value > lo, "search order broken at {}", n.value);
            }
            if let Some(hi) = hi {
                assert!(n.value < hi, "search order broken at {}", n.value);
            }
            let hl = check_invariants(&n.left, lo, Some(n.value));
            let hr = check_invariants(&n.right, Some(n.value), hi);
            let h = 1 + hl.max(hr);
            assert_eq!(n.height, h, "cached height stale at {}", n.value);
            assert!(hl.abs_diff(hr) <= 1, "balance broken at {}", n.value);
            h
        },
    }
}

/// The smallest Fibonacci-style height bound: the largest h with
/// fib(h + 2) <= n + 1.
fn height_limit(n: usize) -> usize {
    let (mut a, mut b) = (1u64, 2u64); // fib(2), fib(3)
    let mut h: usize = 0;
    while b <= n as u64 + 1 {
        let next = a + b;
        a = b;
        b = next;
        h += 1;
    }
    h
}

fn assert_ascending(v: &[u64]) {
    for w in v.windows(2) {
        assert!(w[0] < w[1], "traversal not strictly ascending");
    }
}

#[test]
fn ascending_insertions_build_complete_tree() {
    let mut t = AVLTree::new();
    for v in 1..=7u64 {
        assert!(t.insert(v));
    }
    let root = t.root.as_ref().unwrap();
    assert_eq!(root.value, 4);
    assert_eq!(root.height, 3);
    let l = root.left.as_ref().unwrap();
    let r = root.right.as_ref().unwrap();
    assert_eq!(l.value, 2);
    assert_eq!(r.value, 6);
    assert_eq!(l.left.as_ref().unwrap().value, 1);
    assert_eq!(l.right.as_ref().unwrap().value, 3);
    assert_eq!(r.left.as_ref().unwrap().value, 5);
    assert_eq!(r.right.as_ref().unwrap().value, 7);
}

#[test]
fn replacement_prefers_predecessor() {
    // root 1, left child 2 (children 4 and 5), right child 3 (children 6, 7):
    // the finder descends into 2 and follows right links to 5
    let tree = AVLNode {
        value: 1,
        height: 2,
        left: Some(Box::new(AVLNode {
            value: 2,
            height: 1,
            left: Some(Box::new(AVLNode { value: 4, height: 0, left: None, right: None })),
            right: Some(Box::new(AVLNode { value: 5, height: 0, left: None, right: None })),
        })),
        right: Some(Box::new(AVLNode {
            value: 3,
            height: 1,
            left: Some(Box::new(AVLNode { value: 6, height: 0, left: None, right: None })),
            right: Some(Box::new(AVLNode { value: 7, height: 0, left: None, right: None })),
        })),
    };
    assert_eq!(tree.replacement(), Some(5));
}

#[test]
fn replacement_of_childless_left_child_is_itself() {
    // same tree but node 2 has no children: 2 is its own candidate
    let tree = AVLNode {
        value: 1,
        height: 2,
        left: Some(Box::new(AVLNode { value: 2, height: 0, left: None, right: None })),
        right: Some(Box::new(AVLNode {
            value: 3,
            height: 1,
            left: Some(Box::new(AVLNode { value: 6, height: 0, left: None, right: None })),
            right: Some(Box::new(AVLNode { value: 7, height: 0, left: None, right: None })),
        })),
    };
    assert_eq!(tree.replacement(), Some(2));
}

#[test]
fn replacement_of_leaf_is_none() {
    let leaf = AVLNode { value: 9, height: 1, left: None, right: None };
    assert_eq!(leaf.replacement(), None);
}

#[test]
fn right_rotation_promotes_left_child() {
    // subtree rooted at 1 with left child 2; rotating right promotes 2 and
    // demotes 1 to its right child
    let mut sub = AVLNode {
        value: 1,
        height: 2,
        left: Some(Box::new(AVLNode { value: 2, height: 1, left: None, right: None })),
        right: None,
    };
    sub.rotate(Side::Right);
    assert_eq!(sub.value, 2);
    assert_eq!(sub.right.as_ref().unwrap().value, 1);
}

#[test]
fn side_not_flips() {
    assert!(matches!(Side::Left.not(), Side::Right));
    assert!(matches!(Side::Right.not(), Side::Left));
}

#[test]
fn node_primitives_read_cached_heights() {
    let n = AVLNode {
        value: 10,
        height: 3,
        left: Some(Box::new(AVLNode { value: 5, height: 2, left: None, right: None })),
        right: Some(Box::new(AVLNode { value: 15, height: 1, left: None, right: None })),
    };
    assert_eq!(n.height(Side::Left), 2);
    assert_eq!(n.height(Side::Right), 1);
    assert_eq!(n.balance_factor(), -1);
    assert_eq!(n.child(Side::Left).as_ref().unwrap().value, 5);
    assert_eq!(n.child(Side::Right).as_ref().unwrap().value, 15);
}

#[test]
fn update_height_recomputes_from_children() {
    let mut n = AVLNode {
        value: 10,
        height: 0,
        left: Some(Box::new(AVLNode { value: 5, height: 2, left: None, right: None })),
        right: Some(Box::new(AVLNode { value: 15, height: 1, left: None, right: None })),
    };
    n.update_height();
    assert_eq!(n.height, 3);
}

#[test]
fn child_mut_replaces_and_returns_old_link() {
    let mut n = AVLNode {
        value: 10,
        height: 2,
        left: Some(Box::new(AVLNode { value: 5, height: 1, left: None, right: None })),
        right: None,
    };
    let old = n.child_mut(
        Side::Left,
        Some(Box::new(AVLNode { value: 7, height: 1, left: None, right: None })),
    );
    assert_eq!(old.unwrap().value, 5);
    assert_eq!(n.left.as_ref().unwrap().value, 7);
}

#[test]
fn insert_then_remove_restores_previous_set() {
    let mut t = AVLTree::new();
    for v in [10u64, 20, 30, 5, 15] {
        assert!(t.insert(v));
    }
    let before = t.in_order();
    assert!(!t.contains(25));
    assert!(t.insert(25));
    assert!(t.remove(25));
    assert_eq!(t.in_order(), before);
    check_invariants(&t.root, None, None);
}

#[test]
fn remove_missing_leaves_tree_unchanged() {
    let mut t = AVLTree::new();
    assert!(!t.remove(3)); // empty tree: not found
    assert!(t.root.is_none());

    for v in [8u64, 4, 12, 2, 6] {
        t.insert(v);
    }
    let before = t.in_order();
    assert!(!t.remove(5)); // absent value: not found
    assert_eq!(t.in_order(), before);
    // the structure, not just the value set, is untouched
    let root = t.root.as_ref().unwrap();
    assert_eq!(root.value, 8);
    assert_eq!(root.height, 3);
    assert_eq!(root.left.as_ref().unwrap().value, 4);
    assert_eq!(root.right.as_ref().unwrap().value, 12);
}

#[test]
fn insert_duplicate_leaves_tree_unchanged() {
    let mut t = AVLTree::new();
    for v in [8u64, 4, 12] {
        assert!(t.insert(v));
    }
    let before = t.in_order();
    assert!(!t.insert(4));
    assert_eq!(t.in_order(), before);
    assert_eq!(t.root.as_ref().unwrap().value, 8);
}

#[test]
fn contains_reports_presence() {
    let mut t = AVLTree::new();
    assert!(!t.contains(1));
    for v in [2u64, 9, 4, 7] {
        t.insert(v);
    }
    for v in [2u64, 9, 4, 7] {
        assert!(t.contains(v));
    }
    assert!(!t.contains(3));
    assert!(!t.contains(10));
}

#[test]
fn two_child_removal_takes_predecessor_value() {
    let mut t = AVLTree::new();
    for v in [8u64, 4, 12, 2, 6, 10, 14] {
        t.insert(v);
    }
    assert!(t.remove(8)); // root has two children; predecessor is 6
    assert_eq!(t.root.as_ref().unwrap().value, 6);
    assert_eq!(t.in_order(), vec![2, 4, 6, 10, 12, 14]);
    check_invariants(&t.root, None, None);
}

#[test]
fn traversal_is_sorted_and_empty_tree_is_empty() {
    let t = AVLTree::new();
    assert_eq!(t.in_order(), Vec::<u64>::new());

    let mut t = AVLTree::new();
    for v in [5u64, 1, 9, 3, 7, 2, 8] {
        t.insert(v);
    }
    let listing = t.in_order();
    assert_eq!(listing, vec![1, 2, 3, 5, 7, 8, 9]);
    assert_ascending(&listing);
}

#[test]
fn invariants_hold_after_every_operation() {
    let mut t = AVLTree::new();
    let mut state: u64 = 0x2545F4914F6CDD1D;
    let mut expected: Vec<u64> = Vec::new();
    for step in 0..600 {
        state = state.wrapping_mul(6364136223846793005).wrapping_add(1442695040888963407);
        let v = (state >> 33) % 64;
        if step % 3 == 2 {
            let removed = t.remove(v);
            assert_eq!(removed, expected.contains(&v));
            expected.retain(|&x| x != v);
        } else {
            let inserted = t.insert(v);
            assert_eq!(inserted, !expected.contains(&v));
            if inserted {
                expected.push(v);
            }
        }
        let h = check_invariants(&t.root, None, None);
        let listing = t.in_order();
        assert_ascending(&listing);
        expected.sort_unstable();
        assert_eq!(listing, expected);
        assert!(h <= height_limit(listing.len()), "tree too tall: {} for {}", h, listing.len());
    }
}

#[test]
fn deletion_rebalances_up_the_path() {
    // deleting out of one flank repeatedly forces rotations at the ancestors
    let mut t = AVLTree::new();
    for v in 1..=32u64 {
        t.insert(v);
    }
    for v in 1..=16u64 {
        assert!(t.remove(v));
        check_invariants(&t.root, None, None);
    }
    assert_eq!(t.in_order(), (17..=32).collect::<Vec<u64>>());
}
