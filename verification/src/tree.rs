//! The rebalancer and the tree operations: insert, remove, contains, and
//! in-order traversal.

use vstd::prelude::*;
use crate::node::{
    AVLNode, Side, lemma_cached_is_real, lemma_pos_height_some, lemma_rightmost_max,
    lemma_rotate_effect, opt_balanced, opt_bst, opt_height, opt_heights_ok, opt_seq, opt_set,
    opt_wf,
};

verus! {

/// What one step of the rebalancing walk needs of a node whose subtree was
/// just edited: both subtrees well-formed, search order at the node itself,
/// and the two subtree heights at most two apart. The node's own cached
/// height may be stale. The height bounds keep the recomputation inside
/// `usize`.
pub open spec fn rebalance_pre(n: AVLNode) -> bool {
    &&& opt_wf(n.left)
    &&& opt_wf(n.right)
    &&& forall|x: u64| #[trigger] opt_set(n.left).contains(x) ==> x < n.value
    &&& forall|x: u64| #[trigger] opt_set(n.right).contains(x) ==> x > n.value
    &&& -2 <= opt_height(n.left) as int - opt_height(n.right) as int <= 2
    &&& opt_height(n.left) <= usize::MAX - 1
    &&& opt_height(n.right) <= usize::MAX - 1
}

/// One step of the bottom-up rebalancing walk: recomputes the node's cached
/// height and, when the balance factor reaches +/-2, applies the matching
/// single or double rotation (same-direction lean takes one rotation, an
/// opposite-direction lean first rotates the heavier child against its own
/// lean). The subtree keeps exactly its value set. Its height lands on the
/// larger subtree height plus zero or one, and is exactly one more than the
/// larger subtree height when no rotation was needed.
#[verifier::rlimit(100)]
pub fn rebalance(n: &mut AVLNode)
    requires
        rebalance_pre(*old(n)),
    ensures
        final(n).wf(),
        final(n).as_set() == old(n).as_set(),
        ({
            let hl = opt_height(old(n).left) as int;
            let hr = opt_height(old(n).right) as int;
            let hm = if hl >= hr {
                hl
            } else {
                hr
            };
            &&& hm <= final(n).real_height() <= hm + 1
            &&& (-1 <= hl - hr <= 1 ==> final(n).real_height() == hm + 1)
        }),
{
    proof {
        lemma_cached_is_real(old(n).left);
        lemma_cached_is_real(old(n).right);
    }
    let ghost hl = opt_height(old(n).left) as int;
    let ghost hr = opt_height(old(n).right) as int;
    n.update_height();
    let bf = n.balance_factor();
    if bf == 2 {
        proof {
            lemma_pos_height_some(n.right);
        }
        let ghost z0 = *n.right.unwrap();
        let ghost zl = opt_height(z0.left) as int;
        let ghost zr = opt_height(z0.right) as int;
        proof {
            lemma_cached_is_real(z0.left);
            lemma_cached_is_real(z0.right);
            assert(hr == hl + 2);
            assert(z0.real_height() == hr);
            assert(-1 <= zl - zr <= 1);
        }
        let (inner, outer) = match n.child(Side::Right) {
            Some(zb) => (zb.height(Side::Left), zb.height(Side::Right)),
            None => (0, 0),
        };
        if inner > outer {
            // the heavier child leans the opposite way: double rotation
            proof {
                assert(zl == hl + 1 && zr == hl);
                lemma_pos_height_some(z0.left);
            }
            let ghost w = *z0.left.unwrap();
            proof {
                assert(opt_heights_ok(z0.left) && opt_balanced(z0.left) && opt_bst(z0.left));
                assert(w.heights_ok() && w.balanced() && w.bst());
                lemma_cached_is_real(w.left);
                lemma_cached_is_real(w.right);
                assert(w.real_height() == hl + 1);
            }
            let mut z = n.child_mut(Side::Right, None).unwrap();
            z.rotate(Side::Right);
            proof {
                lemma_rotate_effect(z0, Side::Right, *z);
            }
            let ghost zrot = *z;
            let ghost x2z = *zrot.right.unwrap();
            n.child_mut(Side::Right, Some(z));
            let ghost n1 = *n;
            proof {
                assert(opt_set(n1.right) == zrot.as_set());
                assert(opt_set(n1.right) == opt_set(old(n).right));
                assert(x2z.real_height() == hl + 1);
                assert(zrot.real_height() == hr);
            }
            n.rotate(Side::Left);
            proof {
                lemma_rotate_effect(n1, Side::Left, *n);
                let x2n = *n.left.unwrap();
                assert(x2n.right == w.left);
                assert(x2n.real_height() == hl + 1);
                assert(x2z.balanced()) by {
                    assert(opt_balanced(w.right));
                    assert(opt_balanced(z0.right));
                }
                assert(x2n.balanced()) by {
                    assert(opt_balanced(old(n).left));
                    assert(opt_balanced(w.left));
                }
                assert(n.real_height() == hl + 2);
                assert(n.balanced());
                assert(n.as_set() == old(n).as_set()) by {
                    assert(n1.as_set() =~= old(n).as_set());
                    assert(n.as_set() =~= n1.as_set());
                }
            }
        } else {
            // the heavier child leans the same way or not at all: single
            // rotation
            proof {
                assert(zr == hl + 1);
                assert(hl <= zl <= hl + 1);
            }
            let ghost n1 = *n;
            n.rotate(Side::Left);
            proof {
                lemma_rotate_effect(n1, Side::Left, *n);
                let x2 = *n.left.unwrap();
                assert(x2.real_height() == zl + 1);
                assert(x2.balanced()) by {
                    assert(opt_balanced(old(n).left));
                    assert(opt_balanced(z0.left));
                }
                assert(n.balanced()) by {
                    assert(opt_balanced(z0.right));
                }
                assert(n.real_height() == if zl == hl {
                    hl + 2int
                } else {
                    hl + 3int
                });
                assert(n.as_set() == old(n).as_set()) by {
                    assert(n1.as_set() =~= old(n).as_set());
                    assert(n.as_set() =~= n1.as_set());
                }
            }
        }
    } else if bf == -2 {
        proof {
            lemma_pos_height_some(n.left);
        }
        let ghost z0 = *n.left.unwrap();
        let ghost zl = opt_height(z0.left) as int;
        let ghost zr = opt_height(z0.right) as int;
        proof {
            lemma_cached_is_real(z0.left);
            lemma_cached_is_real(z0.right);
            assert(hl == hr + 2);
            assert(z0.real_height() == hl);
            assert(-1 <= zl - zr <= 1);
        }
        let (inner, outer) = match n.child(Side::Left) {
            Some(zb) => (zb.height(Side::Right), zb.height(Side::Left)),
            None => (0, 0),
        };
        if inner > outer {
            // the heavier child leans the opposite way: double rotation
            proof {
                assert(zr == hr + 1 && zl == hr);
                lemma_pos_height_some(z0.right);
            }
            let ghost w = *z0.right.unwrap();
            proof {
                assert(opt_heights_ok(z0.right) && opt_balanced(z0.right) && opt_bst(z0.right));
                assert(w.heights_ok() && w.balanced() && w.bst());
                lemma_cached_is_real(w.left);
                lemma_cached_is_real(w.right);
                assert(w.real_height() == hr + 1);
            }
            let mut z = n.child_mut(Side::Left, None).unwrap();
            z.rotate(Side::Left);
            proof {
                lemma_rotate_effect(z0, Side::Left, *z);
            }
            let ghost zrot = *z;
            let ghost x2z = *zrot.left.unwrap();
            n.child_mut(Side::Left, Some(z));
            let ghost n1 = *n;
            proof {
                assert(opt_set(n1.left) == zrot.as_set());
                assert(opt_set(n1.left) == opt_set(old(n).left));
                assert(x2z.real_height() == hr + 1);
                assert(zrot.real_height() == hl);
            }
            n.rotate(Side::Right);
            proof {
                lemma_rotate_effect(n1, Side::Right, *n);
                let x2n = *n.right.unwrap();
                assert(x2n.left == w.right);
                assert(x2n.real_height() == hr + 1);
                assert(x2z.balanced()) by {
                    assert(opt_balanced(w.left));
                    assert(opt_balanced(z0.left));
                }
                assert(x2n.balanced()) by {
                    assert(opt_balanced(old(n).right));
                    assert(opt_balanced(w.right));
                }
                assert(n.real_height() == hr + 2);
                assert(n.balanced());
                assert(n.as_set() == old(n).as_set()) by {
                    assert(n1.as_set() =~= old(n).as_set());
                    assert(n.as_set() =~= n1.as_set());
                }
            }
        } else {
            // single rotation
            proof {
                assert(zl == hr + 1);
                assert(hr <= zr <= hr + 1);
            }
            let ghost n1 = *n;
            n.rotate(Side::Right);
            proof {
                lemma_rotate_effect(n1, Side::Right, *n);
                let x2 = *n.right.unwrap();
                assert(x2.real_height() == zr + 1);
                assert(x2.balanced()) by {
                    assert(opt_balanced(old(n).right));
                    assert(opt_balanced(z0.right));
                }
                assert(n.balanced()) by {
                    assert(opt_balanced(z0.left));
                }
                assert(n.real_height() == if zr == hr {
                    hr + 2int
                } else {
                    hr + 3int
                });
                assert(n.as_set() == old(n).as_set()) by {
                    assert(n1.as_set() =~= old(n).as_set());
                    assert(n.as_set() =~= n1.as_set());
                }
            }
        }
    } else {
        // the node is balanced: the recomputed cached height is all that was
        // needed
        proof {
            assert(n.heights_ok());
            assert(n.balanced());
            assert(n.as_set() =~= old(n).as_set());
        }
    }
}

/// Inserts `value` into an optional subtree: descends by comparison to the
/// first absent slot, attaches a leaf there, and rebalances on the way back
/// up. A value already present is rejected and the subtree left untouched.
#[verifier::rlimit(100)]
fn insert_opt(node: &mut Option<Box<AVLNode>>, value: u64) -> (inserted: bool)
    requires
        opt_wf(*old(node)),
        opt_height(*old(node)) <= usize::MAX - 2,
    ensures
        opt_wf(*final(node)),
        opt_set(*final(node)) == opt_set(*old(node)).insert(value),
        inserted == !opt_set(*old(node)).contains(value),
        !inserted ==> *final(node) == *old(node),
        opt_height(*old(node)) <= opt_height(*final(node)) <= opt_height(*old(node)) + 1,
    decreases *old(node),
{
    match node.take() {
        None => {
            *node = Some(Box::new(AVLNode { value, height: 1, left: None, right: None }));
            proof {
                assert(opt_set(*node) =~= opt_set(*old(node)).insert(value));
            }
            true
        },
        Some(mut b) => {
            let ghost b0 = *b;
            if value == b.value {
                proof {
                    assert(b0.as_set().contains(value));
                    assert(opt_set(Some(b)) =~= opt_set(*old(node)).insert(value));
                }
                *node = Some(b);
                false
            } else if value < b.value {
                let inserted = insert_opt(&mut b.left, value);
                proof {
                    assert forall|x: u64| #[trigger] opt_set(b.left).contains(x) implies x
                        < b.value by {
                        if x != value {
                            assert(opt_set(b0.left).contains(x));
                        }
                    }
                    assert(!opt_set(b0.right).contains(value));
                }
                if inserted {
                    rebalance(&mut b);
                }
                proof {
                    assert(opt_set(Some(b)) =~= opt_set(*old(node)).insert(value));
                }
                *node = Some(b);
                inserted
            } else {
                let inserted = insert_opt(&mut b.right, value);
                proof {
                    assert forall|x: u64| #[trigger] opt_set(b.right).contains(x) implies x
                        > b.value by {
                        if x != value {
                            assert(opt_set(b0.right).contains(x));
                        }
                    }
                    assert(!opt_set(b0.left).contains(value));
                }
                if inserted {
                    rebalance(&mut b);
                }
                proof {
                    assert(opt_set(Some(b)) =~= opt_set(*old(node)).insert(value));
                }
                *node = Some(b);
                inserted
            }
        },
    }
}

/// Removes `value` from an optional subtree: descends by comparison; a node
/// with at most one child is spliced out, a node with two children takes
/// over its replacement's value while the replacement node is the one
/// detached; every edited level is rebalanced on the way back up. An absent
/// value is reported and the subtree left untouched.
#[verifier::rlimit(100)]
fn remove_opt(node: &mut Option<Box<AVLNode>>, value: u64) -> (removed: bool)
    requires
        opt_wf(*old(node)),
    ensures
        opt_wf(*final(node)),
        opt_set(*final(node)) == opt_set(*old(node)).remove(value),
        removed == opt_set(*old(node)).contains(value),
        !removed ==> *final(node) == *old(node),
        opt_height(*old(node)) as int - 1 <= opt_height(*final(node)) as int <= opt_height(
            *old(node),
        ) as int,
    decreases *old(node),
{
    match node.take() {
        None => {
            proof {
                assert(opt_set(*old(node)).remove(value) =~= opt_set(*old(node)));
            }
            false
        },
        Some(mut b) => {
            let ghost b0 = *b;
            if value < b.value {
                proof {
                    assert(!opt_set(b0.right).contains(value) && value != b0.value);
                }
                let removed = remove_opt(&mut b.left, value);
                proof {
                    assert forall|x: u64| #[trigger] opt_set(b.left).contains(x) implies x
                        < b.value by {
                        assert(opt_set(b0.left).contains(x));
                    }
                }
                if removed {
                    rebalance(&mut b);
                }
                proof {
                    assert(opt_set(Some(b)) =~= opt_set(*old(node)).remove(value));
                }
                *node = Some(b);
                removed
            } else if value > b.value {
                proof {
                    assert(!opt_set(b0.left).contains(value) && value != b0.value);
                }
                let removed = remove_opt(&mut b.right, value);
                proof {
                    assert forall|x: u64| #[trigger] opt_set(b.right).contains(x) implies x
                        > b.value by {
                        assert(opt_set(b0.right).contains(x));
                    }
                }
                if removed {
                    rebalance(&mut b);
                }
                proof {
                    assert(opt_set(Some(b)) =~= opt_set(*old(node)).remove(value));
                }
                *node = Some(b);
                removed
            } else {
                proof {
                    assert(b0.as_set().contains(value));
                    assert(!opt_set(b0.left).contains(value));
                    assert(!opt_set(b0.right).contains(value));
                }
                if b.left.is_none() {
                    let r = b.right.take();
                    proof {
                        assert(opt_set(b0.left) =~= Set::empty());
                        assert(opt_set(r) =~= opt_set(*old(node)).remove(value));
                    }
                    *node = r;
                    true
                } else if b.right.is_none() {
                    let l = b.left.take();
                    proof {
                        assert(opt_set(b0.right) =~= Set::empty());
                        assert(opt_set(l) =~= opt_set(*old(node)).remove(value));
                    }
                    *node = l;
                    true
                } else {
                    // two children: the replacement finder names the
                    // in-order predecessor, whose own detachment is the
                    // simple one-child case further down
                    let rep = match b.replacement() {
                        Some(r) => r,
                        None => 0,
                    };
                    proof {
                        assert(b0.bst());
                        assert(opt_bst(b0.left));
                        assert(b0.left is Some);
                        assert(b0.left.unwrap().bst());
                        lemma_rightmost_max(*b0.left.unwrap());
                        assert(opt_set(b0.left) == b0.left.unwrap().as_set());
                        assert(opt_set(b0.left).contains(rep));
                        assert(rep < b0.value);
                    }
                    let removed0 = remove_opt(&mut b.left, rep);
                    b.value = rep;
                    proof {
                        assert(removed0);
                        assert forall|x: u64| #[trigger] opt_set(b.left).contains(x) implies x
                            < b.value by {
                            assert(opt_set(b0.left).contains(x));
                        }
                        assert forall|x: u64| #[trigger] opt_set(b.right).contains(
                            x,
                        ) implies x > b.value by {
                            assert(x > b0.value);
                        }
                    }
                    rebalance(&mut b);
                    proof {
                        assert(opt_set(Some(b)) =~= opt_set(*old(node)).remove(value));
                    }
                    *node = Some(b);
                    true
                }
            }
        },
    }
}

/// Pure ordered descent: reports whether `value` is present, mutating
/// nothing.
fn contains_opt(node: &Option<Box<AVLNode>>, value: u64) -> (found: bool)
    requires
        opt_bst(*node),
    ensures
        found == opt_set(*node).contains(value),
    decreases *node,
{
    match node {
        None => false,
        Some(b) => {
            if value == b.value {
                true
            } else if value < b.value {
                proof {
                    assert(!opt_set(b.right).contains(value));
                }
                contains_opt(&b.left, value)
            } else {
                proof {
                    assert(!opt_set(b.left).contains(value));
                }
                contains_opt(&b.right, value)
            }
        },
    }
}

/// Appends the subtree's values to `out` in in-order sequence.
fn in_order_opt(node: &Option<Box<AVLNode>>, out: &mut Vec<u64>)
    ensures
        final(out)@ == old(out)@ + opt_seq(*node),
    decreases *node,
{
    match node {
        None => {
            proof {
                assert(out@ =~= old(out)@ + opt_seq(*node));
            }
        },
        Some(b) => {
            in_order_opt(&b.left, out);
            out.push(b.value);
            in_order_opt(&b.right, out);
            proof {
                assert(out@ =~= old(out)@ + opt_seq(*node));
            }
        },
    }
}

/// The tree: a single handle to the root node, absent when the tree is
/// empty, owning the whole structure through child links. Deletion keeps a
/// deleted value's node in place and overwrites its value with the
/// replacement's, so "the node holding value x" names a position, not a
/// stable node identity, across a removal.
pub struct AVLTree {
    pub root: Option<Box<AVLNode>>,
}

impl View for AVLTree {
    type V = Set<u64>;

    /// The set of values currently present.
    open spec fn view(&self) -> Set<u64> {
        opt_set(self.root)
    }
}

impl AVLTree {
    /// The structural invariants, holding at the start and end of every
    /// public operation: search order, accurate cached heights, and the AVL
    /// balance condition.
    pub open spec fn wf(self) -> bool {
        opt_wf(self.root)
    }

    /// The tree's height; 0 when empty.
    pub open spec fn spec_height(self) -> nat {
        opt_height(self.root)
    }

    /// The ascending sequence of present values.
    pub open spec fn spec_in_order(self) -> Seq<u64> {
        opt_seq(self.root)
    }

    /// Creates an empty tree.
    pub fn new() -> (t: AVLTree)
        ensures
            t.wf(),
            t@ == Set::<u64>::empty(),
            t.spec_height() == 0,
    {
        AVLTree { root: None }
    }

    /// Inserts a value: true means it was inserted, false that it was
    /// already present and the tree is unchanged — duplicates are rejected,
    /// not merged. The height bound is what lets every recomputed height
    /// still fit in `usize`.
    pub fn insert(&mut self, value: u64) -> (inserted: bool)
        requires
            old(self).wf(),
            old(self).spec_height() <= usize::MAX - 2,
        ensures
            final(self).wf(),
            final(self)@ == old(self)@.insert(value),
            inserted == !old(self)@.contains(value),
            !inserted ==> *final(self) == *old(self),
            old(self).spec_height() <= final(self).spec_height() <= old(self).spec_height()
                + 1,
    {
        insert_opt(&mut self.root, value)
    }

    /// Removes a value: true means it was present and is now removed, false
    /// that it was absent and the tree is unchanged.
    pub fn remove(&mut self, value: u64) -> (removed: bool)
        requires
            old(self).wf(),
        ensures
            final(self).wf(),
            final(self)@ == old(self)@.remove(value),
            removed == old(self)@.contains(value),
            !removed ==> *final(self) == *old(self),
            old(self).spec_height() as int - 1 <= final(self).spec_height() as int <= old(
                self,
            ).spec_height() as int,
    {
        remove_opt(&mut self.root, value)
    }

    /// Reports whether a value is present.
    pub fn contains(&self, value: u64) -> (found: bool)
        requires
            self.wf(),
        ensures
            found == self@.contains(value),
    {
        contains_opt(&self.root, value)
    }

    /// In-order traversal: the tree's current values in ascending order.
    pub fn in_order(&self) -> (out: Vec<u64>)
        ensures
            out@ == self.spec_in_order(),
    {
        let mut out: Vec<u64> = Vec::new();
        in_order_opt(&self.root, &mut out);
        out
    }
}

} // verus!
