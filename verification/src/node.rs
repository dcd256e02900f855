//! Node primitives: the node record, its mathematical model, height
//! bookkeeping, the balance factor, the replacement finder, and the single
//! rotation.

use vstd::prelude::*;

verus! {

/// Which of a node's two child slots is meant.
#[derive(Clone, Copy)]
pub enum Side {
    Left,
    Right,
}

impl Side {
    /// The opposite side.
    pub open spec fn spec_not(self) -> Side {
        match self {
            Side::Left => Side::Right,
            Side::Right => Side::Left,
        }
    }

    /// Returns the opposite side.
    #[verifier::when_used_as_spec(spec_not)]
    pub fn not(self) -> (r: Side)
        ensures
            r == self.spec_not(),
    {
        match self {
            Side::Left => Side::Right,
            Side::Right => Side::Left,
        }
    }
}

/// One node of the tree: an ordered value, the cached height of the subtree
/// rooted here, and the two owned children. Ownership flows strictly from the
/// root toward the leaves; the rebalancing walk climbs back toward the root
/// as the recursion in `tree` unwinds, so no back-reference is stored.
pub struct AVLNode {
    pub value: u64,
    pub height: usize,
    pub left: Option<Box<AVLNode>>,
    pub right: Option<Box<AVLNode>>,
}

/// The set of values in an optional subtree.
pub open spec fn opt_set(o: Option<Box<AVLNode>>) -> Set<u64>
    decreases o,
{
    match o {
        None => Set::empty(),
        Some(n) => n.as_set(),
    }
}

/// The in-order value sequence of an optional subtree.
pub open spec fn opt_seq(o: Option<Box<AVLNode>>) -> Seq<u64>
    decreases o,
{
    match o {
        None => Seq::empty(),
        Some(n) => n.in_order(),
    }
}

/// The recomputed (true) height of an optional subtree; 0 when absent.
pub open spec fn opt_height(o: Option<Box<AVLNode>>) -> nat
    decreases o,
{
    match o {
        None => 0,
        Some(n) => n.real_height(),
    }
}

/// The height an optional subtree claims through its root's cached field;
/// 0 when absent. Equal to `opt_height` wherever `opt_heights_ok` holds.
pub open spec fn cached_height(o: Option<Box<AVLNode>>) -> usize {
    match o {
        None => 0,
        Some(n) => n.height,
    }
}

pub open spec fn opt_bst(o: Option<Box<AVLNode>>) -> bool
    decreases o,
{
    match o {
        None => true,
        Some(n) => n.bst(),
    }
}

pub open spec fn opt_heights_ok(o: Option<Box<AVLNode>>) -> bool
    decreases o,
{
    match o {
        None => true,
        Some(n) => n.heights_ok(),
    }
}

pub open spec fn opt_balanced(o: Option<Box<AVLNode>>) -> bool
    decreases o,
{
    match o {
        None => true,
        Some(n) => n.balanced(),
    }
}

/// A well-formed optional subtree: search order, accurate cached heights,
/// and the AVL balance condition.
pub open spec fn opt_wf(o: Option<Box<AVLNode>>) -> bool {
    opt_bst(o) && opt_heights_ok(o) && opt_balanced(o)
}

/// The larger of two heights.
pub open spec fn max_nat(a: nat, b: nat) -> nat {
    if a >= b {
        a
    } else {
        b
    }
}

/// `x` lies on the given side of `v` in search order.
pub open spec fn side_ord(side: Side, x: u64, v: u64) -> bool {
    match side {
        Side::Left => x < v,
        Side::Right => x > v,
    }
}

/// Wherever the cached heights of a subtree are accurate, the cache at its
/// root reports the true subtree height.
pub proof fn lemma_cached_is_real(o: Option<Box<AVLNode>>)
    requires
        opt_heights_ok(o),
    ensures
        cached_height(o) == opt_height(o),
{
}

/// A subtree of positive height is present.
pub proof fn lemma_pos_height_some(o: Option<Box<AVLNode>>)
    requires
        opt_height(o) > 0,
    ensures
        o is Some,
{
}

impl AVLNode {
    /// The set of values in this subtree.
    pub open spec fn as_set(self) -> Set<u64>
        decreases self,
    {
        opt_set(self.left).union(opt_set(self.right)).insert(self.value)
    }

    /// The in-order value sequence of this subtree.
    pub open spec fn in_order(self) -> Seq<u64>
        decreases self,
    {
        opt_seq(self.left) + seq![self.value] + opt_seq(self.right)
    }

    /// The true height of this subtree: 1 more than the taller child.
    pub open spec fn real_height(self) -> nat
        decreases self,
    {
        1 + if opt_height(self.left) >= opt_height(self.right) {
            opt_height(self.left)
        } else {
            opt_height(self.right)
        }
    }

    /// Binary search order: the left subtree holds only smaller values, the
    /// right subtree only larger ones, recursively.
    pub open spec fn bst(self) -> bool
        decreases self,
    {
        &&& forall|x: u64| opt_set(self.left).contains(x) ==> x < self.value
        &&& forall|x: u64| opt_set(self.right).contains(x) ==> x > self.value
        &&& opt_bst(self.left)
        &&& opt_bst(self.right)
    }

    /// Every cached height in this subtree equals the recomputed height.
    pub open spec fn heights_ok(self) -> bool
        decreases self,
    {
        &&& self.height == self.real_height()
        &&& opt_heights_ok(self.left)
        &&& opt_heights_ok(self.right)
    }

    /// The AVL balance condition, at this node and recursively below it.
    pub open spec fn balanced(self) -> bool
        decreases self,
    {
        &&& -1 <= opt_height(self.left) - opt_height(self.right) <= 1
        &&& opt_balanced(self.left)
        &&& opt_balanced(self.right)
    }

    /// A well-formed subtree rooted at this node.
    pub open spec fn wf(self) -> bool {
        self.bst() && self.heights_ok() && self.balanced()
    }

    /// The child link on the given side.
    pub open spec fn spec_child(self, side: Side) -> Option<Box<AVLNode>> {
        match side {
            Side::Left => self.left,
            Side::Right => self.right,
        }
    }

    /// This node with the child link on the given side replaced.
    pub open spec fn with_child(self, side: Side, c: Option<Box<AVLNode>>) -> AVLNode {
        match side {
            Side::Left => AVLNode { left: c, ..self },
            Side::Right => AVLNode { right: c, ..self },
        }
    }

    /// What `update_height` writes: 1 more than the taller child's cached
    /// height.
    pub open spec fn recomputed_height(self) -> int {
        1 + if cached_height(self.left) >= cached_height(self.right) {
            cached_height(self.left) as int
        } else {
            cached_height(self.right) as int
        }
    }

    /// The balance factor read off the cached child heights: right minus
    /// left.
    pub open spec fn spec_balance_factor(self) -> int {
        cached_height(self.right) - cached_height(self.left)
    }

    /// Returns a reference to the left or right child link.
    pub fn child(&self, side: Side) -> (r: &Option<Box<AVLNode>>)
        ensures
            *r == self.spec_child(side),
    {
        match side {
            Side::Left => &self.left,
            Side::Right => &self.right,
        }
    }

    /// Replaces the left or right child link and hands back the link it
    /// displaced.
    pub fn child_mut(&mut self, side: Side, c: Option<Box<AVLNode>>) -> (r: Option<
        Box<AVLNode>,
    >)
        ensures
            *final(self) == old(self).with_child(side, c),
            r == old(self).spec_child(side),
    {
        match side {
            Side::Left => {
                let r = self.left.take();
                self.left = c;
                r
            },
            Side::Right => {
                let r = self.right.take();
                self.right = c;
                r
            },
        }
    }

    /// Cached height of the named child, or 0 if that child is absent.
    pub fn height(&self, side: Side) -> (h: usize)
        ensures
            h == cached_height(self.spec_child(side)),
    {
        match self.child(side) {
            None => 0,
            Some(n) => n.height,
        }
    }

    /// Recomputes this node's cached height from its two children's cached
    /// heights. Meaningful only bottom-up: the children's caches must already
    /// be settled.
    pub fn update_height(&mut self)
        requires
            cached_height(old(self).left) < usize::MAX,
            cached_height(old(self).right) < usize::MAX,
        ensures
            final(self).value == old(self).value,
            final(self).left == old(self).left,
            final(self).right == old(self).right,
            final(self).height as int == old(self).recomputed_height(),
    {
        let hl = self.height(Side::Left);
        let hr = self.height(Side::Right);
        self.height = if hl >= hr {
            hl + 1
        } else {
            hr + 1
        };
    }

    /// The value of the deepest right-descendant of this node: the largest
    /// value of the subtree when search order holds.
    pub open spec fn rightmost(self) -> u64
        decreases self,
    {
        match self.right {
            None => self.value,
            Some(r) => r.rightmost(),
        }
    }

    /// The value of the deepest left-descendant of this node: the smallest
    /// value of the subtree when search order holds.
    pub open spec fn leftmost(self) -> u64
        decreases self,
    {
        match self.left {
            None => self.value,
            Some(l) => l.leftmost(),
        }
    }

    /// The value the replacement finder reports: the in-order predecessor
    /// out of the left subtree when a left child exists, else the in-order
    /// successor out of the right subtree, else nothing.
    pub open spec fn spec_replacement(self) -> Option<u64> {
        if self.left is Some {
            Some(self.left.unwrap().rightmost())
        } else if self.right is Some {
            Some(self.right.unwrap().leftmost())
        } else {
            None
        }
    }

    /// Finds the value whose node replaces this one when this node is
    /// deleted with two children present. Preferring the predecessor when a
    /// left child exists is a policy choice, not a universal convention; the
    /// node found this way has at most one child, which keeps its detachment
    /// simple.
    pub fn replacement(&self) -> (r: Option<u64>)
        ensures
            r == self.spec_replacement(),
    {
        match &self.left {
            Some(l) => {
                let mut cur: &Box<AVLNode> = l;
                while cur.right.is_some()
                    invariant
                        cur.rightmost() == self.left.unwrap().rightmost(),
                    decreases *cur,
                {
                    cur = cur.right.as_ref().unwrap();
                }
                Some(cur.value)
            },
            None => match &self.right {
                Some(rn) => {
                    let mut cur: &Box<AVLNode> = rn;
                    while cur.left.is_some()
                        invariant
                            cur.leftmost() == self.right.unwrap().leftmost(),
                        decreases *cur,
                    {
                        cur = cur.left.as_ref().unwrap();
                    }
                    Some(cur.value)
                },
                None => None,
            },
        }
    }

    /// Single rotation: promotes the child opposite `side` into this node's
    /// structural position and demotes this node to that child's `side`
    /// child. The promoted child's `side` subtree moves over to this node's
    /// opposite slot, and both reshaped nodes get their cached heights
    /// recomputed bottom-up. In-order sequence over the affected subtree is
    /// preserved.
    pub fn rotate(&mut self, side: Side)
        requires
            old(self).spec_child(side.spec_not()) is Some,
            cached_height(old(self).spec_child(side)) <= usize::MAX - 2,
            cached_height(old(self).spec_child(side.spec_not()).unwrap().left) <= usize::MAX
                - 2,
            cached_height(old(self).spec_child(side.spec_not()).unwrap().right) <= usize::MAX
                - 2,
        ensures
            ({
                let z = *old(self).spec_child(side.spec_not()).unwrap();
                &&& final(self).value == z.value
                &&& final(self).spec_child(side.spec_not()) == z.spec_child(side.spec_not())
                &&& final(self).spec_child(side) is Some
                &&& ({
                    let x2 = *final(self).spec_child(side).unwrap();
                    &&& x2.value == old(self).value
                    &&& x2.spec_child(side) == old(self).spec_child(side)
                    &&& x2.spec_child(side.spec_not()) == z.spec_child(side)
                    &&& x2.height as int == x2.recomputed_height()
                })
                &&& final(self).height as int == final(self).recomputed_height()
            }),
    {
        let o = side.not();
        let mut z: Box<AVLNode> = self.child_mut(o, None).unwrap();
        let t = z.child_mut(side, None);
        self.child_mut(o, t);
        self.update_height();
        core::mem::swap(self, &mut *z);
        self.child_mut(side, Some(z));
        self.update_height();
    }

    /// Balance factor: cached right-child height minus cached left-child
    /// height. Stays in [-1, 1] on a well-formed tree and reaches +/-2 only
    /// transiently inside the rebalancer.
    pub fn balance_factor(&self) -> (b: i8)
        requires
            -127 <= self.spec_balance_factor() <= 127,
        ensures
            b as int == self.spec_balance_factor(),
    {
        let l = self.height(Side::Left);
        let r = self.height(Side::Right);
        if l < r {
            (r - l) as i8
        } else {
            -((l - r) as i8)
        }
    }
}

/// Under search order, the deepest right-descendant holds the subtree's
/// largest value; it is the in-order predecessor of whatever sits just above
/// the subtree on the right.
pub proof fn lemma_rightmost_max(n: AVLNode)
    requires
        n.bst(),
    ensures
        n.as_set().contains(n.rightmost()),
        forall|x: u64| n.as_set().contains(x) ==> x <= n.rightmost(),
    decreases n,
{
    match n.right {
        None => {
            assert forall|x: u64| n.as_set().contains(x) implies x <= n.rightmost() by {
                assert(opt_set(n.right) =~= Set::empty());
                if opt_set(n.left).contains(x) {
                    assert(x < n.value);
                } else {
                    assert(x == n.value);
                }
            }
        },
        Some(r) => {
            lemma_rightmost_max(*r);
            assert(n.rightmost() == r.rightmost());
            assert(r.as_set().contains(r.rightmost()));
            assert(opt_set(n.right).contains(n.rightmost()));
            assert(n.rightmost() > n.value);
            assert forall|x: u64| n.as_set().contains(x) implies x <= n.rightmost() by {
                if opt_set(n.left).contains(x) {
                    assert(x < n.value);
                } else if opt_set(n.right).contains(x) {
                    assert(r.as_set().contains(x));
                    assert(x <= r.rightmost());
                } else {
                    assert(x == n.value);
                }
            }
        },
    }
}

/// What a single rotation does to the subtree model. `x` is the node before
/// `rotate(side)`, `y` the node after; the equations between them are
/// exactly what `rotate` ensures. Given search order and accurate cached
/// heights below `x`, the rotated subtree holds the same values, keeps
/// search order, has accurate cached heights, and its height is determined
/// by the heights of the three moved subtrees.
pub proof fn lemma_rotate_effect(x: AVLNode, side: Side, y: AVLNode)
    requires
        x.spec_child(side.spec_not()) is Some,
        y.value == x.spec_child(side.spec_not()).unwrap().value,
        y.spec_child(side.spec_not()) == x.spec_child(side.spec_not()).unwrap().spec_child(
            side.spec_not(),
        ),
        y.spec_child(side) is Some,
        ({
            let x2 = *y.spec_child(side).unwrap();
            &&& x2.value == x.value
            &&& x2.spec_child(side) == x.spec_child(side)
            &&& x2.spec_child(side.spec_not()) == x.spec_child(side.spec_not()).unwrap().spec_child(
                side,
            )
            &&& x2.height as int == x2.recomputed_height()
        }),
        y.height as int == y.recomputed_height(),
        opt_bst(x.spec_child(side)),
        x.spec_child(side.spec_not()).unwrap().bst(),
        x.spec_child(side.spec_not()).unwrap().heights_ok(),
        opt_heights_ok(x.spec_child(side)),
        forall|v: u64| #[trigger] opt_set(x.spec_child(side)).contains(v) ==> side_ord(
            side,
            v,
            x.value,
        ),
        forall|v: u64| #[trigger] opt_set(x.spec_child(side.spec_not())).contains(v)
            ==> side_ord(side.spec_not(), v, x.value),
    ensures
        y.as_set() =~= x.as_set(),
        y.bst(),
        y.heights_ok(),
        ({
            let z = *x.spec_child(side.spec_not()).unwrap();
            let x2 = *y.spec_child(side).unwrap();
            &&& x2.bst()
            &&& x2.heights_ok()
            &&& x2.as_set() =~= opt_set(x.spec_child(side)).union(
                opt_set(z.spec_child(side)),
            ).insert(x.value)
            &&& x2.real_height() == 1 + max_nat(
                opt_height(x.spec_child(side)),
                opt_height(z.spec_child(side)),
            )
            &&& y.real_height() == 1 + max_nat(
                x2.real_height(),
                opt_height(z.spec_child(side.spec_not())),
            )
            &&& opt_height(z.spec_child(side)) <= opt_height(x.spec_child(side.spec_not())) - 1
            &&& opt_height(z.spec_child(side.spec_not())) <= opt_height(
                x.spec_child(side.spec_not()),
            ) - 1
        }),
{
    let z = *x.spec_child(side.spec_not()).unwrap();
    let x2 = *y.spec_child(side).unwrap();
    lemma_cached_is_real(x.spec_child(side));
    lemma_cached_is_real(z.spec_child(side));
    lemma_cached_is_real(z.spec_child(side.spec_not()));
    assert(opt_set(x.spec_child(side.spec_not())) == z.as_set());
    assert(z.as_set() == opt_set(z.left).union(opt_set(z.right)).insert(z.value));
    assert(z.as_set().contains(z.value));
    assert forall|v: u64| opt_set(z.spec_child(side)).contains(v) implies side_ord(
        side.spec_not(),
        v,
        x.value,
    ) by {
        assert(z.as_set().contains(v));
    }
    assert forall|v: u64| opt_set(z.spec_child(side.spec_not())).contains(v) implies side_ord(
        side.spec_not(),
        v,
        x.value,
    ) by {
        assert(z.as_set().contains(v));
    }
    assert(side_ord(side.spec_not(), z.value, x.value)) by {
        assert(z.as_set().contains(z.value));
    }
    match side {
        Side::Left => {
            assert(x2.left == x.left && x2.right == z.left && y.right == z.right);
            assert(opt_set(y.left) == x2.as_set());
            assert(x2.as_set() =~= opt_set(x.left).union(opt_set(z.left)).insert(x.value));
            assert forall|v: u64| opt_set(x.left).contains(v) implies v < x.value by {
                assert(opt_set(x.spec_child(side)).contains(v));
            }
            assert(x2.bst());
            assert(x2.heights_ok());
            assert forall|v: u64| x2.as_set().contains(v) implies v < y.value by {
                if opt_set(z.left).contains(v) {
                    assert(z.as_set().contains(v));
                }
            }
            assert(y.bst());
            assert(y.heights_ok());
            assert(y.as_set() =~= x.as_set());
        },
        Side::Right => {
            assert(x2.right == x.right && x2.left == z.right && y.left == z.left);
            assert(opt_set(y.right) == x2.as_set());
            assert(x2.as_set() =~= opt_set(x.right).union(opt_set(z.right)).insert(x.value));
            assert forall|v: u64| opt_set(x.right).contains(v) implies v > x.value by {
                assert(opt_set(x.spec_child(side)).contains(v));
            }
            assert(x2.bst());
            assert(x2.heights_ok());
            assert forall|v: u64| x2.as_set().contains(v) implies v > y.value by {
                if opt_set(z.right).contains(v) {
                    assert(z.as_set().contains(v));
                }
            }
            assert(y.bst());
            assert(y.heights_ok());
            assert(y.as_set() =~= x.as_set());
        },
    }
}

} // verus!
