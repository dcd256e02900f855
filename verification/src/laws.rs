//! Laws of the tree as a whole: the in-order listing is the strictly
//! ascending sequence of exactly the present values, the height is bounded
//! through the Fibonacci numbers, and an insert of an absent value followed
//! by its removal restores the earlier value set.

use vstd::prelude::*;
use crate::node::{AVLNode, opt_balanced, opt_bst, opt_height, opt_seq, opt_set};
use crate::tree::AVLTree;

verus! {

/// Strictly ascending: every earlier element is smaller than every later
/// one; in particular no value repeats.
pub open spec fn sorted_strict(s: Seq<u64>) -> bool {
    forall|i: int, j: int| 0 <= i < j < s.len() ==> s[i] < s[j]
}

/// Under search order, an in-order listing is strictly ascending and holds
/// exactly the subtree's values.
proof fn lemma_bst_sorted(o: Option<Box<AVLNode>>)
    requires
        opt_bst(o),
    ensures
        sorted_strict(opt_seq(o)),
        forall|x: u64| #[trigger] opt_seq(o).contains(x) <==> opt_set(o).contains(x),
    decreases o,
{
    match o {
        None => {
            assert forall|x: u64| #[trigger] opt_seq(o).contains(x) <==> opt_set(o).contains(
                x,
            ) by {
                assert(!opt_seq(o).contains(x));
                assert(!opt_set(o).contains(x));
            }
        },
        Some(n) => {
            lemma_bst_sorted(n.left);
            lemma_bst_sorted(n.right);
            let s = opt_seq(o);
            let l = opt_seq(n.left);
            let r = opt_seq(n.right);
            assert(s == l + seq![n.value] + r);
            assert forall|x: u64| #[trigger] s.contains(x) <==> opt_set(o).contains(x) by {
                if s.contains(x) {
                    let i = choose|i: int| 0 <= i < s.len() && s[i] == x;
                    if i < l.len() {
                        assert(l[i] == x);
                        assert(l.contains(x));
                    } else if i == l.len() {
                        assert(x == n.value);
                    } else {
                        assert(r[i - l.len() - 1] == x);
                        assert(r.contains(x));
                    }
                    assert(opt_set(o).contains(x));
                }
                if opt_set(o).contains(x) {
                    if opt_set(n.left).contains(x) {
                        assert(l.contains(x));
                        let i = choose|i: int| 0 <= i < l.len() && l[i] == x;
                        assert(s[i] == x);
                    } else if opt_set(n.right).contains(x) {
                        assert(r.contains(x));
                        let i = choose|i: int| 0 <= i < r.len() && r[i] == x;
                        assert(s[l.len() + 1 + i] == x);
                    } else {
                        assert(x == n.value);
                        assert(s[l.len() as int] == x);
                    }
                    assert(s.contains(x));
                }
            }
            assert forall|i: int, j: int| 0 <= i < j < s.len() implies s[i] < s[j] by {
                if j < l.len() {
                    assert(s[i] == l[i] && s[j] == l[j]);
                } else if i > l.len() {
                    assert(s[i] == r[i - l.len() - 1] && s[j] == r[j - l.len() - 1]);
                } else {
                    if i < l.len() {
                        assert(s[i] == l[i]);
                        assert(l.contains(l[i]));
                        assert(opt_set(n.left).contains(s[i]));
                        assert(s[i] < n.value);
                    } else {
                        assert(s[i] == n.value);
                    }
                    if j > l.len() {
                        assert(s[j] == r[j - l.len() - 1]);
                        assert(r.contains(r[j - l.len() - 1]));
                        assert(opt_set(n.right).contains(s[j]));
                        assert(s[j] > n.value);
                    } else {
                        assert(s[j] == n.value);
                    }
                }
            }
        },
    }
}

/// After any sequence of operations — each of which keeps the tree
/// well-formed — the in-order traversal lists the currently-present values
/// in strictly ascending order, with no duplicates; in particular its
/// length counts the present values.
pub proof fn lemma_in_order_sorted(t: AVLTree)
    requires
        t.wf(),
    ensures
        sorted_strict(t.spec_in_order()),
        forall|x: u64| #[trigger] t.spec_in_order().contains(x) <==> t@.contains(x),
        t@.finite(),
        t@.len() == t.spec_in_order().len(),
{
    lemma_bst_sorted(t.root);
    let s = t.spec_in_order();
    assert(s.no_duplicates()) by {
        assert forall|i: int, j: int|
            0 <= i < s.len() && 0 <= j < s.len() && i != j implies s[i] != s[j] by {
            if i < j {
                assert(s[i] < s[j]);
            } else {
                assert(s[j] < s[i]);
            }
        }
    }
    s.unique_seq_to_set();
    vstd::seq_lib::seq_to_set_is_finite(s);
    assert(s.to_set() =~= t@) by {
        assert(forall|x: u64| s.to_set().contains(x) <==> #[trigger] s.contains(x));
    }
}

/// The Fibonacci numbers: the extremal size/height trade-off of balanced
/// trees.
pub open spec fn spec_fib(n: nat) -> nat
    decreases n,
{
    if n == 0 {
        0
    } else if n == 1 {
        1
    } else {
        spec_fib((n - 1) as nat) + spec_fib((n - 2) as nat)
    }
}

proof fn lemma_fib_mono(a: nat, b: nat)
    requires
        a <= b,
    ensures
        spec_fib(a) <= spec_fib(b),
    decreases b,
{
    if a < b {
        if b >= 2 {
            lemma_fib_mono(a, (b - 1) as nat);
        }
    }
}

/// A balanced subtree of height h holds at least fib(h + 2) - 1 values.
proof fn lemma_count_fib(o: Option<Box<AVLNode>>)
    requires
        opt_balanced(o),
    ensures
        spec_fib(opt_height(o) + 2) <= opt_seq(o).len() + 1,
    decreases o,
{
    match o {
        None => {
            assert(spec_fib(2) == spec_fib(1) + spec_fib(0));
        },
        Some(n) => {
            lemma_count_fib(n.left);
            lemma_count_fib(n.right);
            let hl = opt_height(n.left);
            let hr = opt_height(n.right);
            assert(opt_seq(o).len() == opt_seq(n.left).len() + 1 + opt_seq(n.right).len());
            if hl >= hr {
                lemma_fib_mono(hl + 1, hr + 2);
                assert(spec_fib(hl + 3) == spec_fib(hl + 2) + spec_fib(hl + 1));
                assert(opt_height(o) == hl + 1);
            } else {
                lemma_fib_mono(hr + 1, hl + 2);
                assert(spec_fib(hr + 3) == spec_fib(hr + 2) + spec_fib(hr + 1));
                assert(opt_height(o) == hr + 1);
            }
        },
    }
}

/// After any sequence of operations the tree stays shallow: with n present
/// values and height h, fib(h + 2) <= n + 1. This is the integer form of
/// h <= 1.44 * log2(n + 2), since fib grows as the golden ratio to the h
/// and 1/log2(golden ratio) is about 1.44.
pub proof fn lemma_height_fib_bound(t: AVLTree)
    requires
        t.wf(),
    ensures
        spec_fib(t.spec_height() + 2) <= t.spec_in_order().len() + 1,
        spec_fib(t.spec_height() + 2) <= t@.len() + 1,
{
    lemma_count_fib(t.root);
    lemma_in_order_sorted(t);
}

/// Inserting a value that was absent and then removing it restores exactly
/// the set of present values from before the insertion. `insert` and
/// `remove` each pin the tree's new value set, so the round trip reduces to
/// this law of sets.
pub proof fn lemma_insert_then_remove(s: Set<u64>, x: u64)
    requires
        !s.contains(x),
    ensures
        s.insert(x).remove(x) == s,
{
    assert(s.insert(x).remove(x) =~= s);
}

} // verus!
