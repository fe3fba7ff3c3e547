//! The mathematical shape of the flattened routing tree: a window of
//! nodes is a forest when each node's `child_span` delimits a complete
//! subtree lying immediately after it.

use crate::TreeNode;
use vstd::prelude::*;

verus! {

/// `[lo, hi)` is a sequence of complete subtrees in pre-order: the
/// first node's descendants are exactly the `child_span` nodes after
/// it, recursively, and its next sibling starts the rest.
pub open spec fn is_forest(tree: Seq<TreeNode>, lo: int, hi: int) -> bool
    decreases hi - lo,
{
    if lo >= hi {
        true
    } else {
        &&& 0 <= lo
        &&& hi <= tree.len()
        &&& lo + tree[lo].child_span + 1 <= hi
        &&& is_forest(tree, lo + 1, lo + tree[lo].child_span + 1)
        &&& is_forest(tree, lo + tree[lo].child_span + 1, hi)
    }
}

/// Sum of `child_span + 1` over the chain of siblings starting at
/// `lo`, walking by subtree skips, up to `hi`.
pub open spec fn sibling_sum(tree: Seq<TreeNode>, lo: int, hi: int) -> int
    decreases hi - lo,
{
    if lo < 0 || lo >= hi || lo >= tree.len() {
        0
    } else if lo + tree[lo].child_span + 1 <= hi {
        tree[lo].child_span + 1 + sibling_sum(tree, lo + tree[lo].child_span + 1, hi)
    } else {
        tree[lo].child_span + 1
    }
}

/// In a forest window, the sibling chain covers the window exactly.
pub proof fn lemma_sibling_sum_total(tree: Seq<TreeNode>, lo: int, hi: int)
    requires
        is_forest(tree, lo, hi),
    ensures
        lo <= hi ==> sibling_sum(tree, lo, hi) == hi - lo,
    decreases hi - lo,
{
    if lo < hi {
        lemma_sibling_sum_total(tree, lo + tree[lo].child_span + 1, hi);
    }
}

/// Every node of a forest window heads a complete subtree that stays
/// inside the window.
pub proof fn lemma_node_subtree(tree: Seq<TreeNode>, lo: int, hi: int, i: int)
    requires
        is_forest(tree, lo, hi),
        lo <= i < hi,
    ensures
        i + tree[i].child_span + 1 <= hi,
        is_forest(tree, i + 1, i + tree[i].child_span + 1),
    decreases hi - lo,
{
    if i == lo {
    } else if i < lo + tree[lo].child_span + 1 {
        lemma_node_subtree(tree, lo + 1, lo + tree[lo].child_span + 1, i);
    } else {
        lemma_node_subtree(tree, lo + tree[lo].child_span + 1, hi, i);
    }
}

/// A window is a forest exactly when the same nodes, taken as their
/// own sequence, are one.
pub proof fn lemma_forest_shift(t: Seq<TreeNode>, off: int, n: int)
    requires
        0 <= off,
        0 <= n,
        off + n <= t.len(),
    ensures
        is_forest(t, off, off + n) <==> is_forest(t.subrange(off, off + n), 0, n),
    decreases n,
{
    let u = t.subrange(off, off + n);
    if n > 0 {
        let s = t[off].child_span as int;
        if s + 1 <= n {
            assert(u.subrange(1, s + 1) =~= t.subrange(off + 1, off + s + 1));
            assert(u.subrange(s + 1, n) =~= t.subrange(off + s + 1, off + n));
            lemma_forest_shift(t, off + 1, s);
            lemma_forest_shift(t, off + s + 1, n - s - 1);
            lemma_forest_shift(u, 1, s);
            lemma_forest_shift(u, s + 1, n - s - 1);
        }
    }
}

/// Two adjacent forests form one forest.
pub proof fn lemma_forest_join(t: Seq<TreeNode>, lo: int, mid: int, hi: int)
    requires
        lo <= mid <= hi,
        is_forest(t, lo, mid),
        is_forest(t, mid, hi),
    ensures
        is_forest(t, lo, hi),
    decreases mid - lo,
{
    if lo < mid {
        lemma_forest_join(t, lo + t[lo].child_span + 1, mid, hi);
    }
}

/// Law: in a well-formed tree, any node's `child_span` equals the sum
/// of `child_span + 1` over its direct children.
pub proof fn lemma_child_span_partition(tree: Seq<TreeNode>, i: int)
    requires
        is_forest(tree, 0, tree.len() as int),
        0 <= i < tree.len(),
    ensures
        sibling_sum(tree, i + 1, i + tree[i].child_span + 1) == tree[i].child_span,
{
    lemma_node_subtree(tree, 0, tree.len() as int, i);
    lemma_sibling_sum_total(tree, i + 1, i + tree[i].child_span + 1);
}

} // verus!
