//! What holds of every node of a well-formed subtree: it is within its
//! capacity, and where it is a leaf, its neighbours in the chain of leaves
//! name it in turn.

use crate::order::TotalOrder;
use crate::shape::{
    apart, Bounds, child_bounds, common_of, Degrees, in_subtree, leaf_of, leftmost,
    lemma_end_leaves, rightmost, seam, subtree,
};
use crate::types::NodeView;
use vstd::prelude::*;

verus! {

/// The node is within its capacity: a leaf holds as many values as keys
/// and no more than its degree; an internal node holds no more keys than
/// its degree, and one child more than keys.
pub open spec fn within_capacity<K, V>(node: NodeView<K, V>, d: Degrees) -> bool {
    match node {
        NodeView::Leaf(l) => l.values.len() == l.keys.len() && l.keys.len() <= d.leaf,
        NodeView::Common(c) => c.keys.len() <= d.common && c.childs.len() == c.keys.len() + 1,
    }
}

/// Every node of a well-formed subtree is within its capacity.
pub proof fn lemma_member_capacity<K: TotalOrder, V>(
    s: Seq<NodeView<K, V>>,
    id: int,
    h: nat,
    b: Bounds<K>,
    d: Degrees,
    x: int,
)
    requires
        subtree(s, id, h, b, d),
        in_subtree(s, id, h, x),
    ensures
        0 <= x < s.len(),
        within_capacity(s[x], d),
    decreases h,
{
    if x != id {
        let c = common_of(s, id);
        let j = choose|j: int|
            0 <= j < c.childs.len() && in_subtree(s, #[trigger] c.childs[j], (h - 1) as nat, x);
        lemma_member_capacity(s, c.childs[j], (h - 1) as nat, child_bounds(c.keys, b, j), d, x);
    }
}

/// The leaf at `x` and the leaf that it names as its right neighbour, if
/// any, name each other; so do the leaf and its left neighbour.
pub open spec fn linked_both_ways<K, V>(s: Seq<NodeView<K, V>>, x: int) -> bool {
    &&& leaf_of(s, x).right matches Some(r) ==> (0 <= r < s.len() && s[r] is Leaf && leaf_of(
        s,
        r,
    ).left == Some(x))
    &&& leaf_of(s, x).left matches Some(l) ==> (0 <= l < s.len() && s[l] is Leaf && leaf_of(
        s,
        l,
    ).right == Some(x))
}

/// A leaf of a well-formed subtree that is not its last leaf names as its
/// right neighbour a leaf of the subtree that names it as its left
/// neighbour; likewise on the left for a leaf that is not the first.
pub proof fn lemma_member_links<K: TotalOrder, V>(
    s: Seq<NodeView<K, V>>,
    id: int,
    h: nat,
    b: Bounds<K>,
    d: Degrees,
    x: int,
)
    requires
        subtree(s, id, h, b, d),
        in_subtree(s, id, h, x),
        s[x] is Leaf,
    ensures
        x != rightmost(s, id, h) ==> (leaf_of(s, x).right matches Some(r) && in_subtree(
            s,
            id,
            h,
            r,
        ) && s[r] is Leaf && leaf_of(s, r).left == Some(x)),
        x != leftmost(s, id, h) ==> (leaf_of(s, x).left matches Some(l) && in_subtree(s, id, h, l)
            && s[l] is Leaf && leaf_of(s, l).right == Some(x)),
    decreases h,
{
    if h > 0 {
        let c = common_of(s, id);
        let kids = c.childs;
        let g = (h - 1) as nat;
        let n = c.keys.len() as int;
        let j = choose|j: int| 0 <= j < kids.len() && in_subtree(s, #[trigger] kids[j], g, x);
        lemma_member_links(s, kids[j], g, child_bounds(c.keys, b, j), d, x);
        lemma_end_leaves(s, kids[j], g, child_bounds(c.keys, b, j), d);
        if x == rightmost(s, kids[j], g) && j < n {
            assert(seam(s, kids, c.keys, g, j));
            lemma_end_leaves(s, kids[j + 1], g, child_bounds(c.keys, b, j + 1), d);
            let r = leftmost(s, kids[j + 1], g);
            assert(in_subtree(s, kids[j + 1], g, r));
            assert(in_subtree(s, id, h, r));
        }
        if x == leftmost(s, kids[j], g) && j > 0 {
            assert(seam(s, kids, c.keys, g, j - 1));
            lemma_end_leaves(s, kids[j - 1], g, child_bounds(c.keys, b, j - 1), d);
            let l = rightmost(s, kids[j - 1], g);
            assert(in_subtree(s, kids[j - 1], g, l));
            assert(in_subtree(s, id, h, l));
        }
        if x != rightmost(s, kids[j], g) {
            let r = leaf_of(s, x).right.unwrap();
            assert(in_subtree(s, id, h, r));
        }
        if x != leftmost(s, kids[j], g) {
            let l = leaf_of(s, x).left.unwrap();
            assert(in_subtree(s, id, h, l));
        }
        if x == rightmost(s, id, h) && j < n {
            // the last leaf of the subtree lies under the last child only
            lemma_end_leaves(s, kids[n], g, child_bounds(c.keys, b, n), d);
            assert(apart(s, kids, g, j, n));
        }
        if x == leftmost(s, id, h) && j > 0 {
            lemma_end_leaves(s, kids[0], g, child_bounds(c.keys, b, 0), d);
            assert(apart(s, kids, g, 0, j));
        }
    }
}

/// Every leaf of the arena and its neighbours name each other.
pub open spec fn chain_consistent<K, V>(s: Seq<NodeView<K, V>>) -> bool {
    forall|x: int| 0 <= x < s.len() && #[trigger] s[x] is Leaf ==> linked_both_ways(s, x)
}

/// The leaf reached from the leaf `x` by `n` steps to the right, if the
/// chain is that long.
pub open spec fn walk_right<K, V>(s: Seq<NodeView<K, V>>, x: int, n: nat) -> Option<int>
    decreases n,
{
    if n == 0 {
        Some(x)
    } else {
        match leaf_of(s, x).right {
            Some(r) => walk_right(s, r, (n - 1) as nat),
            None => None,
        }
    }
}

/// The leaf reached from the leaf `y` by `n` steps to the left, if the
/// chain is that long.
pub open spec fn walk_left<K, V>(s: Seq<NodeView<K, V>>, y: int, n: nat) -> Option<int>
    decreases n,
{
    if n == 0 {
        Some(y)
    } else {
        match walk_left(s, y, (n - 1) as nat) {
            Some(z) => leaf_of(s, z).left,
            None => None,
        }
    }
}

/// In a consistent chain, as many steps to the left as were made to the
/// right lead back to the start.
pub proof fn lemma_walk_back<K, V>(s: Seq<NodeView<K, V>>, x: int, n: nat, y: int)
    requires
        chain_consistent(s),
        0 <= x < s.len(),
        s[x] is Leaf,
        walk_right(s, x, n) == Some(y),
    ensures
        0 <= y < s.len(),
        s[y] is Leaf,
        walk_left(s, y, n) == Some(x),
    decreases n,
{
    if n > 0 {
        assert(linked_both_ways(s, x));
        let r = leaf_of(s, x).right.unwrap();
        lemma_walk_back(s, r, (n - 1) as nat, y);
    }
}

} // verus!
