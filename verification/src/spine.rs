//! What a subtree keeps when only its first or its last leaf changes: a
//! neighbour that hands over an entry, or a link that is set anew.

use crate::entries::{lemma_kids_entries_concat, lemma_kids_entries_one};
use crate::leaf_node::LeafView;
use crate::order::{lemma_total_order, TotalOrder};
use crate::shape::{
    above, apart, below, Bounds, child_bounds, common_of, Degrees, entries, in_subtree, inside,
    kids_entries, leaf_entries, leaf_of, leaf_ok, leftmost, lemma_end_leaves, lemma_frame,
    lemma_kids_entries_eq, min_key, rightmost, same_shape, seam, subtree,
};
use crate::types::NodeView;
use vstd::prelude::*;

verus! {

/// The subtree at `id` has the same nodes and the same end leaves in `s1`
/// as in `s`.
pub open spec fn same_nodes<K, V>(s: Seq<NodeView<K, V>>, s1: Seq<NodeView<K, V>>, id: int, h: nat) -> bool {
    &&& forall|x: int|
        #![trigger in_subtree(s1, id, h, x)]
        #![trigger in_subtree(s, id, h, x)]
        in_subtree(s1, id, h, x) == in_subtree(s, id, h, x)
    &&& leftmost(s1, id, h) == leftmost(s, id, h)
    &&& rightmost(s1, id, h) == rightmost(s, id, h)
}

/// Leaf `l1` is leaf `l0` with `k` entries put in front.
pub open spec fn grown_in_front<K, V>(l1: LeafView<K, V>, l0: LeafView<K, V>, k: int) -> bool {
    &&& 0 <= k
    &&& l1.keys.len() == l0.keys.len() + k
    &&& l1.values.len() == l0.values.len() + k
    &&& l1.keys.subrange(k, l1.keys.len() as int) == l0.keys
    &&& l1.values.subrange(k, l1.values.len() as int) == l0.values
    &&& l1.right == l0.right
}

/// Leaf `l1` is leaf `l0` with `k` entries put behind.
pub open spec fn grown_behind<K, V>(l1: LeafView<K, V>, l0: LeafView<K, V>, k: int) -> bool {
    &&& 0 <= k
    &&& l1.keys.len() == l0.keys.len() + k
    &&& l1.values.len() == l0.values.len() + k
    &&& l1.keys.subrange(0, l0.keys.len() as int) == l0.keys
    &&& l1.values.subrange(0, l0.values.len() as int) == l0.values
    &&& l1.left == l0.left
}

/// A subtree whose first leaf gained `k` entries in front, or had its left
/// link set anew, is well formed under a lower bound that still admits
/// the leaf's first key; its entries are the new ones, then the old.
pub proof fn lemma_first_leaf_changed<K: TotalOrder, V>(
    s: Seq<NodeView<K, V>>,
    s1: Seq<NodeView<K, V>>,
    id: int,
    h: nat,
    b: Bounds<K>,
    lo: Option<K>,
    d: Degrees,
    k: int,
)
    requires
        subtree(s, id, h, b, d),
        s.len() <= s1.len(),
        forall|x: int|
            in_subtree(s, id, h, x) && x != leftmost(s, id, h) ==> #[trigger] s1[x] == s[x],
        s1[leftmost(s, id, h)] is Leaf,
        leaf_ok(leaf_of(s1, leftmost(s, id, h)), d),
        grown_in_front(leaf_of(s1, leftmost(s, id, h)), leaf_of(s, leftmost(s, id, h)), k),
        above(lo, leaf_of(s1, leftmost(s, id, h)).keys.first()),
        lo matches Some(x) ==> b.lo matches Some(y) && x.le(y),
    ensures
        subtree(s1, id, h, Bounds { lo, hi: b.hi }, d),
        same_nodes(s, s1, id, h),
        entries(s1, id, h) == leaf_entries(leaf_of(s1, leftmost(s, id, h))).subrange(0, k)
            + entries(s, id, h),
    decreases h,
{
    lemma_total_order::<K>();
    let lm = leftmost(s, id, h);
    let l1 = leaf_of(s1, lm);
    let l0 = leaf_of(s, lm);
    let b1 = Bounds { lo, hi: b.hi };
    lemma_end_leaves(s, id, h, b, d);
    if h == 0 {
        assert forall|i: int| 0 <= i < l1.keys.len() implies inside(#[trigger] l1.keys[i], b1) by {
            if i > 0 {
                assert(l1.keys[0].le(l1.keys[i]));
            }
            if i < k {
                assert(l1.keys[i].le(l1.keys[k]));
                assert(l1.keys[k] == l0.keys[0]);
                assert(inside(l0.keys[0], b));
            } else {
                assert(l1.keys[i] == l0.keys[i - k]);
                assert(inside(l0.keys[i - k], b));
            }
        }
        assert(leaf_entries(l1) =~= leaf_entries(l1).subrange(0, k) + leaf_entries(l0)) by {
            assert forall|i: int| k <= i < l1.keys.len() implies leaf_entries(l1)[i]
                == leaf_entries(l0)[i - k] by {
                assert(l1.keys[i] == l0.keys[i - k]);
                assert(l1.values[i] == l0.values[i - k]);
            }
        }
    } else {
        let c = common_of(s, id);
        let kids = c.childs;
        let g = (h - 1) as nat;
        assert(s1[id] == s[id]);
        assert(subtree(s, kids[0], g, child_bounds(c.keys, b, 0), d));
        lemma_end_leaves(s, kids[0], g, child_bounds(c.keys, b, 0), d);
        assert forall|x: int| in_subtree(s, kids[0], g, x) && x != lm implies #[trigger] s1[x]
            == s[x] by {
            assert(in_subtree(s, id, h, x));
        }
        lemma_first_leaf_changed(s, s1, kids[0], g, child_bounds(c.keys, b, 0), lo, d, k);
        assert(child_bounds(c.keys, b1, 0) == Bounds { lo, hi: child_bounds(c.keys, b, 0).hi });
        assert forall|j: int| 1 <= j < kids.len() implies subtree(
            s1,
            #[trigger] kids[j],
            g,
            child_bounds(c.keys, b1, j),
            d,
        ) && same_shape(s, s1, kids[j], g) by {
            assert(apart(s, kids, g, 0, j));
            assert forall|x: int| in_subtree(s, kids[j], g, x) implies #[trigger] s1[x]
                == s[x] by {
                assert(in_subtree(s, id, h, x));
            }
            lemma_frame(s, s1, kids[j], g, child_bounds(c.keys, b, j), d);
            assert(child_bounds(c.keys, b1, j) == child_bounds(c.keys, b, j));
        }
        assert forall|j: int| 0 <= j < kids.len() implies same_nodes(s, s1, #[trigger] kids[j], g) by {
            if j > 0 {
                assert(same_shape(s, s1, kids[j], g));
            }
        }
        assert forall|i: int| 0 <= i < c.keys.len() implies inside(#[trigger] c.keys[i], b1) by {
            assert(inside(c.keys[i], b));
        }
        assert forall|j: int, m: int| 0 <= j < m < kids.len() implies #[trigger] apart(
            s1,
            kids,
            g,
            j,
            m,
        ) by {
            assert(apart(s, kids, g, j, m));
            assert(same_nodes(s, s1, kids[j], g));
            assert(same_nodes(s, s1, kids[m], g));
        }
        assert forall|j: int| 0 <= j < c.keys.len() implies #[trigger] seam(s1, kids, c.keys, g, j) by {
            assert(seam(s, kids, c.keys, g, j));
            assert(same_nodes(s, s1, kids[j], g));
            assert(same_shape(s, s1, kids[j + 1], g));
            lemma_end_leaves(s, kids[j], g, child_bounds(c.keys, b, j), d);
            lemma_end_leaves(s, kids[j + 1], g, child_bounds(c.keys, b, j + 1), d);
            let a = rightmost(s, kids[j], g);
            let z = leftmost(s, kids[j + 1], g);
            assert(in_subtree(s, id, h, a));
            assert(in_subtree(s, id, h, z));
            assert(apart(s, kids, g, 0, j + 1));
            assert(s1[z] == s[z]);
            if a != lm {
                assert(s1[a] == s[a]);
            }
        }
        assert forall|j: int| 0 <= j < kids.len() implies !in_subtree(
            s1,
            #[trigger] kids[j],
            g,
            id,
        ) by {
            assert(same_nodes(s, s1, kids[j], g));
        }
        assert forall|x: int|
            #![trigger in_subtree(s1, id, h, x)]
            #![trigger in_subtree(s, id, h, x)]
            in_subtree(s1, id, h, x) == in_subtree(s, id, h, x) by {
            if in_subtree(s, id, h, x) && x != id {
                let j = choose|j: int|
                    0 <= j < kids.len() && in_subtree(s, #[trigger] kids[j], g, x);
                assert(same_nodes(s, s1, kids[j], g));
                assert(in_subtree(s1, kids[j], g, x));
                assert(common_of(s1, id).childs[j] == kids[j]);
                assert(in_subtree(s1, id, h, x));
            }
            if in_subtree(s1, id, h, x) && x != id {
                let j = choose|j: int|
                    0 <= j < kids.len() && in_subtree(s1, #[trigger] kids[j], g, x);
                assert(same_nodes(s, s1, kids[j], g));
                assert(in_subtree(s, kids[j], g, x));
                assert(in_subtree(s, id, h, x));
            }
        }
        assert(same_nodes(s, s1, kids[0], g));
        assert(same_nodes(s, s1, kids[kids.len() - 1], g));
        let head = seq![kids[0]];
        let tail = kids.subrange(1, kids.len() as int);
        assert(kids =~= head + tail);
        lemma_kids_entries_concat(s, head, tail, g);
        lemma_kids_entries_concat(s1, head, tail, g);
        lemma_kids_entries_one(s, kids[0], g);
        lemma_kids_entries_one(s1, kids[0], g);
        assert forall|j: int| 0 <= j < tail.len() implies entries(s1, #[trigger] tail[j], g)
            == entries(s, tail[j], g) by {
            assert(same_shape(s, s1, kids[j + 1], g));
        }
        lemma_kids_entries_eq(s, tail, s1, tail, g);
        let front = leaf_entries(l1).subrange(0, k);
        assert((front + entries(s, kids[0], g)) + kids_entries(s, tail, g) =~= front + (entries(
            s,
            kids[0],
            g,
        ) + kids_entries(s, tail, g)));
    }
}

/// A subtree whose last leaf gained `k` entries behind is well formed
/// under an upper bound that still admits the leaf's last key; its
/// entries are the old ones, then the new.
pub proof fn lemma_last_leaf_changed<K: TotalOrder, V>(
    s: Seq<NodeView<K, V>>,
    s1: Seq<NodeView<K, V>>,
    id: int,
    h: nat,
    b: Bounds<K>,
    hi: Option<K>,
    d: Degrees,
    k: int,
)
    requires
        subtree(s, id, h, b, d),
        s.len() <= s1.len(),
        forall|x: int|
            in_subtree(s, id, h, x) && x != rightmost(s, id, h) ==> #[trigger] s1[x] == s[x],
        s1[rightmost(s, id, h)] is Leaf,
        leaf_ok(leaf_of(s1, rightmost(s, id, h)), d),
        grown_behind(leaf_of(s1, rightmost(s, id, h)), leaf_of(s, rightmost(s, id, h)), k),
        below(leaf_of(s1, rightmost(s, id, h)).keys.last(), hi),
        hi matches Some(x) ==> b.hi matches Some(y) && y.le(x),
    ensures
        subtree(s1, id, h, Bounds { lo: b.lo, hi }, d),
        same_nodes(s, s1, id, h),
        entries(s1, id, h) == entries(s, id, h) + leaf_entries(
            leaf_of(s1, rightmost(s, id, h)),
        ).subrange(
            leaf_of(s, rightmost(s, id, h)).keys.len() as int,
            leaf_of(s1, rightmost(s, id, h)).keys.len() as int,
        ),
        min_key(s1, id, h) == min_key(s, id, h),
    decreases h,
{
    lemma_total_order::<K>();
    let rm = rightmost(s, id, h);
    let l1 = leaf_of(s1, rm);
    let l0 = leaf_of(s, rm);
    let n0 = l0.keys.len() as int;
    let n1 = l1.keys.len() as int;
    let b1 = Bounds { lo: b.lo, hi };
    lemma_end_leaves(s, id, h, b, d);
    if h == 0 {
        assert forall|i: int| 0 <= i < l1.keys.len() implies inside(#[trigger] l1.keys[i], b1) by {
            if i < n1 - 1 {
                assert(l1.keys[i].le(l1.keys[n1 - 1]));
            }
            if i >= n0 {
                assert(l1.keys[n0 - 1].le(l1.keys[i]));
                assert(l1.keys[n0 - 1] == l0.keys[n0 - 1]);
                assert(inside(l0.keys[n0 - 1], b));
            } else {
                assert(l1.keys[i] == l0.keys[i]);
                assert(inside(l0.keys[i], b));
            }
        }
        assert(leaf_entries(l1) =~= leaf_entries(l0) + leaf_entries(l1).subrange(n0, n1)) by {
            assert forall|i: int| 0 <= i < n0 implies leaf_entries(l1)[i] == leaf_entries(
                l0,
            )[i] by {
                assert(l1.keys[i] == l0.keys[i]);
                assert(l1.values[i] == l0.values[i]);
            }
        }
        assert(l1.keys[0] == l0.keys[0]);
    } else {
        let c = common_of(s, id);
        let kids = c.childs;
        let g = (h - 1) as nat;
        let n = c.keys.len() as int;
        assert(s1[id] == s[id]);
        assert(subtree(s, kids[n], g, child_bounds(c.keys, b, n), d));
        lemma_end_leaves(s, kids[n], g, child_bounds(c.keys, b, n), d);
        assert forall|x: int| in_subtree(s, kids[n], g, x) && x != rm implies #[trigger] s1[x]
            == s[x] by {
            assert(in_subtree(s, id, h, x));
        }
        lemma_last_leaf_changed(s, s1, kids[n], g, child_bounds(c.keys, b, n), hi, d, k);
        assert(child_bounds(c.keys, b1, n) == Bounds { lo: child_bounds(c.keys, b, n).lo, hi });
        assert forall|j: int| 0 <= j < n implies subtree(
            s1,
            #[trigger] kids[j],
            g,
            child_bounds(c.keys, b1, j),
            d,
        ) && same_shape(s, s1, kids[j], g) by {
            assert(apart(s, kids, g, j, n));
            assert forall|x: int| in_subtree(s, kids[j], g, x) implies #[trigger] s1[x]
                == s[x] by {
                assert(in_subtree(s, id, h, x));
            }
            lemma_frame(s, s1, kids[j], g, child_bounds(c.keys, b, j), d);
            assert(child_bounds(c.keys, b1, j) == child_bounds(c.keys, b, j));
        }
        assert forall|j: int| 0 <= j < kids.len() implies same_nodes(s, s1, #[trigger] kids[j], g) by {
            if j < n {
                assert(same_shape(s, s1, kids[j], g));
            }
        }
        assert forall|i: int| 0 <= i < c.keys.len() implies inside(#[trigger] c.keys[i], b1) by {
            assert(inside(c.keys[i], b));
        }
        assert forall|j: int, m: int| 0 <= j < m < kids.len() implies #[trigger] apart(
            s1,
            kids,
            g,
            j,
            m,
        ) by {
            assert(apart(s, kids, g, j, m));
            assert(same_nodes(s, s1, kids[j], g));
            assert(same_nodes(s, s1, kids[m], g));
        }
        assert forall|j: int| 0 <= j < c.keys.len() implies #[trigger] seam(s1, kids, c.keys, g, j) by {
            assert(seam(s, kids, c.keys, g, j));
            assert(same_shape(s, s1, kids[j], g));
            assert(same_nodes(s, s1, kids[j + 1], g));
            lemma_end_leaves(s, kids[j], g, child_bounds(c.keys, b, j), d);
            lemma_end_leaves(s, kids[j + 1], g, child_bounds(c.keys, b, j + 1), d);
            let a = rightmost(s, kids[j], g);
            let z = leftmost(s, kids[j + 1], g);
            assert(in_subtree(s, id, h, a));
            assert(in_subtree(s, id, h, z));
            assert(apart(s, kids, g, j, n));
            assert(s1[a] == s[a]);
            if z != rm {
                assert(s1[z] == s[z]);
            }
        }
        assert forall|j: int| 0 <= j < kids.len() implies !in_subtree(
            s1,
            #[trigger] kids[j],
            g,
            id,
        ) by {
            assert(same_nodes(s, s1, kids[j], g));
        }
        assert forall|x: int|
            #![trigger in_subtree(s1, id, h, x)]
            #![trigger in_subtree(s, id, h, x)]
            in_subtree(s1, id, h, x) == in_subtree(s, id, h, x) by {
            if in_subtree(s, id, h, x) && x != id {
                let j = choose|j: int|
                    0 <= j < kids.len() && in_subtree(s, #[trigger] kids[j], g, x);
                assert(same_nodes(s, s1, kids[j], g));
                assert(in_subtree(s1, kids[j], g, x));
                assert(common_of(s1, id).childs[j] == kids[j]);
                assert(in_subtree(s1, id, h, x));
            }
            if in_subtree(s1, id, h, x) && x != id {
                let j = choose|j: int|
                    0 <= j < kids.len() && in_subtree(s1, #[trigger] kids[j], g, x);
                assert(same_nodes(s, s1, kids[j], g));
                assert(in_subtree(s, kids[j], g, x));
                assert(in_subtree(s, id, h, x));
            }
        }
        assert(same_nodes(s, s1, kids[0], g));
        assert(same_nodes(s, s1, kids[n], g));
        if n >= 1 {
            assert(same_shape(s, s1, kids[0], g));
            lemma_end_leaves(s, kids[0], g, child_bounds(c.keys, b, 0), d);
            let z = leftmost(s, kids[0], g);
            assert(in_subtree(s, id, h, z));
            assert(apart(s, kids, g, 0, n));
            assert(s1[z] == s[z]);
        }
        let init = kids.subrange(0, n);
        let end = seq![kids[n]];
        assert(kids =~= init + end);
        lemma_kids_entries_concat(s, init, end, g);
        lemma_kids_entries_concat(s1, init, end, g);
        lemma_kids_entries_one(s, kids[n], g);
        lemma_kids_entries_one(s1, kids[n], g);
        assert forall|j: int| 0 <= j < init.len() implies entries(s1, #[trigger] init[j], g)
            == entries(s, init[j], g) by {
            assert(same_shape(s, s1, kids[j], g));
        }
        lemma_kids_entries_eq(s, init, s1, init, g);
        let back = leaf_entries(l1).subrange(n0, n1);
        assert(kids_entries(s, init, g) + (entries(s, kids[n], g) + back) =~= (kids_entries(
            s,
            init,
            g,
        ) + entries(s, kids[n], g)) + back);
    }
}

} // verus!
