//! The step from an internal node to the child that takes the key: which
//! child it is, and why the insertion may go on there.

use crate::order::{count_below, lemma_count_below_parts, lemma_total_order, lt, TotalOrder};
use crate::outcome::{insert_pre, left_link, outer_leaf, right_link};
use crate::shape::{
    apart, Bounds, child_bounds, common_of, Degrees, in_subtree, leftmost, lemma_end_leaves,
    lemma_member_valid, rightmost, seam, subtree,
};
use crate::types::NodeView;
use vstd::prelude::*;

verus! {

/// The index of the child that takes `key`: the number of separators
/// below `key`.
pub open spec fn slot<K: TotalOrder, V>(s: Seq<NodeView<K, V>>, id: int, key: K) -> int {
    count_below(common_of(s, id).keys, key) as int
}

/// Child `j` of the internal node at `id`.
pub open spec fn kid<K, V>(s: Seq<NodeView<K, V>>, id: int, j: int) -> int {
    common_of(s, id).childs[j]
}

/// The bounds of child `j` of the internal node at `id`.
pub open spec fn kid_bounds<K, V>(s: Seq<NodeView<K, V>>, id: int, b: Bounds<K>, j: int) -> Bounds<K> {
    child_bounds(common_of(s, id).keys, b, j)
}

/// The leaf on the left of child `i`: the last leaf of the child before
/// it, or the leaf on the left of the whole subtree.
pub open spec fn left_of_kid<K, V>(s: Seq<NodeView<K, V>>, id: int, h: nat, i: int) -> Option<int> {
    if i > 0 {
        Some(rightmost(s, kid(s, id, i - 1), (h - 1) as nat))
    } else {
        left_link(s, id, h)
    }
}

/// The leaf on the right of child `i`: the first leaf of the child after
/// it, or the leaf on the right of the whole subtree.
pub open spec fn right_of_kid<K, V>(s: Seq<NodeView<K, V>>, id: int, h: nat, i: int) -> Option<int> {
    if i < common_of(s, id).keys.len() {
        Some(leftmost(s, kid(s, id, i + 1), (h - 1) as nat))
    } else {
        right_link(s, id, h)
    }
}

/// An insertion that may start at an internal node may go on at the child
/// that takes the key.
pub proof fn lemma_descend<K: TotalOrder, V>(
    s: Seq<NodeView<K, V>>,
    id: int,
    h: nat,
    b: Bounds<K>,
    d: Degrees,
    key: K,
)
    requires
        insert_pre(s, id, h, b, d, key),
        h > 0,
    ensures
        0 <= slot(s, id, key) <= common_of(s, id).keys.len(),
        insert_pre(
            s,
            kid(s, id, slot(s, id, key)),
            (h - 1) as nat,
            kid_bounds(s, id, b, slot(s, id, key)),
            d,
            key,
        ),
        left_link(s, kid(s, id, slot(s, id, key)), (h - 1) as nat) == left_of_kid(
            s,
            id,
            h,
            slot(s, id, key),
        ),
        right_link(s, kid(s, id, slot(s, id, key)), (h - 1) as nat) == right_of_kid(
            s,
            id,
            h,
            slot(s, id, key),
        ),
        slot(s, id, key) > 0 ==> lt(common_of(s, id).keys[slot(s, id, key) - 1], key),
        slot(s, id, key) < common_of(s, id).keys.len() ==> key.le(
            common_of(s, id).keys[slot(s, id, key)],
        ),
{
    lemma_total_order::<K>();
    let c = common_of(s, id);
    let kids = c.childs;
    let g = (h - 1) as nat;
    let n = c.keys.len() as int;
    let i = slot(s, id, key);
    lemma_count_below_parts(c.keys, key);
    let t = kids[i];
    let cb = child_bounds(c.keys, b, i);
    assert(subtree(s, t, g, cb, d));
    lemma_end_leaves(s, t, g, cb, d);
    lemma_end_leaves(s, id, h, b, d);
    if i > 0 {
        assert(lt(c.keys[i - 1], key));
        assert(seam(s, kids, c.keys, g, i - 1));
        assert(subtree(s, kids[i - 1], g, child_bounds(c.keys, b, i - 1), d));
        lemma_end_leaves(s, kids[i - 1], g, child_bounds(c.keys, b, i - 1), d);
        assert(apart(s, kids, g, i - 1, i));
        let l = rightmost(s, kids[i - 1], g);
        lemma_member_valid(s, kids[i - 1], g, child_bounds(c.keys, b, i - 1), d, l);
        assert(outer_leaf(s, t, g, d, l));
    } else {
        if left_link(s, id, h) is Some {
            let l = left_link(s, id, h).unwrap();
            assert(!in_subtree(s, t, g, l)) by {
                if in_subtree(s, t, g, l) {
                    assert(in_subtree(s, id, h, l));
                }
            }
        }
    }
    if i < n {
        assert(key.le(c.keys[i]));
        assert(seam(s, kids, c.keys, g, i));
        assert(subtree(s, kids[i + 1], g, child_bounds(c.keys, b, i + 1), d));
        lemma_end_leaves(s, kids[i + 1], g, child_bounds(c.keys, b, i + 1), d);
        assert(apart(s, kids, g, i, i + 1));
        let r = leftmost(s, kids[i + 1], g);
        lemma_member_valid(s, kids[i + 1], g, child_bounds(c.keys, b, i + 1), d, r);
        assert(outer_leaf(s, t, g, d, r));
    } else {
        if right_link(s, id, h) is Some {
            let r = right_link(s, id, h).unwrap();
            assert(!in_subtree(s, t, g, r)) by {
                if in_subtree(s, t, g, r) {
                    assert(in_subtree(s, id, h, r));
                }
            }
        }
    }
    if i > 0 && i < n {
        assert(apart(s, kids, g, i - 1, i + 1));
    }
    if i > 0 && i == n {
        let l = rightmost(s, kids[i - 1], g);
        assert(in_subtree(s, id, h, l));
    }
    if i == 0 && i < n {
        let r = leftmost(s, kids[i + 1], g);
        assert(in_subtree(s, id, h, r));
    }
}

} // verus!
