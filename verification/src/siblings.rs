//! What becomes of the other children of an internal node while one of
//! them takes an entry.

use crate::descend::{kid, kid_bounds, lemma_descend, slot};
use crate::order::TotalOrder;
use crate::outcome::{insert_pre, untouched};
use crate::shape::{
    apart, Bounds, child_bounds, common_of, Degrees, entries, in_subtree, leaf_entries, leaf_of,
    leaf_ok, leftmost, lemma_end_leaves, lemma_frame, lemma_member_valid, min_key, rightmost,
    same_shape, subtree,
};
use crate::spine::{
    grown_behind, grown_in_front, lemma_first_leaf_changed, lemma_last_leaf_changed, same_nodes,
};
use crate::types::NodeView;
use vstd::prelude::*;

verus! {

/// A child that is neither the one that took the entry nor the one after
/// it is as it was, provided that, where it is the child before, its last
/// leaf is as it was.
pub proof fn lemma_kid_far<K: TotalOrder, V>(
    s: Seq<NodeView<K, V>>,
    s1: Seq<NodeView<K, V>>,
    id: int,
    h: nat,
    b: Bounds<K>,
    d: Degrees,
    key: K,
    j: int,
)
    requires
        insert_pre(s, id, h, b, d, key),
        h > 0,
        untouched(s, s1, kid(s, id, slot(s, id, key)), (h - 1) as nat),
        0 <= j <= common_of(s, id).keys.len(),
        j != slot(s, id, key),
        j != slot(s, id, key) + 1,
        j == slot(s, id, key) - 1 ==> s1[rightmost(s, kid(s, id, j), (h - 1) as nat)]
            == s[rightmost(s, kid(s, id, j), (h - 1) as nat)],
    ensures
        subtree(s1, kid(s, id, j), (h - 1) as nat, kid_bounds(s, id, b, j), d),
        same_shape(s, s1, kid(s, id, j), (h - 1) as nat),
        forall|x: int| in_subtree(s, kid(s, id, j), (h - 1) as nat, x) ==> #[trigger] s1[x] == s[x],
{
    let c = common_of(s, id);
    let kids = c.childs;
    let g = (h - 1) as nat;
    let n = c.keys.len() as int;
    let i = slot(s, id, key);
    lemma_descend(s, id, h, b, d, key);
    let t = kids[i];
    assert(subtree(s, kids[j], g, child_bounds(c.keys, b, j), d));
    assert forall|x: int| in_subtree(s, kids[j], g, x) implies #[trigger] s1[x] == s[x] by {
        lemma_member_valid(s, kids[j], g, child_bounds(c.keys, b, j), d, x);
        assert(in_subtree(s, id, h, x));
        if j < i {
            assert(apart(s, kids, g, j, i));
        } else {
            assert(apart(s, kids, g, i, j));
        }
        assert(!in_subtree(s, t, g, x));
        if i > 0 {
            let l = rightmost(s, kids[i - 1], g);
            lemma_end_leaves(s, kids[i - 1], g, child_bounds(c.keys, b, i - 1), d);
            if j < i - 1 {
                assert(apart(s, kids, g, j, i - 1));
            } else if j > i - 1 {
                assert(apart(s, kids, g, i - 1, j));
            }
        }
        if i < n {
            let r = leftmost(s, kids[i + 1], g);
            lemma_end_leaves(s, kids[i + 1], g, child_bounds(c.keys, b, i + 1), d);
            if j < i + 1 {
                assert(apart(s, kids, g, j, i + 1));
            } else {
                assert(apart(s, kids, g, i + 1, j));
            }
        }
    }
    lemma_frame(s, s1, kids[j], g, child_bounds(c.keys, b, j), d);
}

/// The child after the one that took the entry, whose first leaf gained
/// `k` entries in front or had its left link set anew.
pub proof fn lemma_kid_right<K: TotalOrder, V>(
    s: Seq<NodeView<K, V>>,
    s1: Seq<NodeView<K, V>>,
    id: int,
    h: nat,
    b: Bounds<K>,
    d: Degrees,
    key: K,
    lo: K,
    k: int,
)
    requires
        insert_pre(s, id, h, b, d, key),
        h > 0,
        slot(s, id, key) < common_of(s, id).keys.len(),
        untouched(s, s1, kid(s, id, slot(s, id, key)), (h - 1) as nat),
        ({
            let z = leftmost(s, kid(s, id, slot(s, id, key) + 1), (h - 1) as nat);
            &&& s1[z] is Leaf
            &&& leaf_ok(leaf_of(s1, z), d)
            &&& grown_in_front(leaf_of(s1, z), leaf_of(s, z), k)
            &&& lo.le(leaf_of(s1, z).keys.first())
        }),
        lo.le(common_of(s, id).keys[slot(s, id, key)]),
    ensures
        ({
            let j = slot(s, id, key) + 1;
            let z = leftmost(s, kid(s, id, j), (h - 1) as nat);
            &&& subtree(
                s1,
                kid(s, id, j),
                (h - 1) as nat,
                Bounds { lo: Some(lo), hi: kid_bounds(s, id, b, j).hi },
                d,
            )
            &&& same_nodes(s, s1, kid(s, id, j), (h - 1) as nat)
            &&& entries(s1, kid(s, id, j), (h - 1) as nat) == leaf_entries(leaf_of(s1, z)).subrange(
                0,
                k,
            ) + entries(s, kid(s, id, j), (h - 1) as nat)
            &&& forall|x: int|
                in_subtree(s, kid(s, id, j), (h - 1) as nat, x) && x != z ==> #[trigger] s1[x]
                    == s[x]
        }),
{
    let c = common_of(s, id);
    let kids = c.childs;
    let g = (h - 1) as nat;
    let n = c.keys.len() as int;
    let i = slot(s, id, key);
    let j = i + 1;
    lemma_descend(s, id, h, b, d, key);
    let t = kids[i];
    let z = leftmost(s, kids[j], g);
    assert(subtree(s, kids[j], g, child_bounds(c.keys, b, j), d));
    assert forall|x: int| in_subtree(s, kids[j], g, x) && x != z implies #[trigger] s1[x]
        == s[x] by {
        lemma_member_valid(s, kids[j], g, child_bounds(c.keys, b, j), d, x);
        assert(in_subtree(s, id, h, x));
        assert(apart(s, kids, g, i, j));
        if i > 0 {
            lemma_end_leaves(s, kids[i - 1], g, child_bounds(c.keys, b, i - 1), d);
            assert(apart(s, kids, g, i - 1, j));
        }
    }
    lemma_first_leaf_changed(s, s1, kids[j], g, child_bounds(c.keys, b, j), Some(lo), d, k);
}

/// The child before the one that took the entry, whose last leaf gained
/// `k` entries behind.
pub proof fn lemma_kid_left<K: TotalOrder, V>(
    s: Seq<NodeView<K, V>>,
    s1: Seq<NodeView<K, V>>,
    id: int,
    h: nat,
    b: Bounds<K>,
    d: Degrees,
    key: K,
    hi: K,
    k: int,
)
    requires
        insert_pre(s, id, h, b, d, key),
        h > 0,
        slot(s, id, key) > 0,
        untouched(s, s1, kid(s, id, slot(s, id, key)), (h - 1) as nat),
        ({
            let a = rightmost(s, kid(s, id, slot(s, id, key) - 1), (h - 1) as nat);
            &&& s1[a] is Leaf
            &&& leaf_ok(leaf_of(s1, a), d)
            &&& grown_behind(leaf_of(s1, a), leaf_of(s, a), k)
            &&& leaf_of(s1, a).keys.last().le(hi)
        }),
        common_of(s, id).keys[slot(s, id, key) - 1].le(hi),
    ensures
        ({
            let j = slot(s, id, key) - 1;
            let a = rightmost(s, kid(s, id, j), (h - 1) as nat);
            &&& subtree(
                s1,
                kid(s, id, j),
                (h - 1) as nat,
                Bounds { lo: kid_bounds(s, id, b, j).lo, hi: Some(hi) },
                d,
            )
            &&& same_nodes(s, s1, kid(s, id, j), (h - 1) as nat)
            &&& entries(s1, kid(s, id, j), (h - 1) as nat) == entries(
                s,
                kid(s, id, j),
                (h - 1) as nat,
            ) + leaf_entries(leaf_of(s1, a)).subrange(
                leaf_of(s, a).keys.len() as int,
                leaf_of(s1, a).keys.len() as int,
            )
            &&& min_key(s1, kid(s, id, j), (h - 1) as nat) == min_key(
                s,
                kid(s, id, j),
                (h - 1) as nat,
            )
            &&& forall|x: int|
                in_subtree(s, kid(s, id, j), (h - 1) as nat, x) && x != a ==> #[trigger] s1[x]
                    == s[x]
        }),
{
    let c = common_of(s, id);
    let kids = c.childs;
    let g = (h - 1) as nat;
    let n = c.keys.len() as int;
    let i = slot(s, id, key);
    let j = i - 1;
    lemma_descend(s, id, h, b, d, key);
    let t = kids[i];
    let a = rightmost(s, kids[j], g);
    assert(subtree(s, kids[j], g, child_bounds(c.keys, b, j), d));
    assert forall|x: int| in_subtree(s, kids[j], g, x) && x != a implies #[trigger] s1[x]
        == s[x] by {
        lemma_member_valid(s, kids[j], g, child_bounds(c.keys, b, j), d, x);
        assert(in_subtree(s, id, h, x));
        assert(apart(s, kids, g, j, i));
        if i < n {
            lemma_end_leaves(s, kids[i + 1], g, child_bounds(c.keys, b, i + 1), d);
            assert(apart(s, kids, g, j, i + 1));
        }
    }
    lemma_last_leaf_changed(s, s1, kids[j], g, child_bounds(c.keys, b, j), Some(hi), d, k);
}

} // verus!
