//! The whole tree: what makes an arena with a root a well-formed tree,
//! and how the tree grows when its root is split.

use crate::common_node::{CommonView, node_insert};
use crate::entries::{lemma_kids_entries_concat, lemma_kids_entries_one};
use crate::leaf_lemmas::lemma_leaf_grown;
use crate::leaf_node::{leaf_insert, leaf_insert_pre};
use crate::order::{lemma_total_order, TotalOrder};
use crate::outcome::{insert_post, insert_pre, kept, left_link, right_link, with_entry};
use crate::reparent::lemma_reparent;
use crate::shape::{
    apart, Bounds, child_bounds, common_of, Degrees, entries, in_subtree, kids_ok, leaf_of,
    leftmost, lemma_end_leaves, lemma_member_valid, rightmost, seam, subtree,
};
use crate::types::{InsertType, NodeView};
use vstd::prelude::*;

verus! {

/// No bound on either side.
pub open spec fn unbounded<K>() -> Bounds<K> {
    Bounds { lo: None, hi: None }
}

/// The root is a leaf without entries: the tree is empty.
pub open spec fn empty_root<K, V>(s: Seq<NodeView<K, V>>, root: int, h: nat, d: Degrees) -> bool {
    &&& h == 0
    &&& s[root] is Leaf
    &&& leaf_of(s, root).keys.len() == 0
    &&& leaf_of(s, root).values.len() == 0
    &&& leaf_of(s, root).degree == d.leaf
}

/// The arena `s` holds a well-formed tree of height `h` with its root at
/// `root`: the degrees allow splitting, the root is an empty leaf or a
/// well-formed subtree, the chain of leaves ends at the first and at the
/// last leaf, and every slot of the arena is a node of the tree.
pub open spec fn tree_ok<K: TotalOrder, V>(s: Seq<NodeView<K, V>>, root: int, h: nat, d: Degrees) -> bool {
    &&& d.leaf >= 1
    &&& d.common >= 2
    &&& 0 <= root < s.len()
    &&& empty_root(s, root, h, d) || subtree(s, root, h, unbounded(), d)
    &&& left_link(s, root, h) is None
    &&& right_link(s, root, h) is None
    &&& forall|x: int| 0 <= x < s.len() ==> #[trigger] in_subtree(s, root, h, x)
}

/// A tree that is not empty is ready for an insertion at its root.
pub proof fn lemma_root_ready<K: TotalOrder, V>(
    s: Seq<NodeView<K, V>>,
    root: int,
    h: nat,
    d: Degrees,
    key: K,
)
    requires
        tree_ok(s, root, h, d),
        !empty_root(s, root, h, d),
    ensures
        insert_pre(s, root, h, unbounded(), d, key),
{
}

/// An insertion at the root that kept the root in place leaves a
/// well-formed tree with the new entry; no entry can have left the tree.
pub proof fn lemma_root_kept<K: TotalOrder, V>(
    s: Seq<NodeView<K, V>>,
    s1: Seq<NodeView<K, V>>,
    root: int,
    h: nat,
    d: Degrees,
    key: K,
    value: V,
    df: int,
    dl: int,
)
    requires
        tree_ok(s, root, h, d),
        !empty_root(s, root, h, d),
        kept(s, s1, root, h, unbounded(), d, key, value, df, dl),
    ensures
        df == 0,
        dl == 0,
        tree_ok(s1, root, h, d),
        entries(s1, root, h) == with_entry(entries(s, root, h), key, value),
{
    let e1 = with_entry(entries(s, root, h), key, value);
    assert(e1.subrange(0, e1.len() as int) =~= e1);
    assert forall|x: int| 0 <= x < s1.len() implies #[trigger] in_subtree(s1, root, h, x) by {
        if x < s.len() {
            assert(in_subtree(s, root, h, x));
        }
    }
}

/// The first insertion into an empty tree leaves a tree with one entry.
pub proof fn lemma_first_entry<K: TotalOrder, V>(
    s: Seq<NodeView<K, V>>,
    s1: Seq<NodeView<K, V>>,
    root: int,
    d: Degrees,
    key: K,
    value: V,
    r: InsertType<K>,
)
    requires
        tree_ok(s, root, 0, d),
        empty_root(s, root, 0, d),
        (s1, r) == leaf_insert(s, root, key, value),
    ensures
        r is Normal,
        tree_ok(s1, root, 0, d),
        entries(s1, root, 0) == with_entry(entries(s, root, 0), key, value),
        leaf_insert_pre(s, root),
{
    lemma_total_order::<K>();
    lemma_leaf_grown(s, root, key, value);
    let l1 = leaf_of(s1, root);
    assert(l1.keys.len() == 1);
    assert forall|x: int| 0 <= x < s1.len() implies #[trigger] in_subtree(s1, root, 0, x) by {
        assert(in_subtree(s, root, 0, x));
    }
}

/// The arena after a new root was put over the two halves of the old one.
pub open spec fn raised<K, V>(s1: Seq<NodeView<K, V>>, d: Degrees, m: K, a: int, c: int) -> Seq<
    NodeView<K, V>,
> {
    s1.push(NodeView::Common(CommonView { degree: d.common, keys: seq![m], childs: seq![a, c] }))
}

/// The arena, the root and the height of the tree after an insertion: a
/// new root is put over the two halves of a root that was split, and the
/// tree is one level higher then; else root and height are as before.
pub open spec fn tree_insert<K: TotalOrder, V>(
    s: Seq<NodeView<K, V>>,
    root: int,
    h: nat,
    d: Degrees,
    key: K,
    value: V,
) -> (Seq<NodeView<K, V>>, int, nat) {
    let below = node_insert(s, root, h, key, value);
    match below.1 {
        InsertType::Split(m, a, c) => (
            raised(below.0, d, m, a as int, c as int),
            below.0.len() as int,
            h + 1,
        ),
        _ => (below.0, root, h),
    }
}

/// An insertion that split the root, followed by a new root over the two
/// halves, leaves a well-formed tree that is one level higher and holds
/// the new entry.
pub proof fn lemma_root_split<K: TotalOrder, V>(
    s: Seq<NodeView<K, V>>,
    s1: Seq<NodeView<K, V>>,
    root: int,
    h: nat,
    d: Degrees,
    key: K,
    value: V,
    m: K,
    a: usize,
    c: usize,
)
    requires
        tree_ok(s, root, h, d),
        !empty_root(s, root, h, d),
        insert_post(s, s1, root, h, unbounded(), d, key, value, InsertType::Split(m, a, c)),
    ensures
        tree_ok(raised(s1, d, m, a as int, c as int), s1.len() as int, h + 1, d),
        entries(raised(s1, d, m, a as int, c as int), s1.len() as int, h + 1) == with_entry(
            entries(s, root, h),
            key,
            value,
        ),
{
    let s2 = raised(s1, d, m, a as int, c as int);
    let top = s1.len() as int;
    let kids = seq![a as int, c as int];
    let keys = seq![m];
    let b = unbounded::<K>();
    assert(child_bounds(keys, b, 0) == Bounds { lo: None::<K>, hi: Some(m) });
    assert(child_bounds(keys, b, 1) == Bounds { lo: Some(m), hi: None::<K> });
    assert forall|j: int| 0 <= j < kids.len() implies subtree(
        s1,
        #[trigger] kids[j],
        h,
        child_bounds(keys, b, j),
        d,
    ) by {
    }
    assert forall|j: int, k: int| 0 <= j < k < kids.len() implies #[trigger] apart(
        s1,
        kids,
        h,
        j,
        k,
    ) by {
    }
    assert forall|j: int| 0 <= j < keys.len() implies #[trigger] seam(s1, kids, keys, h, j) by {
    }
    assert(kids_ok(s1, kids, keys, h, b, d));
    assert forall|j: int, x: int|
        0 <= j < kids.len() && in_subtree(s1, #[trigger] kids[j], h, x) implies #[trigger] s2[x]
        == s1[x] && x != top by {
        lemma_member_valid(s1, kids[j], h, child_bounds(keys, b, j), d, x);
    }
    assert(common_of(s2, top).childs == kids);
    assert(common_of(s2, top).keys == keys);
    lemma_reparent(s1, s2, top, h + 1, b, d, 0);
    assert(kids =~= seq![a as int] + seq![c as int]);
    lemma_kids_entries_concat(s1, seq![a as int], seq![c as int], h);
    lemma_kids_entries_one(s1, a as int, h);
    lemma_kids_entries_one(s1, c as int, h);
    lemma_end_leaves(s1, a as int, h, child_bounds(keys, b, 0), d);
    lemma_end_leaves(s1, c as int, h, child_bounds(keys, b, 1), d);
    lemma_member_valid(s1, a as int, h, child_bounds(keys, b, 0), d, leftmost(s1, a as int, h));
    lemma_member_valid(s1, c as int, h, child_bounds(keys, b, 1), d, rightmost(s1, c as int, h));
    assert forall|x: int| 0 <= x < s2.len() implies #[trigger] in_subtree(s2, top, h + 1, x) by {
        if x != top {
            if x < s.len() {
                assert(in_subtree(s, root, h, x));
            }
            assert(in_subtree(s1, kids[0], h, x) || in_subtree(s1, kids[1], h, x));
        }
    }
}

} // verus!
