//! An internal node after the child that took the entry kept its place:
//! what holds of each of its children, and of the separators once the
//! node has mended the one next to a moved entry.

use crate::descend::{kid, kid_bounds, lemma_descend, slot};
use crate::entries::lemma_entries_props;
use crate::order::{lemma_total_order, sorted, TotalOrder};
use crate::outcome::{
    fed_behind, fed_in_front, insert_pre, kept, kept_bounds, left_link, lemma_fed_nothing,
    right_link, untouched, with_entry,
};
use crate::position::lemma_position;
use crate::shape::{
    Bounds, child_bounds, common_of, Degrees, entries, in_subtree, inside, keys_of,
    leaf_entries, leaf_of, leftmost, lemma_end_leaves, min_key, rightmost, subtree, within,
};
use crate::siblings::{lemma_kid_far, lemma_kid_left, lemma_kid_right};
use crate::spine::{grown_behind, grown_in_front, same_nodes};
use crate::types::NodeView;
use vstd::prelude::*;

verus! {

/// The entries of the child that takes the key, with the new entry.
pub open spec fn kid_entries_with<K: TotalOrder, V>(
    s: Seq<NodeView<K, V>>,
    id: int,
    h: nat,
    key: K,
    value: V,
) -> Seq<(K, V)> {
    with_entry(entries(s, kid(s, id, slot(s, id, key)), (h - 1) as nat), key, value)
}

/// The insertion went down from the node at `id` to the child that takes
/// the key, and that child kept its place, giving away `df` entries to
/// the left and `dl` to the right.
pub open spec fn absorbing<K: TotalOrder, V>(
    s: Seq<NodeView<K, V>>,
    s1: Seq<NodeView<K, V>>,
    id: int,
    h: nat,
    b: Bounds<K>,
    d: Degrees,
    key: K,
    value: V,
    df: int,
    dl: int,
) -> bool {
    &&& insert_pre(s, id, h, b, d, key)
    &&& h > 0
    &&& kept(
        s,
        s1,
        kid(s, id, slot(s, id, key)),
        (h - 1) as nat,
        kid_bounds(s, id, b, slot(s, id, key)),
        d,
        key,
        value,
        df,
        dl,
    )
}

/// The insertion went down from the node at `id` to the child that takes
/// the key and left the other children alone, but for the two leaves next
/// to the child: the one on its left got the first `df` of the child's
/// entries behind its own, the one on its right got the last `dl` in front
/// of its own and names `last` as its left neighbour.
pub open spec fn beside<K: TotalOrder, V>(
    s: Seq<NodeView<K, V>>,
    s1: Seq<NodeView<K, V>>,
    id: int,
    h: nat,
    b: Bounds<K>,
    d: Degrees,
    key: K,
    value: V,
    df: int,
    dl: int,
    last: int,
) -> bool {
    let g = (h - 1) as nat;
    let t = kid(s, id, slot(s, id, key));
    let m1 = kid_entries_with(s, id, h, key, value);
    &&& insert_pre(s, id, h, b, d, key)
    &&& h > 0
    &&& 0 <= df
    &&& 0 <= dl
    &&& df + dl <= 1
    &&& untouched(s, s1, t, g)
    &&& match left_link(s, t, g) {
        Some(l) => {
            &&& leaf_of(s, l).keys.len() + df <= d.leaf
            &&& s1[l] == NodeView::Leaf(fed_behind(leaf_of(s, l), m1.subrange(0, df)))
        },
        None => df == 0,
    }
    &&& match right_link(s, t, g) {
        Some(r) => {
            &&& leaf_of(s, r).keys.len() + dl <= d.leaf
            &&& s1[r] == NodeView::Leaf(
                fed_in_front(leaf_of(s, r), m1.subrange(m1.len() - dl, m1.len() as int), last),
            )
        },
        None => dl == 0,
    }
}

/// A child that kept its place left the other children alone.
pub proof fn lemma_absorbing_beside<K: TotalOrder, V>(
    s: Seq<NodeView<K, V>>,
    s1: Seq<NodeView<K, V>>,
    id: int,
    h: nat,
    b: Bounds<K>,
    d: Degrees,
    key: K,
    value: V,
    df: int,
    dl: int,
)
    requires
        absorbing(s, s1, id, h, b, d, key, value, df, dl),
    ensures
        beside(
            s,
            s1,
            id,
            h,
            b,
            d,
            key,
            value,
            df,
            dl,
            rightmost(s1, kid(s, id, slot(s, id, key)), (h - 1) as nat),
        ),
{
}

/// The separators after the node has mended them: the one before the
/// child is the child's new smallest key where the child gave its first
/// entry to the left; the one after the child is the key that moved where
/// the child gave its last entry to the right.
pub open spec fn mended_keys<K: TotalOrder, V>(
    s: Seq<NodeView<K, V>>,
    s1: Seq<NodeView<K, V>>,
    id: int,
    h: nat,
    key: K,
    value: V,
    df: int,
    dl: int,
) -> Seq<K> {
    let keys = common_of(s, id).keys;
    let i = slot(s, id, key);
    let k1 = if df == 1 && i > 0 {
        keys.update(i - 1, min_key(s1, kid(s, id, i), (h - 1) as nat))
    } else {
        keys
    };
    if dl == 1 && i < keys.len() {
        k1.update(i, kid_entries_with(s, id, h, key, value).last().0)
    } else {
        k1
    }
}

/// How many entries leave the node's subtree on the left: those of the
/// child, where it is the first child.
pub open spec fn out_front<K: TotalOrder, V>(s: Seq<NodeView<K, V>>, id: int, key: K, df: int) -> int {
    if slot(s, id, key) == 0 {
        df
    } else {
        0
    }
}

/// How many entries leave the node's subtree on the right: those of the
/// child, where it is the last child.
pub open spec fn out_back<K: TotalOrder, V>(s: Seq<NodeView<K, V>>, id: int, key: K, dl: int) -> int {
    if slot(s, id, key) == common_of(s, id).keys.len() {
        dl
    } else {
        0
    }
}

/// The bounds of the node's subtree after the insertion.
pub open spec fn mended_bounds<K: TotalOrder, V>(
    s: Seq<NodeView<K, V>>,
    s1: Seq<NodeView<K, V>>,
    id: int,
    h: nat,
    b: Bounds<K>,
    key: K,
    value: V,
    df: int,
    dl: int,
) -> Bounds<K> {
    Bounds {
        lo: if out_front(s, id, key, df) == 1 {
            Some(min_key(s1, kid(s, id, 0), (h - 1) as nat))
        } else {
            b.lo
        },
        hi: if out_back(s, id, key, dl) == 1 {
            Some(kid_entries_with(s, id, h, key, value).last().0)
        } else {
            b.hi
        },
    }
}

/// What holds of a child other than the one that took the entry.
pub open spec fn kid_after<K: TotalOrder, V>(
    s: Seq<NodeView<K, V>>,
    s1: Seq<NodeView<K, V>>,
    id: int,
    h: nat,
    b: Bounds<K>,
    d: Degrees,
    key: K,
    value: V,
    df: int,
    dl: int,
    last: int,
    j: int,
) -> bool {
    let g = (h - 1) as nat;
    let i = slot(s, id, key);
    let e1 = kid_entries_with(s, id, h, key, value);
    let kj = kid(s, id, j);
    let keys1 = mended_keys(s, s1, id, h, key, value, df, dl);
    let b1 = mended_bounds(s, s1, id, h, b, key, value, df, dl);
    let got_front = if j == i + 1 {
        e1.subrange(e1.len() - dl, e1.len() as int)
    } else {
        Seq::empty()
    };
    let got_behind = if j == i - 1 {
        e1.subrange(0, df)
    } else {
        Seq::empty()
    };
    &&& subtree(s1, kj, g, child_bounds(keys1, b1, j), d)
    &&& same_nodes(s, s1, kj, g)
    &&& entries(s1, kj, g) == got_front + entries(s, kj, g) + got_behind
    &&& min_key(s1, kj, g) == if j == i + 1 && dl == 1 {
        e1.last().0
    } else {
        min_key(s, kj, g)
    }
    &&& leaf_of(s1, rightmost(s, kj, g)).right == leaf_of(s, rightmost(s, kj, g)).right
    &&& leaf_of(s1, leftmost(s, kj, g)).left == if j == i + 1 {
        Some(last)
    } else {
        leaf_of(s, leftmost(s, kj, g)).left
    }
    &&& forall|x: int|
        in_subtree(s, kj, g, x) && x != rightmost(s, kj, g) && x != leftmost(s, kj, g)
            ==> #[trigger] s1[x] == s[x]
}

/// What is known of the child's entries with the new one, and of the keys
/// next to the child.
pub open spec fn moved_facts<K: TotalOrder, V>(
    s: Seq<NodeView<K, V>>,
    s1: Seq<NodeView<K, V>>,
    id: int,
    h: nat,
    b: Bounds<K>,
    key: K,
    value: V,
    df: int,
    dl: int,
) -> bool {
    let g = (h - 1) as nat;
    let i = slot(s, id, key);
    let t = kid(s, id, i);
    let keys = common_of(s, id).keys;
    let e = entries(s, t, g);
    let e1 = kid_entries_with(s, id, h, key, value);
    &&& e1.len() == e.len() + 1
    &&& e.len() >= 1
    &&& sorted(keys_of(e1))
    &&& within(keys_of(e1), kid_bounds(s, id, b, i))
    &&& min_key(s1, t, g) == e1[df].0
    &&& i > 0 ==> e1[0].0 == keys[i - 1]
    &&& s1[id] == s[id]
    &&& 0 <= i <= keys.len()
    &&& keys.len() + 1 == common_of(s, id).childs.len()
}

/// The facts of `moved_facts` hold.
pub proof fn lemma_moved_facts<K: TotalOrder, V>(
    s: Seq<NodeView<K, V>>,
    s1: Seq<NodeView<K, V>>,
    id: int,
    h: nat,
    b: Bounds<K>,
    d: Degrees,
    key: K,
    value: V,
    df: int,
    dl: int,
)
    requires
        absorbing(s, s1, id, h, b, d, key, value, df, dl),
    ensures
        moved_facts(s, s1, id, h, b, key, value, df, dl),
{
    let g = (h - 1) as nat;
    let i = slot(s, id, key);
    let t = kid(s, id, i);
    let cb = kid_bounds(s, id, b, i);
    let e1 = kid_entries_with(s, id, h, key, value);
    lemma_descend(s, id, h, b, d, key);
    lemma_position(s, id, h, b, d, key, value);
    lemma_entries_props(s1, t, g, kept_bounds(s1, t, g, cb, e1, df, dl), d);
    lemma_end_leaves(s, id, h, b, d);
    // the node itself is neither under the child nor a leaf next to it
    assert(!in_subtree(s, t, g, id));
    if left_link(s, t, g) is Some {
        assert(s[left_link(s, t, g).unwrap()] is Leaf);
    }
    if right_link(s, t, g) is Some {
        assert(s[right_link(s, t, g).unwrap()] is Leaf);
    }
    assert(s1[id] == s[id]);
}

/// The child before the one that took the entry.
proof fn lemma_kid_after_left<K: TotalOrder, V>(
    s: Seq<NodeView<K, V>>,
    s1: Seq<NodeView<K, V>>,
    id: int,
    h: nat,
    b: Bounds<K>,
    d: Degrees,
    key: K,
    value: V,
    df: int,
    dl: int,
    last: int,
)
    requires
        beside(s, s1, id, h, b, d, key, value, df, dl, last),
        moved_facts(s, s1, id, h, b, key, value, df, dl),
        slot(s, id, key) > 0,
    ensures
        kid_after(s, s1, id, h, b, d, key, value, df, dl, last, slot(s, id, key) - 1),
{
    lemma_total_order::<K>();
    let g = (h - 1) as nat;
    let i = slot(s, id, key);
    let j = i - 1;
    let t = kid(s, id, i);
    let keys = common_of(s, id).keys;
    let e1 = kid_entries_with(s, id, h, key, value);
    let keys1 = mended_keys(s, s1, id, h, key, value, df, dl);
    lemma_descend(s, id, h, b, d, key);
    let a = rightmost(s, kid(s, id, j), g);
    assert(left_link(s, t, g) == Some(a));
    let old = leaf_of(s, a);
    let add = e1.subrange(0, df);
    let l1 = fed_behind(old, add);
    assert(s1[a] == NodeView::Leaf(l1));
    let n0 = old.keys.len() as int;
    assert(l1.keys.subrange(0, n0) =~= old.keys);
    assert(l1.values.subrange(0, n0) =~= old.values);
    assert(grown_behind(l1, old, df));
    assert(inside(old.keys[n0 - 1], Bounds { lo: None, hi: Some(keys[i - 1]) }));
    if df == 1 {
        assert(add[0] == e1[0]);
        assert(keys_of(e1)[0].le(keys_of(e1)[1]));
        assert forall|x: int, y: int| 0 <= x < y < l1.keys.len() implies (#[trigger] l1.keys[x]).le(
            #[trigger] l1.keys[y],
        ) by {
            if y < n0 {
                assert(old.keys[x].le(old.keys[y]));
            } else {
                assert(inside(old.keys[x], Bounds { lo: None, hi: Some(keys[i - 1]) }));
            }
        }
        assert(keys1[j] == e1[1].0);
    } else {
        lemma_fed_nothing(old, add, 0);
        assert(keys1[j] == keys[j]);
    }
    lemma_kid_left(s, s1, id, h, b, d, key, keys1[j], df);
    assert(leaf_entries(l1).subrange(n0, n0 + df) =~= add);
    assert(child_bounds(keys1, mended_bounds(s, s1, id, h, b, key, value, df, dl), j) == (Bounds {
        lo: kid_bounds(s, id, b, j).lo,
        hi: Some(keys1[j]),
    }));
    let ej = entries(s, kid(s, id, j), g);
    assert(Seq::<(K, V)>::empty() + ej + add =~= ej + add);
    lemma_end_leaves(s, kid(s, id, j), g, kid_bounds(s, id, b, j), d);
    let lm = leftmost(s, kid(s, id, j), g);
    if lm != a {
        assert(s1[lm] == s[lm]);
    }
}

/// The child after the one that took the entry.
proof fn lemma_kid_after_right<K: TotalOrder, V>(
    s: Seq<NodeView<K, V>>,
    s1: Seq<NodeView<K, V>>,
    id: int,
    h: nat,
    b: Bounds<K>,
    d: Degrees,
    key: K,
    value: V,
    df: int,
    dl: int,
    last: int,
)
    requires
        beside(s, s1, id, h, b, d, key, value, df, dl, last),
        moved_facts(s, s1, id, h, b, key, value, df, dl),
        slot(s, id, key) < common_of(s, id).keys.len(),
    ensures
        kid_after(s, s1, id, h, b, d, key, value, df, dl, last, slot(s, id, key) + 1),
{
    lemma_total_order::<K>();
    let g = (h - 1) as nat;
    let i = slot(s, id, key);
    let j = i + 1;
    let t = kid(s, id, i);
    let keys = common_of(s, id).keys;
    let e1 = kid_entries_with(s, id, h, key, value);
    let len1 = e1.len() as int;
    let keys1 = mended_keys(s, s1, id, h, key, value, df, dl);
    lemma_descend(s, id, h, b, d, key);
    let z = leftmost(s, kid(s, id, j), g);
    assert(right_link(s, t, g) == Some(z));
    let old = leaf_of(s, z);
    let add = e1.subrange(len1 - dl, len1);
    let l1 = fed_in_front(old, add, last);
    assert(s1[z] == NodeView::Leaf(l1));
    assert(l1.keys.subrange(dl, l1.keys.len() as int) =~= old.keys);
    assert(l1.values.subrange(dl, l1.values.len() as int) =~= old.values);
    assert(grown_in_front(l1, old, dl));
    assert(inside(old.keys[0], Bounds { lo: Some(keys[i]), hi: None }));
    if dl == 1 {
        assert(add[0] == e1[len1 - 1]);
        assert(inside(keys_of(e1)[len1 - 1], kid_bounds(s, id, b, i)));
        assert forall|x: int, y: int| 0 <= x < y < l1.keys.len() implies (#[trigger] l1.keys[x]).le(
            #[trigger] l1.keys[y],
        ) by {
            if x > 0 {
                assert(old.keys[x - 1].le(old.keys[y - 1]));
            } else {
                assert(inside(old.keys[y - 1], Bounds { lo: Some(keys[i]), hi: None }));
            }
        }
        assert(keys1[i] == e1[len1 - 1].0);
    } else {
        lemma_fed_nothing(old, add, last);
        assert(keys1[i] == keys[i]);
    }
    lemma_kid_right(s, s1, id, h, b, d, key, keys1[i], dl);
    assert(leaf_entries(l1).subrange(0, dl) =~= add);
    assert(child_bounds(keys1, mended_bounds(s, s1, id, h, b, key, value, df, dl), j) == (Bounds {
        lo: Some(keys1[i]),
        hi: kid_bounds(s, id, b, j).hi,
    }));
    let ej = entries(s, kid(s, id, j), g);
    assert(add + ej + Seq::<(K, V)>::empty() =~= add + ej);
    lemma_end_leaves(s, kid(s, id, j), g, kid_bounds(s, id, b, j), d);
    let rm = rightmost(s, kid(s, id, j), g);
    if rm != z {
        assert(s1[rm] == s[rm]);
    }
}

/// A child further away.
proof fn lemma_kid_after_far<K: TotalOrder, V>(
    s: Seq<NodeView<K, V>>,
    s1: Seq<NodeView<K, V>>,
    id: int,
    h: nat,
    b: Bounds<K>,
    d: Degrees,
    key: K,
    value: V,
    df: int,
    dl: int,
    last: int,
    j: int,
)
    requires
        beside(s, s1, id, h, b, d, key, value, df, dl, last),
        moved_facts(s, s1, id, h, b, key, value, df, dl),
        0 <= j <= common_of(s, id).keys.len(),
        j < slot(s, id, key) - 1 || j > slot(s, id, key) + 1,
    ensures
        kid_after(s, s1, id, h, b, d, key, value, df, dl, last, j),
{
    let g = (h - 1) as nat;
    let keys = common_of(s, id).keys;
    let keys1 = mended_keys(s, s1, id, h, key, value, df, dl);
    lemma_kid_far(s, s1, id, h, b, d, key, j);
    assert(child_bounds(keys1, mended_bounds(s, s1, id, h, b, key, value, df, dl), j)
        == kid_bounds(s, id, b, j));
    let ej = entries(s, kid(s, id, j), g);
    assert(Seq::<(K, V)>::empty() + ej + Seq::<(K, V)>::empty() =~= ej);
    lemma_end_leaves(s, kid(s, id, j), g, kid_bounds(s, id, b, j), d);
    let lm = leftmost(s, kid(s, id, j), g);
    let rm = rightmost(s, kid(s, id, j), g);
    assert(s1[lm] == s[lm]);
    assert(s1[rm] == s[rm]);
}

/// What holds of each child other than the one that took the entry.
pub proof fn lemma_kid_after<K: TotalOrder, V>(
    s: Seq<NodeView<K, V>>,
    s1: Seq<NodeView<K, V>>,
    id: int,
    h: nat,
    b: Bounds<K>,
    d: Degrees,
    key: K,
    value: V,
    df: int,
    dl: int,
    last: int,
    j: int,
)
    requires
        beside(s, s1, id, h, b, d, key, value, df, dl, last),
        moved_facts(s, s1, id, h, b, key, value, df, dl),
        0 <= j <= common_of(s, id).keys.len(),
        j != slot(s, id, key),
    ensures
        kid_after(s, s1, id, h, b, d, key, value, df, dl, last, j),
{
    let i = slot(s, id, key);
    if j == i - 1 {
        lemma_kid_after_left(s, s1, id, h, b, d, key, value, df, dl, last);
    } else if j == i + 1 {
        lemma_kid_after_right(s, s1, id, h, b, d, key, value, df, dl, last);
    } else {
        lemma_kid_after_far(s, s1, id, h, b, d, key, value, df, dl, last, j);
    }
}

} // verus!
