//! What an insertion into a subtree needs, and what each of its outcomes
//! says about the arena afterwards.

use crate::leaf_node::LeafView;
use crate::order::{count_below, TotalOrder};
use crate::shape::{
    adjacent, Bounds, Degrees, entries, in_subtree, inside, keys_of, leaf_of, leaf_ok, leftmost,
    min_key, rightmost, subtree, within,
};
use crate::types::{InsertType, NodeView};
use vstd::prelude::*;

verus! {

/// Where an insertion stands: the height of the subtree it is sent to,
/// the bounds of that subtree, and the capacities of the tree's nodes.
pub struct Site<K> {
    pub h: nat,
    pub b: Bounds<K>,
    pub d: Degrees,
}

/// The left link of the subtree's first leaf.
pub open spec fn left_link<K, V>(s: Seq<NodeView<K, V>>, id: int, h: nat) -> Option<int> {
    leaf_of(s, leftmost(s, id, h)).left
}

/// The right link of the subtree's last leaf.
pub open spec fn right_link<K, V>(s: Seq<NodeView<K, V>>, id: int, h: nat) -> Option<int> {
    leaf_of(s, rightmost(s, id, h)).right
}

/// Slot `n` is a well-formed leaf outside the subtree at `id`.
pub open spec fn outer_leaf<K: TotalOrder, V>(
    s: Seq<NodeView<K, V>>,
    id: int,
    h: nat,
    d: Degrees,
    n: int,
) -> bool {
    &&& 0 <= n < s.len()
    &&& !in_subtree(s, id, h, n)
    &&& s[n] is Leaf
    &&& leaf_ok(leaf_of(s, n), d)
}

/// What an insertion of `key` into the subtree at `id` needs: the subtree
/// is well formed and admits the key, and the leaves next to it, if any,
/// are well-formed leaves outside it whose keys lie beyond its bounds.
pub open spec fn insert_pre<K: TotalOrder, V>(
    s: Seq<NodeView<K, V>>,
    id: int,
    h: nat,
    b: Bounds<K>,
    d: Degrees,
    key: K,
) -> bool {
    &&& d.leaf >= 1
    &&& d.common >= 2
    &&& subtree(s, id, h, b, d)
    &&& inside(key, b)
    &&& left_link(s, id, h) matches Some(l) ==> {
        &&& outer_leaf(s, id, h, d, l)
        &&& leaf_of(s, l).right == Some(leftmost(s, id, h))
        &&& b.lo is Some
        &&& within(leaf_of(s, l).keys, Bounds { lo: None, hi: b.lo })
    }
    &&& right_link(s, id, h) matches Some(r) ==> {
        &&& outer_leaf(s, id, h, d, r)
        &&& leaf_of(s, r).left == Some(rightmost(s, id, h))
        &&& b.hi is Some
        &&& within(leaf_of(s, r).keys, Bounds { lo: b.hi, hi: None })
    }
    &&& left_link(s, id, h) is Some ==> left_link(s, id, h) != right_link(s, id, h)
}

/// The entries of the subtree with the new entry in its place: after every
/// entry whose key is below `key`.
pub open spec fn with_entry<K: TotalOrder, V>(e: Seq<(K, V)>, key: K, value: V) -> Seq<(K, V)> {
    e.insert(count_below(keys_of(e), key) as int, (key, value))
}

/// Slots outside the subtree, other than the two leaves next to it, are
/// as they were.
pub open spec fn untouched<K, V>(s: Seq<NodeView<K, V>>, s1: Seq<NodeView<K, V>>, id: int, h: nat) -> bool {
    &&& s.len() <= s1.len()
    &&& forall|x: int|
        0 <= x < s.len() && !in_subtree(s, id, h, x) && Some(x) != left_link(s, id, h) && Some(x)
            != right_link(s, id, h) ==> #[trigger] s1[x] == s[x]
}

/// The leaf on the left of the subtree, if any, is as it was.
pub open spec fn left_kept<K, V>(s: Seq<NodeView<K, V>>, s1: Seq<NodeView<K, V>>, id: int, h: nat) -> bool {
    left_link(s, id, h) matches Some(l) ==> s1[l] == s[l]
}

/// The leaf on the right of the subtree, if any, holds what it held and
/// names `last` as its left neighbour.
pub open spec fn right_relinked<K, V>(
    s: Seq<NodeView<K, V>>,
    s1: Seq<NodeView<K, V>>,
    id: int,
    h: nat,
    last: int,
) -> bool {
    right_link(s, id, h) matches Some(r) ==> s1[r] == NodeView::Leaf(
        LeafView { left: Some(last), ..leaf_of(s, r) },
    )
}

/// The nodes under `a` (and under `c`, where the subtree was split) are
/// those of the old subtree and the slots that were added.
pub open spec fn nodes_kept<K, V>(
    s: Seq<NodeView<K, V>>,
    s1: Seq<NodeView<K, V>>,
    id: int,
    h: nat,
    a: int,
    c: Option<int>,
) -> bool {
    forall|x: int|
        #![trigger in_subtree(s1, a, h, x)]
        #![trigger in_subtree(s, id, h, x)]
        (in_subtree(s1, a, h, x) || (c matches Some(n) && in_subtree(s1, n, h, x))) <==> (
        in_subtree(s, id, h, x) || s.len() <= x < s1.len())
}

/// The values of a run of entries.
pub open spec fn values_of<K, V>(e: Seq<(K, V)>) -> Seq<V> {
    e.map_values(|p: (K, V)| p.1)
}

/// The leaf `old` with the entries `add` behind its own.
pub open spec fn fed_behind<K, V>(old: LeafView<K, V>, add: Seq<(K, V)>) -> LeafView<K, V> {
    LeafView { keys: old.keys + keys_of(add), values: old.values + values_of(add), ..old }
}

/// The leaf `old` with the entries `add` in front of its own, and `last`
/// as its left neighbour.
pub open spec fn fed_in_front<K, V>(old: LeafView<K, V>, add: Seq<(K, V)>, last: int) -> LeafView<
    K,
    V,
> {
    LeafView {
        keys: keys_of(add) + old.keys,
        values: values_of(add) + old.values,
        left: Some(last),
        ..old
    }
}

/// Feeding a leaf no entry leaves its entries as they are.
pub proof fn lemma_fed_nothing<K, V>(old: LeafView<K, V>, add: Seq<(K, V)>, last: int)
    requires
        add.len() == 0,
    ensures
        fed_behind(old, add) == old,
        fed_in_front(old, add, last) == (LeafView { left: Some(last), ..old }),
{
    assert(old.keys + keys_of(add) =~= old.keys);
    assert(old.values + values_of(add) =~= old.values);
    assert(keys_of(add) + old.keys =~= old.keys);
    assert(values_of(add) + old.values =~= old.values);
}

/// Feeding a leaf one entry pushes it behind, or inserts it in front.
pub proof fn lemma_fed_one<K, V>(old: LeafView<K, V>, add: Seq<(K, V)>, last: int)
    requires
        add.len() == 1,
    ensures
        fed_behind(old, add) == (LeafView {
            keys: old.keys.push(add[0].0),
            values: old.values.push(add[0].1),
            ..old
        }),
        fed_in_front(old, add, last) == (LeafView {
            keys: old.keys.insert(0, add[0].0),
            values: old.values.insert(0, add[0].1),
            left: Some(last),
            ..old
        }),
{
    assert(old.keys + keys_of(add) =~= old.keys.push(add[0].0));
    assert(old.values + values_of(add) =~= old.values.push(add[0].1));
    assert(keys_of(add) + old.keys =~= old.keys.insert(0, add[0].0));
    assert(values_of(add) + old.values =~= old.values.insert(0, add[0].1));
}

/// The bounds of a subtree that gave away its first `df` and its last `dl`
/// entries of `e1`: where it gave one away, the bound on that side is the
/// key next to the gap.
pub open spec fn kept_bounds<K, V>(
    s1: Seq<NodeView<K, V>>,
    id: int,
    h: nat,
    b: Bounds<K>,
    e1: Seq<(K, V)>,
    df: int,
    dl: int,
) -> Bounds<K> {
    Bounds {
        lo: if df == 1 {
            Some(min_key(s1, id, h))
        } else {
            b.lo
        },
        hi: if dl == 1 {
            Some(e1.last().0)
        } else {
            b.hi
        },
    }
}

/// The subtree at `id` took the entry and kept its place, after giving
/// its first `df` entries to the leaf on its left and its last `dl`
/// entries to the leaf on its right (each 0 or 1, and not both 1). Its
/// nodes are the old ones and the added slots, its first leaf and outer
/// links are as before, and the leaf on its right names its last leaf.
pub open spec fn kept<K: TotalOrder, V>(
    s: Seq<NodeView<K, V>>,
    s1: Seq<NodeView<K, V>>,
    id: int,
    h: nat,
    b: Bounds<K>,
    d: Degrees,
    key: K,
    value: V,
    df: int,
    dl: int,
) -> bool {
    let e1 = with_entry(entries(s, id, h), key, value);
    &&& subtree(s1, id, h, kept_bounds(s1, id, h, b, e1, df, dl), d)
    &&& kept_rest(s, s1, id, h, d, key, value, df, dl)
}

/// What `kept` says beside the well-formedness of the subtree.
pub open spec fn kept_rest<K: TotalOrder, V>(
    s: Seq<NodeView<K, V>>,
    s1: Seq<NodeView<K, V>>,
    id: int,
    h: nat,
    d: Degrees,
    key: K,
    value: V,
    df: int,
    dl: int,
) -> bool {
    let e1 = with_entry(entries(s, id, h), key, value);
    &&& 0 <= df
    &&& 0 <= dl
    &&& df + dl <= 1
    &&& untouched(s, s1, id, h)
    &&& entries(s1, id, h) == e1.subrange(df, e1.len() - dl)
    &&& nodes_kept(s, s1, id, h, id, None)
    &&& leftmost(s1, id, h) == leftmost(s, id, h)
    &&& left_link(s1, id, h) == left_link(s, id, h)
    &&& right_link(s1, id, h) == right_link(s, id, h)
    &&& match left_link(s, id, h) {
        Some(l) => {
            &&& leaf_of(s, l).keys.len() + df <= d.leaf
            &&& s1[l] == NodeView::Leaf(fed_behind(leaf_of(s, l), e1.subrange(0, df)))
        },
        None => df == 0,
    }
    &&& match right_link(s, id, h) {
        Some(r) => {
            &&& leaf_of(s, r).keys.len() + dl <= d.leaf
            &&& s1[r] == NodeView::Leaf(
                fed_in_front(
                    leaf_of(s, r),
                    e1.subrange(e1.len() - dl, e1.len() as int),
                    rightmost(s1, id, h),
                ),
            )
        },
        None => dl == 0,
    }
}

/// What holds of the arena `s1` after an insertion of `(key, value)` into
/// the subtree of height `h` at `id` of the arena `s` ended with `r`.
pub open spec fn insert_post<K: TotalOrder, V>(
    s: Seq<NodeView<K, V>>,
    s1: Seq<NodeView<K, V>>,
    id: int,
    h: nat,
    b: Bounds<K>,
    d: Degrees,
    key: K,
    value: V,
    r: InsertType<K>,
) -> bool {
    let e1 = with_entry(entries(s, id, h), key, value);
    match r {
        InsertType::Normal => kept(s, s1, id, h, b, d, key, value, 0, 0),
        InsertType::Split(m, a, c) => {
            &&& untouched(s, s1, id, h)
            &&& a == id
            &&& s.len() <= c < s1.len()
            &&& subtree(s1, a as int, h, Bounds { lo: b.lo, hi: Some(m) }, d)
            &&& subtree(s1, c as int, h, Bounds { lo: Some(m), hi: b.hi }, d)
            &&& m == min_key(s1, c as int, h)
            &&& inside(m, b)
            &&& entries(s1, a as int, h) + entries(s1, c as int, h) == e1
            &&& forall|x: int|
                !(in_subtree(s1, a as int, h, x) && #[trigger] in_subtree(s1, c as int, h, x))
            &&& nodes_kept(s, s1, id, h, a as int, Some(c as int))
            &&& adjacent(s1, rightmost(s1, a as int, h), leftmost(s1, c as int, h))
            &&& leftmost(s1, a as int, h) == leftmost(s, id, h)
            &&& left_link(s1, a as int, h) == left_link(s, id, h)
            &&& right_link(s1, c as int, h) == right_link(s, id, h)
            &&& left_kept(s, s1, id, h)
            &&& right_relinked(s, s1, id, h, rightmost(s1, c as int, h))
        },
        InsertType::LeftMove(nk) => kept(s, s1, id, h, b, d, key, value, 1, 0) && nk == min_key(
            s1,
            id,
            h,
        ),
        InsertType::RightMove(nk) => kept(s, s1, id, h, b, d, key, value, 0, 1) && nk
            == e1.last().0,
    }
}

} // verus!
