//! The outcomes of an insertion into a leaf, read as outcomes of an
//! insertion into a subtree of height 0.

use crate::leaf_node::{leaf_grown, leaf_insert, leaf_insert_pre, leaf_split, LeafView};
use crate::order::{
    count_below, lemma_count_below_parts, lemma_insert_sorted, lemma_total_order, sorted,
    TotalOrder,
};
use crate::outcome::{
    insert_post, insert_pre, kept, left_link, lemma_fed_nothing, lemma_fed_one, right_link,
    with_entry,
};
use crate::shape::{
    Bounds, Degrees, entries, inside, keys_of, leaf_entries, leaf_of, min_key, subtree,
};
use crate::types::{InsertType, NodeView};
use vstd::prelude::*;

verus! {

/// A leaf that is ready for an insertion into its subtree is ready for
/// `LeafNode::insert`.
pub proof fn lemma_leaf_ready<K: TotalOrder, V>(
    s: Seq<NodeView<K, V>>,
    id: int,
    b: Bounds<K>,
    d: Degrees,
    key: K,
)
    requires
        insert_pre(s, id, 0, b, d, key),
    ensures
        leaf_insert_pre(s, id),
{
}

/// The entries of a leaf after the new entry was stored in it.
pub proof fn lemma_leaf_grown<K: TotalOrder, V>(s: Seq<NodeView<K, V>>, id: int, key: K, value: V)
    requires
        0 <= id < s.len(),
        s[id] is Leaf,
        leaf_of(s, id).keys.len() == leaf_of(s, id).values.len(),
        sorted(leaf_of(s, id).keys),
    ensures
        leaf_entries(leaf_of(leaf_grown(s, id, key, value), id)) == with_entry(
            leaf_entries(leaf_of(s, id)),
            key,
            value,
        ),
        sorted(leaf_of(leaf_grown(s, id, key, value), id).keys),
        leaf_of(leaf_grown(s, id, key, value), id).keys.len() == leaf_of(s, id).keys.len() + 1,
        leaf_of(leaf_grown(s, id, key, value), id).values.len() == leaf_of(s, id).keys.len() + 1,
{
    let l = leaf_of(s, id);
    lemma_insert_sorted(l.keys, key);
    assert(keys_of(leaf_entries(l)) =~= l.keys);
    assert(leaf_entries(leaf_of(leaf_grown(s, id, key, value), id)) =~= with_entry(
        leaf_entries(l),
        key,
        value,
    ));
}

/// The leaf after the entry was stored in it: its keys are sorted and
/// within the bounds, and its entries are the old ones with the new one.
pub open spec fn grown_ok<K: TotalOrder, V>(
    s: Seq<NodeView<K, V>>,
    id: int,
    b: Bounds<K>,
    d: Degrees,
    key: K,
    value: V,
) -> bool {
    let g = leaf_of(leaf_grown(s, id, key, value), id);
    &&& leaf_entries(g) == with_entry(entries(s, id, 0), key, value)
    &&& sorted(g.keys)
    &&& forall|i: int| 0 <= i < g.keys.len() ==> inside(#[trigger] g.keys[i], b)
    &&& g.keys.len() == leaf_of(s, id).keys.len() + 1
    &&& g.values.len() == g.keys.len()
    &&& g.degree == d.leaf
    &&& g.left == leaf_of(s, id).left
    &&& g.right == leaf_of(s, id).right
}

/// The leaf after the entry was stored in it is as `grown_ok` says.
proof fn lemma_grown_ok<K: TotalOrder, V>(
    s: Seq<NodeView<K, V>>,
    id: int,
    b: Bounds<K>,
    d: Degrees,
    key: K,
    value: V,
)
    requires
        insert_pre(s, id, 0, b, d, key),
    ensures
        grown_ok(s, id, b, d, key, value),
{
    lemma_leaf_grown(s, id, key, value);
    let l = leaf_of(s, id);
    lemma_count_below_parts(l.keys, key);
    let g = leaf_of(leaf_grown(s, id, key, value), id);
    assert forall|i: int| 0 <= i < g.keys.len() implies inside(#[trigger] g.keys[i], b) by {
        let p = count_below(l.keys, key) as int;
        if i < p {
            assert(inside(l.keys[i], b));
        } else if i > p {
            assert(inside(l.keys[i - 1], b));
        }
    }
}

/// A leaf that still holds no more than its degree kept its place.
proof fn lemma_leaf_normal<K: TotalOrder, V>(
    s: Seq<NodeView<K, V>>,
    s1: Seq<NodeView<K, V>>,
    id: int,
    b: Bounds<K>,
    d: Degrees,
    key: K,
    value: V,
)
    requires
        insert_pre(s, id, 0, b, d, key),
        grown_ok(s, id, b, d, key, value),
        (s1, InsertType::<K>::Normal) == leaf_insert(s, id, key, value),
    ensures
        kept(s, s1, id, 0, b, d, key, value, 0, 0),
{
    let g = leaf_of(leaf_grown(s, id, key, value), id);
    let e1 = with_entry(entries(s, id, 0), key, value);
    let len = g.keys.len() as int;
    assert(e1.len() == len);
    assert(s1 == leaf_grown(s, id, key, value));
    assert(subtree(s1, id, 0, b, d));
    assert(e1.subrange(0, len) =~= e1);
    if left_link(s, id, 0) is Some {
        let n = left_link(s, id, 0).unwrap();
        lemma_fed_nothing(leaf_of(s, n), e1.subrange(0, 0), id);
    }
    if right_link(s, id, 0) is Some {
        let n = right_link(s, id, 0).unwrap();
        lemma_fed_nothing(leaf_of(s, n), e1.subrange(len, len), id);
        assert(s1[n] == s[n]);
        assert(s[n] == NodeView::Leaf(LeafView { left: Some(id), ..leaf_of(s, n) }));
    }
}

/// A leaf that gave its first entry to the left kept its place, and its
/// new first key is the key reported.
proof fn lemma_leaf_left_move<K: TotalOrder, V>(
    s: Seq<NodeView<K, V>>,
    s1: Seq<NodeView<K, V>>,
    id: int,
    b: Bounds<K>,
    d: Degrees,
    key: K,
    value: V,
    nk: K,
)
    requires
        insert_pre(s, id, 0, b, d, key),
        grown_ok(s, id, b, d, key, value),
        (s1, InsertType::LeftMove(nk)) == leaf_insert(s, id, key, value),
    ensures
        kept(s, s1, id, 0, b, d, key, value, 1, 0),
        nk == min_key(s1, id, 0),
{
    lemma_total_order::<K>();
    let l = leaf_of(s, id);
    let g = leaf_of(leaf_grown(s, id, key, value), id);
    let e1 = with_entry(entries(s, id, 0), key, value);
    let len = g.keys.len() as int;
    assert(e1.len() == len);
    let n = l.left.unwrap();
    assert(len == d.leaf + 1);
    let shrunk = leaf_of(s1, id);
    assert(shrunk.keys == g.keys.drop_first());
    assert(shrunk.values == g.values.drop_first());
    assert forall|i: int, j: int| 0 <= i < j < shrunk.keys.len() implies (
    #[trigger] shrunk.keys[i]).le(#[trigger] shrunk.keys[j]) by {
        assert(g.keys[i + 1].le(g.keys[j + 1]));
    }
    assert forall|i: int| 0 <= i < shrunk.keys.len() implies inside(
        #[trigger] shrunk.keys[i],
        Bounds { lo: Some(nk), hi: b.hi },
    ) by {
        assert(inside(g.keys[i + 1], b));
        if i > 0 {
            assert(shrunk.keys[0].le(shrunk.keys[i]));
        }
    }
    assert(leaf_entries(shrunk) =~= e1.subrange(1, len));
    lemma_fed_one(leaf_of(s, n), e1.subrange(0, 1), id);
    assert(e1.subrange(0, 1)[0] == e1[0]);
    if right_link(s, id, 0) is Some {
        let m = right_link(s, id, 0).unwrap();
        lemma_fed_nothing(leaf_of(s, m), e1.subrange(len, len), id);
        assert(s1[m] == s[m]);
        assert(s[m] == NodeView::Leaf(LeafView { left: Some(id), ..leaf_of(s, m) }));
    }
}

/// A leaf that gave its last entry to the right kept its place, and the
/// key reported is the key that moved.
proof fn lemma_leaf_right_move<K: TotalOrder, V>(
    s: Seq<NodeView<K, V>>,
    s1: Seq<NodeView<K, V>>,
    id: int,
    b: Bounds<K>,
    d: Degrees,
    key: K,
    value: V,
    nk: K,
)
    requires
        insert_pre(s, id, 0, b, d, key),
        grown_ok(s, id, b, d, key, value),
        (s1, InsertType::RightMove(nk)) == leaf_insert(s, id, key, value),
    ensures
        kept(s, s1, id, 0, b, d, key, value, 0, 1),
        nk == with_entry(entries(s, id, 0), key, value).last().0,
{
    lemma_total_order::<K>();
    let l = leaf_of(s, id);
    let g = leaf_of(leaf_grown(s, id, key, value), id);
    let e1 = with_entry(entries(s, id, 0), key, value);
    let len = g.keys.len() as int;
    assert(e1.len() == len);
    let n = l.right.unwrap();
    assert(len == d.leaf + 1);
    let shrunk = leaf_of(s1, id);
    assert(shrunk.keys == g.keys.drop_last());
    assert(shrunk.values == g.values.drop_last());
    assert forall|i: int, j: int| 0 <= i < j < shrunk.keys.len() implies (
    #[trigger] shrunk.keys[i]).le(#[trigger] shrunk.keys[j]) by {
        assert(g.keys[i].le(g.keys[j]));
    }
    assert forall|i: int| 0 <= i < shrunk.keys.len() implies inside(
        #[trigger] shrunk.keys[i],
        Bounds { lo: b.lo, hi: Some(nk) },
    ) by {
        assert(inside(g.keys[i], b));
        assert(g.keys[i].le(g.keys[len - 1]));
    }
    assert(leaf_entries(shrunk) =~= e1.subrange(0, len - 1));
    lemma_fed_one(leaf_of(s, n), e1.subrange(len - 1, len), id);
    assert(e1.subrange(len - 1, len)[0] == e1[len - 1]);
    if left_link(s, id, 0) is Some {
        let m = left_link(s, id, 0).unwrap();
        lemma_fed_nothing(leaf_of(s, m), e1.subrange(0, 0), id);
        assert(s1[m] == s[m]);
    }
}

/// A leaf that was split left two well-formed leaves, chained to each
/// other and to the old neighbours.
proof fn lemma_leaf_split<K: TotalOrder, V>(
    s: Seq<NodeView<K, V>>,
    s1: Seq<NodeView<K, V>>,
    id: int,
    b: Bounds<K>,
    d: Degrees,
    key: K,
    value: V,
    median: K,
    a: usize,
    c: usize,
)
    requires
        insert_pre(s, id, 0, b, d, key),
        grown_ok(s, id, b, d, key, value),
        s.len() < usize::MAX,
        (s1, InsertType::Split(median, a, c)) == leaf_insert(s, id, key, value),
    ensures
        insert_post(s, s1, id, 0, b, d, key, value, InsertType::Split(median, a, c)),
{
    lemma_total_order::<K>();
    let grown = leaf_grown(s, id, key, value);
    let g = leaf_of(grown, id);
    let e1 = with_entry(entries(s, id, 0), key, value);
    let len = g.keys.len() as int;
    assert(len == d.leaf + 1);
    let m = len / 2;
    assert((s1, (median, a, c)) == leaf_split(grown, id));
    assert(a as int == id);
    assert(c as int == s.len());
    let left = leaf_of(s1, id);
    let right = leaf_of(s1, c as int);
    assert(left.keys == g.keys.subrange(0, m));
    assert(right.keys == g.keys.subrange(m, len));
    assert forall|i: int, j: int| 0 <= i < j < left.keys.len() implies (#[trigger] left.keys[i]).le(
        #[trigger] left.keys[j],
    ) by {
        assert(g.keys[i].le(g.keys[j]));
    }
    assert forall|i: int, j: int| 0 <= i < j < right.keys.len() implies (
    #[trigger] right.keys[i]).le(#[trigger] right.keys[j]) by {
        assert(g.keys[i + m].le(g.keys[j + m]));
    }
    assert forall|i: int| 0 <= i < left.keys.len() implies inside(
        #[trigger] left.keys[i],
        Bounds { lo: b.lo, hi: Some(median) },
    ) by {
        assert(inside(g.keys[i], b));
        assert(g.keys[i].le(g.keys[m]));
    }
    assert forall|i: int| 0 <= i < right.keys.len() implies inside(
        #[trigger] right.keys[i],
        Bounds { lo: Some(median), hi: b.hi },
    ) by {
        assert(inside(g.keys[i + m], b));
        if i > 0 {
            assert(g.keys[m].le(g.keys[i + m]));
        }
    }
    assert(inside(g.keys[m], b));
    assert(leaf_entries(left) + leaf_entries(right) =~= e1);
    if left_link(s, id, 0) is Some {
        let n = left_link(s, id, 0).unwrap();
        assert(s1[n] == s[n]);
    }
}

/// `LeafNode::insert` on a leaf that stands in a tree does what an
/// insertion into a subtree of height 0 is to do.
pub proof fn lemma_leaf_outcome<K: TotalOrder, V>(
    s: Seq<NodeView<K, V>>,
    s1: Seq<NodeView<K, V>>,
    id: int,
    b: Bounds<K>,
    d: Degrees,
    key: K,
    value: V,
    r: InsertType<K>,
)
    requires
        insert_pre(s, id, 0, b, d, key),
        s1.len() <= usize::MAX,
        (s1, r) == leaf_insert(s, id, key, value),
    ensures
        insert_post(s, s1, id, 0, b, d, key, value, r),
{
    lemma_grown_ok(s, id, b, d, key, value);
    match r {
        InsertType::Normal => lemma_leaf_normal(s, s1, id, b, d, key, value),
        InsertType::LeftMove(nk) => lemma_leaf_left_move(s, s1, id, b, d, key, value, nk),
        InsertType::RightMove(nk) => lemma_leaf_right_move(s, s1, id, b, d, key, value, nk),
        InsertType::Split(median, a, c) => lemma_leaf_split(
            s,
            s1,
            id,
            b,
            d,
            key,
            value,
            median,
            a,
            c,
        ),
    }
}

} // verus!
