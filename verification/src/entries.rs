//! What the entries of a well-formed subtree look like: they are sorted,
//! they lie within the subtree's bounds, and they split along the children.

use crate::order::{count_below, lemma_total_order, sorted, TotalOrder};
use crate::shape::{
    Bounds, child_bounds, common_of, Degrees, entries, inside, keys_of, kids_entries, kids_ok,
    leaf_of, leftmost, min_key, rightmost, subtree, within,
};
use crate::types::NodeView;
use vstd::prelude::*;

verus! {

/// The entries of two child lists, one after the other, are the entries of
/// the joined list.
pub proof fn lemma_kids_entries_concat<K, V>(
    s: Seq<NodeView<K, V>>,
    k1: Seq<int>,
    k2: Seq<int>,
    h: nat,
)
    ensures
        kids_entries(s, k1 + k2, h) == kids_entries(s, k1, h) + kids_entries(s, k2, h),
    decreases k2.len(),
{
    if k2.len() == 0 {
        assert(k1 + k2 =~= k1);
        assert(kids_entries(s, k1, h) + kids_entries(s, k2, h) =~= kids_entries(s, k1, h));
    } else {
        lemma_kids_entries_concat(s, k1, k2.drop_last(), h);
        assert((k1 + k2).drop_last() =~= k1 + k2.drop_last());
        assert((k1 + k2).last() == k2.last());
        assert((kids_entries(s, k1, h) + kids_entries(s, k2.drop_last(), h)) + entries(
            s,
            k2.last(),
            h,
        ) =~= kids_entries(s, k1, h) + (kids_entries(s, k2.drop_last(), h) + entries(
            s,
            k2.last(),
            h,
        )));
    }
}

/// A list of one child holds that child's entries.
pub proof fn lemma_kids_entries_one<K, V>(s: Seq<NodeView<K, V>>, t: int, h: nat)
    ensures
        kids_entries(s, seq![t], h) == entries(s, t, h),
{
    let one = seq![t];
    assert(one.drop_last() =~= Seq::<int>::empty());
    assert(kids_entries(s, one.drop_last(), h) =~= Seq::<(K, V)>::empty());
    assert(Seq::<(K, V)>::empty() + entries(s, t, h) =~= entries(s, t, h));
}

/// Counting the keys below `key` goes part by part.
pub proof fn lemma_count_below_concat<K: TotalOrder>(a: Seq<K>, b: Seq<K>, key: K)
    ensures
        count_below(a + b, key) == count_below(a, key) + count_below(b, key),
    decreases b.len(),
{
    if b.len() == 0 {
        assert(a + b =~= a);
    } else {
        lemma_count_below_concat(a, b.drop_last(), key);
        assert((a + b).drop_last() =~= a + b.drop_last());
        assert((a + b).last() == b.last());
    }
}

/// The keys of joined runs are the joined keys.
pub proof fn lemma_keys_of_concat<K, V>(a: Seq<(K, V)>, b: Seq<(K, V)>)
    ensures
        keys_of(a + b) == keys_of(a) + keys_of(b),
{
    assert(keys_of(a + b) =~= keys_of(a) + keys_of(b));
}

/// The entries of a well-formed subtree: there is at least one, their keys
/// are sorted and within the bounds, the first key is the subtree's
/// smallest key, and the last entry is the last of the last leaf.
pub proof fn lemma_entries_props<K: TotalOrder, V>(
    s: Seq<NodeView<K, V>>,
    id: int,
    h: nat,
    b: Bounds<K>,
    d: Degrees,
)
    requires
        subtree(s, id, h, b, d),
    ensures
        entries(s, id, h).len() >= 1,
        sorted(keys_of(entries(s, id, h))),
        within(keys_of(entries(s, id, h)), b),
        entries(s, id, h).first().0 == min_key(s, id, h),
        entries(s, id, h).last().0 == leaf_of(s, rightmost(s, id, h)).keys.last(),
        entries(s, id, h).last().1 == leaf_of(s, rightmost(s, id, h)).values.last(),
        entries(s, id, h).first().1 == leaf_of(s, leftmost(s, id, h)).values.first(),
    decreases h, 0nat,
{
    if h == 0 {
        let l = leaf_of(s, id);
        assert(keys_of(entries(s, id, h)) =~= l.keys);
    } else {
        let c = common_of(s, id);
        assert(c.childs.subrange(0, c.childs.len() as int) =~= c.childs);
        lemma_kids_entries_props(s, c.childs, c.keys, (h - 1) as nat, b, d, c.childs.len());
    }
}

/// The entries of the first `m` of a node's children.
pub proof fn lemma_kids_entries_props<K: TotalOrder, V>(
    s: Seq<NodeView<K, V>>,
    kids: Seq<int>,
    keys: Seq<K>,
    h: nat,
    b: Bounds<K>,
    d: Degrees,
    m: nat,
)
    requires
        kids_ok(s, kids, keys, h, b, d),
        1 <= m <= kids.len(),
    ensures
        ({
            let e = kids_entries(s, kids.subrange(0, m as int), h);
            &&& e.len() >= 1
            &&& sorted(keys_of(e))
            &&& within(keys_of(e), Bounds { lo: b.lo, hi: child_bounds(keys, b, m - 1).hi })
            &&& e.first().0 == min_key(s, kids[0], h)
            &&& e.first().1 == leaf_of(s, leftmost(s, kids[0], h)).values.first()
            &&& e.last().0 == leaf_of(s, rightmost(s, kids[m - 1], h)).keys.last()
            &&& e.last().1 == leaf_of(s, rightmost(s, kids[m - 1], h)).values.last()
        }),
    decreases h, m,
{
    lemma_total_order::<K>();
    let pre = kids.subrange(0, m as int);
    let t = kids[m - 1];
    let cb = child_bounds(keys, b, m - 1);
    assert(subtree(s, t, h, cb, d));
    lemma_entries_props(s, t, h, cb, d);
    let et = entries(s, t, h);
    assert(pre.last() == t);
    assert(pre.drop_last() =~= kids.subrange(0, m - 1));
    let e = kids_entries(s, pre, h);
    if m == 1 {
        assert(kids_entries(s, pre.drop_last(), h) =~= Seq::<(K, V)>::empty());
        assert(e =~= et);
    } else {
        lemma_kids_entries_props(s, kids, keys, h, b, d, (m - 1) as nat);
        let ef = kids_entries(s, pre.drop_last(), h);
        assert(e == ef + et);
        let sep = keys[m - 2];
        assert(inside(sep, b));
        assert(m - 1 < keys.len() ==> sep.le(keys[m - 1]));
        assert forall|i: int| 0 <= i < e.len() implies inside(
            #[trigger] keys_of(e)[i],
            Bounds { lo: b.lo, hi: cb.hi },
        ) by {
            if i < ef.len() {
                assert(inside(keys_of(ef)[i], Bounds { lo: b.lo, hi: Some(sep) }));
            } else {
                assert(inside(keys_of(et)[i - ef.len()], cb));
            }
        }
        assert forall|i: int, j: int| 0 <= i < j < e.len() implies (#[trigger] keys_of(e)[i]).le(
            #[trigger] keys_of(e)[j],
        ) by {
            if j < ef.len() {
                assert(keys_of(ef)[i].le(keys_of(ef)[j]));
            } else if i < ef.len() {
                assert(inside(keys_of(ef)[i], Bounds { lo: b.lo, hi: Some(sep) }));
                assert(inside(keys_of(et)[j - ef.len()], cb));
            } else {
                assert(keys_of(et)[i - ef.len()].le(keys_of(et)[j - ef.len()]));
            }
        }
    }
}

} // verus!
