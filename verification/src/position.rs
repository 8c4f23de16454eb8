//! Where a new entry stands among the entries of an internal node: inside
//! the run of the child that takes it, and at the same place there.

use crate::descend::{kid, kid_bounds, lemma_descend, slot};
use crate::entries::{
    lemma_count_below_concat, lemma_entries_props, lemma_keys_of_concat,
    lemma_kids_entries_concat, lemma_kids_entries_one, lemma_kids_entries_props,
};
use crate::order::{
    count_below, lemma_count_below_bound, lemma_count_below_is_boundary,
    lemma_count_below_parts, lemma_insert_sorted, lemma_total_order, lt, sorted, TotalOrder,
};
use crate::outcome::{insert_pre, with_entry};
use crate::shape::{
    Bounds, child_bounds, common_of, Degrees, entries, inside, keys_of, kids_entries, kids_ok,
    min_key, seam, subtree, within,
};
use crate::types::NodeView;
use vstd::prelude::*;

verus! {

/// The entries of the children before child `i`.
pub open spec fn before<K, V>(s: Seq<NodeView<K, V>>, id: int, h: nat, i: int) -> Seq<(K, V)> {
    kids_entries(s, common_of(s, id).childs.subrange(0, i), (h - 1) as nat)
}

/// The entries of the children after child `i`.
pub open spec fn after<K, V>(s: Seq<NodeView<K, V>>, id: int, h: nat, i: int) -> Seq<(K, V)> {
    kids_entries(
        s,
        common_of(s, id).childs.subrange(i + 1, common_of(s, id).childs.len() as int),
        (h - 1) as nat,
    )
}

/// The entries of children `a` up to `z` hold no key below the separator
/// in front of child `a`.
pub proof fn lemma_kids_entries_above<K: TotalOrder, V>(
    s: Seq<NodeView<K, V>>,
    kids: Seq<int>,
    keys: Seq<K>,
    h: nat,
    b: Bounds<K>,
    d: Degrees,
    a: int,
    z: int,
)
    requires
        kids_ok(s, kids, keys, h, b, d),
        1 <= a <= z <= kids.len(),
    ensures
        forall|x: int|
            0 <= x < kids_entries(s, kids.subrange(a, z), h).len() ==> keys[a - 1].le(
                #[trigger] keys_of(kids_entries(s, kids.subrange(a, z), h))[x],
            ),
    decreases z - a,
{
    lemma_total_order::<K>();
    let run = kids.subrange(a, z);
    if a < z {
        let t = kids[z - 1];
        assert(run.last() == t);
        assert(run.drop_last() =~= kids.subrange(a, z - 1));
        lemma_kids_entries_above(s, kids, keys, h, b, d, a, z - 1);
        let cb = child_bounds(keys, b, z - 1);
        assert(subtree(s, t, h, cb, d));
        lemma_entries_props(s, t, h, cb, d);
        let ef = kids_entries(s, run.drop_last(), h);
        let et = entries(s, t, h);
        assert(kids_entries(s, run, h) == ef + et);
        assert(a - 1 <= z - 2);
        assert(a - 1 < z - 2 ==> keys[a - 1].le(keys[z - 2]));
        assert forall|x: int| 0 <= x < (ef + et).len() implies keys[a - 1].le(
            #[trigger] keys_of(ef + et)[x],
        ) by {
            if x < ef.len() {
                assert(keys[a - 1].le(keys_of(ef)[x]));
            } else {
                assert(inside(keys_of(et)[x - ef.len()], cb));
            }
        }
    }
}

/// The entries of an internal node are those before the child that takes
/// the key, those of that child, and those after it; the new entry stands
/// where it stands among the child's entries.
pub proof fn lemma_position<K: TotalOrder, V>(
    s: Seq<NodeView<K, V>>,
    id: int,
    h: nat,
    b: Bounds<K>,
    d: Degrees,
    key: K,
    value: V,
)
    requires
        insert_pre(s, id, h, b, d, key),
        h > 0,
    ensures
        ({
            let i = slot(s, id, key);
            let mid = entries(s, kid(s, id, i), (h - 1) as nat);
            let m1 = with_entry(mid, key, value);
            &&& entries(s, id, h) == before(s, id, h, i) + mid + after(s, id, h, i)
            &&& with_entry(entries(s, id, h), key, value) == before(s, id, h, i) + m1 + after(
                s,
                id,
                h,
                i,
            )
            &&& m1.len() == mid.len() + 1
            &&& mid.len() >= 1
            &&& sorted(keys_of(m1))
            &&& within(keys_of(m1), kid_bounds(s, id, b, i))
            &&& i > 0 ==> m1.first() == mid.first() && mid.first().0 == common_of(s, id).keys[i
                - 1]
            &&& mid.first().0 == min_key(s, kid(s, id, i), (h - 1) as nat)
        }),
{
    lemma_total_order::<K>();
    lemma_descend(s, id, h, b, d, key);
    let c = common_of(s, id);
    let kids = c.childs;
    let g = (h - 1) as nat;
    let n = c.keys.len() as int;
    let i = slot(s, id, key);
    let t = kids[i];
    let cb = child_bounds(c.keys, b, i);
    let pre = before(s, id, h, i);
    let mid = entries(s, t, g);
    let post = after(s, id, h, i);
    let e = entries(s, id, h);
    // the three runs
    let k_pre = kids.subrange(0, i);
    let k_post = kids.subrange(i + 1, n + 1);
    assert(kids =~= (k_pre + seq![t]) + k_post);
    lemma_kids_entries_concat(s, k_pre + seq![t], k_post, g);
    lemma_kids_entries_concat(s, k_pre, seq![t], g);
    lemma_kids_entries_one(s, t, g);
    assert(e == pre + mid + post);
    // the keys on either side
    assert(subtree(s, t, g, cb, d));
    lemma_entries_props(s, t, g, cb, d);
    if i > 0 {
        lemma_kids_entries_props(s, kids, c.keys, g, b, d, i as nat);
        assert forall|x: int| 0 <= x < pre.len() implies lt(#[trigger] keys_of(pre)[x], key) by {
            assert(inside(keys_of(pre)[x], Bounds { lo: b.lo, hi: Some(c.keys[i - 1]) }));
        }
    } else {
        assert(k_pre =~= Seq::<int>::empty());
    }
    lemma_count_below_is_boundary(keys_of(pre), key, pre.len() as int);
    if i < n {
        lemma_kids_entries_above(s, kids, c.keys, g, b, d, i + 1, n + 1);
        assert forall|x: int| 0 <= x < post.len() implies !lt(#[trigger] keys_of(post)[x], key) by {
            assert(c.keys[i].le(keys_of(post)[x]));
        }
    } else {
        assert(k_post =~= Seq::<int>::empty());
    }
    lemma_count_below_is_boundary(keys_of(post), key, 0);
    lemma_keys_of_concat(pre + mid, post);
    lemma_keys_of_concat(pre, mid);
    lemma_count_below_concat(keys_of(pre) + keys_of(mid), keys_of(post), key);
    lemma_count_below_concat(keys_of(pre), keys_of(mid), key);
    let p = count_below(keys_of(mid), key) as int;
    lemma_count_below_bound(keys_of(mid), key);
    assert(count_below(keys_of(e), key) == pre.len() + p);
    let m1 = with_entry(mid, key, value);
    assert(with_entry(e, key, value) =~= pre + m1 + post);
    lemma_insert_sorted(keys_of(mid), key);
    assert(keys_of(m1) =~= keys_of(mid).insert(p, key));
    assert forall|x: int| 0 <= x < m1.len() implies inside(#[trigger] keys_of(m1)[x], cb) by {
        if x < p {
            assert(inside(keys_of(mid)[x], cb));
        } else if x > p {
            assert(inside(keys_of(mid)[x - 1], cb));
        }
    }
    if i > 0 {
        assert(seam(s, kids, c.keys, g, i - 1));
        assert(keys_of(mid)[0] == c.keys[i - 1]);
        lemma_count_below_parts(keys_of(mid), key);
        assert(p >= 1) by {
            if p == 0 {
                assert(key.le(keys_of(mid)[0]));
            }
        }
    }
}

/// The entries of an internal node are those before child `j`, those of
/// child `j`, and those after it; none before it has a key above the
/// separator in front of the child, none after it a key below the
/// separator behind the child.
pub proof fn lemma_around<K: TotalOrder, V>(
    s: Seq<NodeView<K, V>>,
    id: int,
    h: nat,
    b: Bounds<K>,
    d: Degrees,
    j: int,
)
    requires
        subtree(s, id, h, b, d),
        h > 0,
        0 <= j <= common_of(s, id).keys.len(),
    ensures
        entries(s, id, h) == before(s, id, h, j) + entries(
            s,
            common_of(s, id).childs[j],
            (h - 1) as nat,
        ) + after(s, id, h, j),
        forall|x: int|
            0 <= x < before(s, id, h, j).len() ==> j > 0 && (#[trigger] keys_of(
                before(s, id, h, j),
            )[x]).le(common_of(s, id).keys[j - 1]),
        forall|x: int|
            0 <= x < after(s, id, h, j).len() ==> j < common_of(s, id).keys.len() && common_of(
                s,
                id,
            ).keys[j].le(#[trigger] keys_of(after(s, id, h, j))[x]),
{
    let c = common_of(s, id);
    let kids = c.childs;
    let g = (h - 1) as nat;
    let n = c.keys.len() as int;
    let t = kids[j];
    let k_pre = kids.subrange(0, j);
    let k_post = kids.subrange(j + 1, n + 1);
    assert(kids =~= (k_pre + seq![t]) + k_post);
    lemma_kids_entries_concat(s, k_pre + seq![t], k_post, g);
    lemma_kids_entries_concat(s, k_pre, seq![t], g);
    lemma_kids_entries_one(s, t, g);
    let pre = before(s, id, h, j);
    let post = after(s, id, h, j);
    if j > 0 {
        lemma_kids_entries_props(s, kids, c.keys, g, b, d, j as nat);
        assert forall|x: int| 0 <= x < pre.len() implies (#[trigger] keys_of(pre)[x]).le(
            c.keys[j - 1],
        ) by {
            assert(inside(keys_of(pre)[x], Bounds { lo: b.lo, hi: Some(c.keys[j - 1]) }));
        }
    } else {
        assert(k_pre =~= Seq::<int>::empty());
    }
    if j < n {
        lemma_kids_entries_above(s, kids, c.keys, g, b, d, j + 1, n + 1);
    } else {
        assert(k_post =~= Seq::<int>::empty());
    }
}

} // verus!
