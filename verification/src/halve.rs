//! An internal node with one key too many is split in two: both halves
//! are well-formed subtrees, parted by the key that goes up.

use crate::common_node::common_split;
use crate::entries::lemma_kids_entries_concat;
use crate::order::{lemma_total_order, TotalOrder};
use crate::outcome::{
    insert_post, insert_pre, kept_rest, left_link, lemma_fed_nothing, nodes_kept, right_link,
    with_entry,
};
use crate::reparent::{common_ok, lemma_reparent};
use crate::shape::{
    apart, Bounds, child_bounds, common_of, Degrees, entries, in_subtree, inside, kids_ok,
    leaf_of, leftmost, lemma_end_leaves, lemma_member_valid, rightmost, seam, subtree,
};
use crate::types::{InsertType, NodeView};
use vstd::prelude::*;

verus! {

/// Children in order stay in order on either side of separator `m`.
pub proof fn lemma_kids_ok_split<K: TotalOrder, V>(
    s: Seq<NodeView<K, V>>,
    kids: Seq<int>,
    keys: Seq<K>,
    h: nat,
    b: Bounds<K>,
    d: Degrees,
    m: int,
)
    requires
        kids_ok(s, kids, keys, h, b, d),
        0 <= m < keys.len(),
    ensures
        kids_ok(
            s,
            kids.subrange(0, m + 1),
            keys.subrange(0, m),
            h,
            Bounds { lo: b.lo, hi: Some(keys[m]) },
            d,
        ),
        kids_ok(
            s,
            kids.subrange(m + 1, kids.len() as int),
            keys.subrange(m + 1, keys.len() as int),
            h,
            Bounds { lo: Some(keys[m]), hi: b.hi },
            d,
        ),
{
    lemma_total_order::<K>();
    let lk = kids.subrange(0, m + 1);
    let lkeys = keys.subrange(0, m);
    let lb = Bounds { lo: b.lo, hi: Some(keys[m]) };
    let rk = kids.subrange(m + 1, kids.len() as int);
    let rkeys = keys.subrange(m + 1, keys.len() as int);
    let rb = Bounds { lo: Some(keys[m]), hi: b.hi };
    assert forall|i: int| 0 <= i < lkeys.len() implies inside(#[trigger] lkeys[i], lb) by {
        assert(inside(keys[i], b));
        assert(keys[i].le(keys[m]));
    }
    assert forall|i: int| 0 <= i < rkeys.len() implies inside(#[trigger] rkeys[i], rb) by {
        assert(inside(keys[i + m + 1], b));
        assert(keys[m].le(keys[i + m + 1]));
    }
    assert forall|i: int, j: int| 0 <= i < j < lkeys.len() implies (#[trigger] lkeys[i]).le(
        #[trigger] lkeys[j],
    ) by {
        assert(keys[i].le(keys[j]));
    }
    assert forall|i: int, j: int| 0 <= i < j < rkeys.len() implies (#[trigger] rkeys[i]).le(
        #[trigger] rkeys[j],
    ) by {
        assert(keys[i + m + 1].le(keys[j + m + 1]));
    }
    assert forall|j: int| 0 <= j < lk.len() implies subtree(
        s,
        #[trigger] lk[j],
        h,
        child_bounds(lkeys, lb, j),
        d,
    ) by {
        assert(subtree(s, kids[j], h, child_bounds(keys, b, j), d));
        assert(child_bounds(lkeys, lb, j) == child_bounds(keys, b, j));
    }
    assert forall|j: int| 0 <= j < rk.len() implies subtree(
        s,
        #[trigger] rk[j],
        h,
        child_bounds(rkeys, rb, j),
        d,
    ) by {
        assert(subtree(s, kids[j + m + 1], h, child_bounds(keys, b, j + m + 1), d));
        assert(child_bounds(rkeys, rb, j) == child_bounds(keys, b, j + m + 1));
    }
    assert forall|j: int, k: int| 0 <= j < k < lk.len() implies #[trigger] apart(s, lk, h, j, k) by {
        assert(apart(s, kids, h, j, k));
    }
    assert forall|j: int, k: int| 0 <= j < k < rk.len() implies #[trigger] apart(s, rk, h, j, k) by {
        assert(apart(s, kids, h, j + m + 1, k + m + 1));
    }
    assert forall|j: int| 0 <= j < lkeys.len() implies #[trigger] seam(s, lk, lkeys, h, j) by {
        assert(seam(s, kids, keys, h, j));
    }
    assert forall|j: int| 0 <= j < rkeys.len() implies #[trigger] seam(s, rk, rkeys, h, j) by {
        assert(seam(s, kids, keys, h, j + m + 1));
    }
}

/// What `CommonNode::split` needs: the node took a separator and a child
/// from the insertion below it, and now holds one key more than its
/// degree.
pub open spec fn halving<K: TotalOrder, V>(
    s: Seq<NodeView<K, V>>,
    s2: Seq<NodeView<K, V>>,
    id: int,
    h: nat,
    b: Bounds<K>,
    d: Degrees,
    key: K,
    value: V,
) -> bool {
    &&& insert_pre(s, id, h, b, d, key)
    &&& s2.len() < usize::MAX
    &&& common_ok(s2, id, h, b, d, 1)
    &&& common_of(s2, id).keys.len() == d.common + 1
    &&& kept_rest(s, s2, id, h, d, key, value, 0, 0)
}

/// The two halves of the node are well-formed subtrees of the arena after
/// the split.
proof fn lemma_halves<K: TotalOrder, V>(
    s: Seq<NodeView<K, V>>,
    s2: Seq<NodeView<K, V>>,
    id: int,
    h: nat,
    b: Bounds<K>,
    d: Degrees,
    key: K,
    value: V,
)
    requires
        halving(s, s2, id, h, b, d, key, value),
    ensures
        ({
            let c = common_of(s2, id);
            let m = (c.keys.len() / 2) as int;
            let s3 = common_split(s2, id).0;
            let new = s2.len() as int;
            let g = (h - 1) as nat;
            &&& 1 <= m < c.keys.len() - 1
            &&& s3.len() == s2.len() + 1
            &&& forall|x: int| 0 <= x < s2.len() && x != id ==> #[trigger] s3[x] == s2[x]
            &&& subtree(s3, id, h, Bounds { lo: b.lo, hi: Some(c.keys[m]) }, d)
            &&& subtree(s3, new, h, Bounds { lo: Some(c.keys[m]), hi: b.hi }, d)
            &&& inside(c.keys[m], b)
            &&& entries(s3, id, h) + entries(s3, new, h) == entries(s2, id, h)
            &&& leftmost(s3, id, h) == leftmost(s2, id, h)
            &&& rightmost(s3, new, h) == rightmost(s2, id, h)
            &&& rightmost(s3, id, h) == rightmost(s2, c.childs[m], g)
            &&& leftmost(s3, new, h) == leftmost(s2, c.childs[m + 1], g)
            &&& seam(s2, c.childs, c.keys, g, m)
            &&& forall|x: int|
                #![trigger in_subtree(s3, id, h, x)]
                in_subtree(s3, id, h, x) <==> x == id || exists|j: int|
                    0 <= j <= m && in_subtree(s2, #[trigger] c.childs[j], g, x)
            &&& forall|x: int|
                #![trigger in_subtree(s3, new, h, x)]
                in_subtree(s3, new, h, x) <==> x == new || exists|j: int|
                    m < j < c.childs.len() && in_subtree(s2, #[trigger] c.childs[j], g, x)
            &&& forall|j: int, x: int|
                0 <= j < c.childs.len() && #[trigger] in_subtree(s2, c.childs[j], g, x) ==> 0 <= x
                    < s2.len() && x != id && s3[x] == s2[x]
        }),
{
    let c = common_of(s2, id);
    let kids = c.childs;
    let keys = c.keys;
    let m = (keys.len() / 2) as int;
    let s3 = common_split(s2, id).0;
    let new = s2.len() as int;
    let g = (h - 1) as nat;
    let lb = Bounds { lo: b.lo, hi: Some(keys[m]) };
    let rb = Bounds { lo: Some(keys[m]), hi: b.hi };
    lemma_kids_ok_split(s2, kids, keys, g, b, d, m);
    assert forall|j: int, x: int|
        0 <= j < kids.len() && #[trigger] in_subtree(s2, kids[j], g, x) implies 0 <= x < s2.len()
        && x != id && s3[x] == s2[x] by {
        lemma_member_valid(s2, kids[j], g, child_bounds(keys, b, j), d, x);
    }
    let lk = kids.subrange(0, m + 1);
    let rk = kids.subrange(m + 1, kids.len() as int);
    assert(common_of(s3, id).childs == lk);
    assert(common_of(s3, new).childs == rk);
    assert forall|j: int, x: int|
        0 <= j < lk.len() && in_subtree(s2, #[trigger] lk[j], g, x) implies #[trigger] s3[x]
        == s2[x] && x != id by {
        assert(in_subtree(s2, kids[j], g, x));
    }
    assert forall|j: int, x: int|
        0 <= j < rk.len() && in_subtree(s2, #[trigger] rk[j], g, x) implies #[trigger] s3[x]
        == s2[x] && x != new by {
        assert(in_subtree(s2, kids[j + m + 1], g, x));
    }
    lemma_reparent(s2, s3, id, h, lb, d, 0);
    lemma_reparent(s2, s3, new, h, rb, d, 0);
    assert(kids =~= lk + rk);
    lemma_kids_entries_concat(s2, lk, rk, g);
    assert(inside(keys[m], b));
    assert forall|x: int|
        #![trigger in_subtree(s3, id, h, x)]
        in_subtree(s3, id, h, x) <==> x == id || exists|j: int|
            0 <= j <= m && in_subtree(s2, #[trigger] kids[j], g, x) by {
        if in_subtree(s3, id, h, x) && x != id {
            let j = choose|j: int| 0 <= j < lk.len() && in_subtree(s2, #[trigger] lk[j], g, x);
            assert(in_subtree(s2, kids[j], g, x));
        }
        if exists|j: int| 0 <= j <= m && in_subtree(s2, #[trigger] kids[j], g, x) {
            let j = choose|j: int| 0 <= j <= m && in_subtree(s2, #[trigger] kids[j], g, x);
            assert(in_subtree(s2, lk[j], g, x));
        }
    }
    assert forall|x: int|
        #![trigger in_subtree(s3, new, h, x)]
        in_subtree(s3, new, h, x) <==> x == new || exists|j: int|
            m < j < kids.len() && in_subtree(s2, #[trigger] kids[j], g, x) by {
        if in_subtree(s3, new, h, x) && x != new {
            let j = choose|j: int| 0 <= j < rk.len() && in_subtree(s2, #[trigger] rk[j], g, x);
            assert(in_subtree(s2, kids[j + m + 1], g, x));
        }
        if exists|j: int| m < j < kids.len() && in_subtree(s2, #[trigger] kids[j], g, x) {
            let j = choose|j: int| m < j < kids.len() && in_subtree(s2, #[trigger] kids[j], g, x);
            assert(in_subtree(s2, rk[j - m - 1], g, x));
        }
    }
}

/// `CommonNode::split` on a node that holds one key too many after an
/// insertion below it ends the insertion into the node's subtree with a
/// split.
pub proof fn lemma_common_split<K: TotalOrder, V>(
    s: Seq<NodeView<K, V>>,
    s2: Seq<NodeView<K, V>>,
    id: int,
    h: nat,
    b: Bounds<K>,
    d: Degrees,
    key: K,
    value: V,
)
    requires
        halving(s, s2, id, h, b, d, key, value),
    ensures
        insert_post(
            s,
            common_split(s2, id).0,
            id,
            h,
            b,
            d,
            key,
            value,
            InsertType::Split(
                common_split(s2, id).1.0,
                common_split(s2, id).1.1,
                common_split(s2, id).1.2,
            ),
        ),
{
    let c = common_of(s2, id);
    let kids = c.childs;
    let keys = c.keys;
    let m = (keys.len() / 2) as int;
    let s3 = common_split(s2, id).0;
    let new = s2.len() as int;
    let g = (h - 1) as nat;
    let e1 = with_entry(entries(s, id, h), key, value);
    lemma_halves(s, s2, id, h, b, d, key, value);
    lemma_end_leaves(s, id, h, b, d);
    lemma_end_leaves(s2, kids[m], g, child_bounds(keys, b, m), d);
    lemma_end_leaves(s2, kids[m + 1], g, child_bounds(keys, b, m + 1), d);
    lemma_end_leaves(s2, kids[0], g, child_bounds(keys, b, 0), d);
    let n = keys.len() as int;
    lemma_end_leaves(s2, kids[n], g, child_bounds(keys, b, n), d);
    assert(e1.subrange(0, e1.len() as int) =~= e1);
    // no node is under both halves
    assert forall|x: int| !(in_subtree(s3, id, h, x) && #[trigger] in_subtree(s3, new, h, x)) by {
        if in_subtree(s3, id, h, x) && in_subtree(s3, new, h, x) {
            if x != id && x != new {
                let j = choose|j: int| 0 <= j <= m && in_subtree(s2, #[trigger] kids[j], g, x);
                let k = choose|k: int|
                    m < k < kids.len() && in_subtree(s2, #[trigger] kids[k], g, x);
                assert(apart(s2, kids, g, j, k));
            }
        }
    }
    // the nodes under the halves are those of the node before, and the new one
    assert(nodes_kept(s, s3, id, h, id, Some(new))) by {
        assert forall|x: int|
            #![trigger in_subtree(s3, id, h, x)]
            #![trigger in_subtree(s, id, h, x)]
            (in_subtree(s3, id, h, x) || in_subtree(s3, new, h, x)) <==> (in_subtree(s, id, h, x)
                || s.len() <= x < s3.len()) by {
            if x != id && x != new {
                if in_subtree(s3, id, h, x) {
                    let j = choose|j: int| 0 <= j <= m && in_subtree(s2, #[trigger] kids[j], g, x);
                    assert(in_subtree(s2, id, h, x));
                }
                if in_subtree(s3, new, h, x) {
                    let j = choose|j: int|
                        m < j < kids.len() && in_subtree(s2, #[trigger] kids[j], g, x);
                    assert(in_subtree(s2, id, h, x));
                }
                if in_subtree(s2, id, h, x) {
                    let j = choose|j: int|
                        0 <= j < kids.len() && in_subtree(s2, #[trigger] kids[j], g, x);
                    if j <= m {
                        assert(in_subtree(s3, id, h, x));
                    } else {
                        assert(in_subtree(s3, new, h, x));
                    }
                }
            }
        }
    }
    // the leaves at the ends and at the cut are as they were
    let lm = leftmost(s2, id, h);
    let rm = rightmost(s2, id, h);
    let a = rightmost(s2, kids[m], g);
    let z = leftmost(s2, kids[m + 1], g);
    assert(in_subtree(s2, kids[0], g, lm));
    assert(in_subtree(s2, kids[n], g, rm));
    assert(s3[lm] == s2[lm]);
    assert(s3[rm] == s2[rm]);
    assert(s3[a] == s2[a]);
    assert(s3[z] == s2[z]);
    if left_link(s, id, h) is Some {
        let l = left_link(s, id, h).unwrap();
        lemma_fed_nothing(leaf_of(s, l), e1.subrange(0, 0), 0);
        assert(s3[l] == s2[l]);
    }
    if right_link(s, id, h) is Some {
        let r = right_link(s, id, h).unwrap();
        lemma_fed_nothing(leaf_of(s, r), e1.subrange(e1.len() as int, e1.len() as int), rm);
        assert(s3[r] == s2[r]);
    }
    assert forall|x: int|
        0 <= x < s.len() && !in_subtree(s, id, h, x) && Some(x) != left_link(s, id, h) && Some(x)
            != right_link(s, id, h) implies #[trigger] s3[x] == s[x] by {
        assert(s2[x] == s[x]);
    }
}

} // verus!
