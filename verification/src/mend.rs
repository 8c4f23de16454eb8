//! An internal node after the child that took the entry kept its place:
//! the children are in order again once the separators are mended, and
//! the node's subtree has kept its place too.

use crate::absorb::{
    absorbing, kid_after, kid_entries_with, lemma_absorbing_beside, lemma_kid_after,
    lemma_moved_facts, mended_bounds, mended_keys, moved_facts, out_back, out_front,
};
use crate::common_node::CommonView;
use crate::descend::{kid, kid_bounds, lemma_descend, slot};
use crate::entries::{lemma_kids_entries_concat, lemma_kids_entries_one};
use crate::order::{lemma_total_order, sorted, TotalOrder};
use crate::outcome::{
    fed_behind, fed_in_front, kept, kept_bounds, kept_rest, left_link, lemma_fed_nothing,
    nodes_kept, right_link, untouched, with_entry,
};
use crate::position::{after, before, lemma_position};
use crate::reparent::lemma_reparent;
use crate::shape::{
    apart, Bounds, child_bounds, common_of, Degrees, entries, in_subtree, inside, keys_of,
    kids_entries, kids_ok, leaf_of, leftmost, lemma_end_leaves, lemma_kids_entries_eq,
    lemma_member_valid, min_key, rightmost, seam, subtree, within,
};
use crate::types::NodeView;
use vstd::prelude::*;

verus! {

/// Every child other than the one that took the entry is as `kid_after`
/// says.
pub open spec fn kids_after<K: TotalOrder, V>(
    s: Seq<NodeView<K, V>>,
    s1: Seq<NodeView<K, V>>,
    id: int,
    h: nat,
    b: Bounds<K>,
    d: Degrees,
    key: K,
    value: V,
    df: int,
    dl: int,
) -> bool {
    forall|j: int|
        0 <= j <= common_of(s, id).keys.len() && j != slot(s, id, key) ==> #[trigger] kid_after(
            s,
            s1,
            id,
            h,
            b,
            d,
            key,
            value,
            df,
            dl,
            rightmost(s1, kid(s, id, slot(s, id, key)), (h - 1) as nat),
            j,
        )
}

/// The mended separators are sorted and within the mended bounds.
proof fn lemma_mended_keys<K: TotalOrder, V>(
    s: Seq<NodeView<K, V>>,
    s1: Seq<NodeView<K, V>>,
    id: int,
    h: nat,
    b: Bounds<K>,
    d: Degrees,
    key: K,
    value: V,
    df: int,
    dl: int,
)
    requires
        absorbing(s, s1, id, h, b, d, key, value, df, dl),
        moved_facts(s, s1, id, h, b, key, value, df, dl),
    ensures
        mended_keys(s, s1, id, h, key, value, df, dl).len() == common_of(s, id).keys.len(),
        sorted(mended_keys(s, s1, id, h, key, value, df, dl)),
        within(
            mended_keys(s, s1, id, h, key, value, df, dl),
            mended_bounds(s, s1, id, h, b, key, value, df, dl),
        ),
{
    lemma_total_order::<K>();
    let g = (h - 1) as nat;
    let i = slot(s, id, key);
    let keys = common_of(s, id).keys;
    let n = keys.len() as int;
    let e1 = kid_entries_with(s, id, h, key, value);
    let len1 = e1.len() as int;
    let keys1 = mended_keys(s, s1, id, h, key, value, df, dl);
    let b1 = mended_bounds(s, s1, id, h, b, key, value, df, dl);
    let cb = kid_bounds(s, id, b, i);
    assert(keys_of(e1)[0].le(keys_of(e1)[1]));
    assert(keys_of(e1)[0].le(keys_of(e1)[len1 - 1]));
    assert(inside(keys_of(e1)[0], cb));
    assert(inside(keys_of(e1)[1], cb));
    assert(inside(keys_of(e1)[len1 - 1], cb));
    // each mended separator lies between its old neighbours
    assert forall|x: int| 0 <= x < n implies (x > 0 ==> keys[x - 1].le(#[trigger] keys1[x])) && (x
        < n - 1 ==> keys1[x].le(keys[x + 1])) && (x == i - 1 ==> keys[x].le(keys1[x])) && (x == i
        ==> keys1[x].le(keys[x])) && (x != i - 1 && x != i ==> keys1[x] == keys[x]) by {
        if x > 0 {
            assert(keys[x - 1].le(keys[x]));
        }
        if x < n - 1 {
            assert(keys[x].le(keys[x + 1]));
        }
    }
    assert forall|x: int, y: int| 0 <= x < y < n implies (#[trigger] keys1[x]).le(
        #[trigger] keys1[y],
    ) by {
        assert(keys[x].le(keys[y]));
        if x == i - 1 && y == i {
            if df == 1 {
                assert(keys1[x] == e1[1].0);
                assert(keys1[y] == keys[i]);
            } else if dl == 1 {
                assert(keys1[y] == e1[len1 - 1].0);
                assert(keys1[x] == keys[i - 1]);
            }
        } else if x == i - 1 {
            assert(keys[i].le(keys[y]));
        } else if y == i {
            assert(keys[x].le(keys[i - 1]));
        } else if x == i {
        } else if y == i - 1 {
        }
    }
    assert forall|x: int| 0 <= x < n implies inside(#[trigger] keys1[x], b1) by {
        assert(inside(keys[x], b));
        assert(inside(keys[0], b));
        assert(inside(keys[n - 1], b));
        if x > 0 {
            assert(keys1[0].le(keys1[x]));
        }
        if x < n - 1 {
            assert(keys1[x].le(keys1[n - 1]));
        }
    }
}

/// After the insertion the children still share no node, and none of them
/// holds the parent.
proof fn lemma_kids_apart_after<K: TotalOrder, V>(
    s: Seq<NodeView<K, V>>,
    s1: Seq<NodeView<K, V>>,
    id: int,
    h: nat,
    b: Bounds<K>,
    d: Degrees,
    key: K,
    value: V,
    df: int,
    dl: int,
)
    requires
        absorbing(s, s1, id, h, b, d, key, value, df, dl),
        moved_facts(s, s1, id, h, b, key, value, df, dl),
        kids_after(s, s1, id, h, b, d, key, value, df, dl),
    ensures
        forall|j: int, m: int|
            0 <= j < m <= common_of(s, id).keys.len() ==> #[trigger] apart(
                s1,
                common_of(s, id).childs,
                (h - 1) as nat,
                j,
                m,
            ),
        forall|j: int, x: int|
            0 <= j <= common_of(s, id).keys.len() && #[trigger] in_subtree(
                s1,
                common_of(s, id).childs[j],
                (h - 1) as nat,
                x,
            ) ==> x != id && (in_subtree(s, id, h, x) || s.len() <= x < s1.len()),
        forall|x: int|
            #![trigger in_subtree(s, id, h, x)]
            in_subtree(s, id, h, x) || s.len() <= x < s1.len() ==> x == id || exists|j: int|
                0 <= j <= common_of(s, id).keys.len() && in_subtree(
                    s1,
                    #[trigger] common_of(s, id).childs[j],
                    (h - 1) as nat,
                    x,
                ),
{
    let g = (h - 1) as nat;
    let i = slot(s, id, key);
    let c = common_of(s, id);
    let kids = c.childs;
    let n = c.keys.len() as int;
    let t = kids[i];
    // where a node of a child was before
    assert forall|j: int, x: int| 0 <= j <= n && #[trigger] in_subtree(s1, kids[j], g, x) implies (
    in_subtree(s, kids[j], g, x) || (j == i && s.len() <= x < s1.len())) by {
        if j != i {
            assert(kid_after(s, s1, id, h, b, d, key, value, df, dl, rightmost(s1, kid(s, id, slot(s, id, key)), (h - 1) as nat), j));
        }
    }
    assert forall|j: int, x: int| 0 <= j <= n && #[trigger] in_subtree(s, kids[j], g, x) implies x
        < s.len() && in_subtree(s, id, h, x) && x != id by {
        lemma_member_valid(s, kids[j], g, child_bounds(c.keys, b, j), d, x);
    }
    assert forall|j: int, m: int| 0 <= j < m <= n implies #[trigger] apart(s1, kids, g, j, m) by {
        assert(apart(s, kids, g, j, m));
        assert forall|x: int| !(in_subtree(s1, kids[j], g, x) && #[trigger] in_subtree(
            s1,
            kids[m],
            g,
            x,
        )) by {
            if in_subtree(s1, kids[j], g, x) && in_subtree(s1, kids[m], g, x) {
                assert(in_subtree(s, kids[j], g, x) || (j == i && s.len() <= x < s1.len()));
                assert(in_subtree(s, kids[m], g, x) || (m == i && s.len() <= x < s1.len()));
            }
        }
    }
    assert forall|x: int|
        #![trigger in_subtree(s, id, h, x)]
        in_subtree(s, id, h, x) || s.len() <= x < s1.len() implies x == id || exists|j: int|
            0 <= j <= n && in_subtree(s1, #[trigger] kids[j], g, x) by {
        if x != id {
            if in_subtree(s, id, h, x) {
                let j = choose|j: int| 0 <= j < kids.len() && in_subtree(s, #[trigger] kids[j], g, x);
                if j != i {
                    assert(kid_after(s, s1, id, h, b, d, key, value, df, dl, rightmost(s1, kid(s, id, slot(s, id, key)), (h - 1) as nat), j));
                }
                assert(in_subtree(s1, kids[j], g, x));
            } else {
                assert(in_subtree(s1, kids[i], g, x));
            }
        }
    }
}

/// After the insertion each separator still parts its two children.
proof fn lemma_seams_after<K: TotalOrder, V>(
    s: Seq<NodeView<K, V>>,
    s1: Seq<NodeView<K, V>>,
    id: int,
    h: nat,
    b: Bounds<K>,
    d: Degrees,
    key: K,
    value: V,
    df: int,
    dl: int,
)
    requires
        absorbing(s, s1, id, h, b, d, key, value, df, dl),
        moved_facts(s, s1, id, h, b, key, value, df, dl),
        kids_after(s, s1, id, h, b, d, key, value, df, dl),
    ensures
        forall|j: int|
            0 <= j < common_of(s, id).keys.len() ==> #[trigger] seam(
                s1,
                common_of(s, id).childs,
                mended_keys(s, s1, id, h, key, value, df, dl),
                (h - 1) as nat,
                j,
            ),
{
    let g = (h - 1) as nat;
    let i = slot(s, id, key);
    let c = common_of(s, id);
    let kids = c.childs;
    let n = c.keys.len() as int;
    let t = kids[i];
    let keys1 = mended_keys(s, s1, id, h, key, value, df, dl);
    lemma_descend(s, id, h, b, d, key);
    assert forall|j: int| 0 <= j < n implies #[trigger] seam(s1, kids, keys1, g, j) by {
        assert(seam(s, kids, c.keys, g, j));
        if j != i {
            assert(kid_after(s, s1, id, h, b, d, key, value, df, dl, rightmost(s1, kid(s, id, slot(s, id, key)), (h - 1) as nat), j));
        }
        if j + 1 != i {
            assert(kid_after(s, s1, id, h, b, d, key, value, df, dl, rightmost(s1, kid(s, id, slot(s, id, key)), (h - 1) as nat), j + 1));
        }
    }
}

/// The entries of the children before child `i`, where the last of them
/// gained `give` behind and the others are as they were.
proof fn lemma_entries_before<K, V>(
    s: Seq<NodeView<K, V>>,
    s1: Seq<NodeView<K, V>>,
    kids: Seq<int>,
    g: nat,
    i: int,
    give: Seq<(K, V)>,
)
    requires
        0 < i <= kids.len(),
        forall|j: int| 0 <= j < i - 1 ==> entries(s1, #[trigger] kids[j], g) == entries(s, kids[j], g),
        entries(s1, kids[i - 1], g) == entries(s, kids[i - 1], g) + give,
    ensures
        kids_entries(s1, kids.subrange(0, i), g) == kids_entries(s, kids.subrange(0, i), g) + give,
{
    let far = kids.subrange(0, i - 1);
    let near = seq![kids[i - 1]];
    assert(kids.subrange(0, i) =~= far + near);
    lemma_kids_entries_concat(s1, far, near, g);
    lemma_kids_entries_concat(s, far, near, g);
    lemma_kids_entries_one(s1, kids[i - 1], g);
    lemma_kids_entries_one(s, kids[i - 1], g);
    assert forall|j: int| 0 <= j < far.len() implies entries(s1, #[trigger] far[j], g) == entries(
        s,
        far[j],
        g,
    ) by {
        assert(far[j] == kids[j]);
    }
    lemma_kids_entries_eq(s, far, s1, far, g);
    let f = kids_entries(s, far, g);
    let e = entries(s, kids[i - 1], g);
    assert(f + (e + give) =~= (f + e) + give);
}

/// The entries of the children after child `i`, where the first of them
/// gained `give` in front and the others are as they were.
proof fn lemma_entries_behind<K, V>(
    s: Seq<NodeView<K, V>>,
    s1: Seq<NodeView<K, V>>,
    kids: Seq<int>,
    g: nat,
    i: int,
    give: Seq<(K, V)>,
)
    requires
        0 <= i < kids.len() - 1,
        forall|j: int|
            i + 1 < j < kids.len() ==> entries(s1, #[trigger] kids[j], g) == entries(s, kids[j], g),
        entries(s1, kids[i + 1], g) == give + entries(s, kids[i + 1], g),
    ensures
        kids_entries(s1, kids.subrange(i + 1, kids.len() as int), g) == give + kids_entries(
            s,
            kids.subrange(i + 1, kids.len() as int),
            g,
        ),
{
    let near = seq![kids[i + 1]];
    let far = kids.subrange(i + 2, kids.len() as int);
    assert(kids.subrange(i + 1, kids.len() as int) =~= near + far);
    lemma_kids_entries_concat(s1, near, far, g);
    lemma_kids_entries_concat(s, near, far, g);
    lemma_kids_entries_one(s1, kids[i + 1], g);
    lemma_kids_entries_one(s, kids[i + 1], g);
    assert forall|j: int| 0 <= j < far.len() implies entries(s1, #[trigger] far[j], g) == entries(
        s,
        far[j],
        g,
    ) by {
        assert(far[j] == kids[j + i + 2]);
    }
    lemma_kids_entries_eq(s, far, s1, far, g);
    let f = kids_entries(s, far, g);
    let e = entries(s, kids[i + 1], g);
    assert((give + e) + f =~= give + (e + f));
}

/// A run cut out of the middle of three runs, where what is cut off the
/// middle run goes to its neighbours unless there is none.
proof fn lemma_cut<A>(pre: Seq<A>, mid: Seq<A>, post: Seq<A>, df: int, dl: int, cf: int, cb: int)
    requires
        0 <= df,
        0 <= dl,
        df + dl <= mid.len(),
        cf == 0 || (cf == df && pre.len() == 0),
        cb == 0 || (cb == dl && post.len() == 0),
    ensures
        ({
            let all = pre + mid + post;
            let left = if cf == 0 {
                pre + mid.subrange(0, df)
            } else {
                pre
            };
            let right = if cb == 0 {
                mid.subrange(mid.len() - dl, mid.len() as int) + post
            } else {
                post
            };
            left + mid.subrange(df, mid.len() - dl) + right == all.subrange(cf, all.len() - cb)
        }),
{
    let all = pre + mid + post;
    let left = if cf == 0 {
        pre + mid.subrange(0, df)
    } else {
        pre
    };
    let right = if cb == 0 {
        mid.subrange(mid.len() - dl, mid.len() as int) + post
    } else {
        post
    };
    assert(left + mid.subrange(df, mid.len() - dl) + right =~= all.subrange(cf, all.len() - cb));
}

/// What each child other than the one that took the entry holds.
proof fn lemma_kid_entries_after<K: TotalOrder, V>(
    s: Seq<NodeView<K, V>>,
    s1: Seq<NodeView<K, V>>,
    id: int,
    h: nat,
    b: Bounds<K>,
    d: Degrees,
    key: K,
    value: V,
    df: int,
    dl: int,
)
    requires
        kids_after(s, s1, id, h, b, d, key, value, df, dl),
    ensures
        ({
            let i = slot(s, id, key);
            let g = (h - 1) as nat;
            let kids = common_of(s, id).childs;
            let m1 = kid_entries_with(s, id, h, key, value);
            &&& forall|j: int|
                0 <= j <= common_of(s, id).keys.len() && j != i && j != i - 1 && j != i + 1
                    ==> entries(s1, #[trigger] kids[j], g) == entries(s, kids[j], g)
            &&& 0 < i <= common_of(s, id).keys.len() ==> entries(s1, kids[i - 1], g) == entries(
                s,
                kids[i - 1],
                g,
            ) + m1.subrange(0, df)
            &&& 0 <= i < common_of(s, id).keys.len() ==> entries(s1, kids[i + 1], g) == m1.subrange(
                m1.len() - dl,
                m1.len() as int,
            ) + entries(s, kids[i + 1], g)
        }),
{
    let i = slot(s, id, key);
    let g = (h - 1) as nat;
    let kids = common_of(s, id).childs;
    let n = common_of(s, id).keys.len() as int;
    let m1 = kid_entries_with(s, id, h, key, value);
    assert forall|j: int| 0 <= j <= n && j != i && j != i - 1 && j != i + 1 implies entries(
        s1,
        #[trigger] kids[j],
        g,
    ) == entries(s, kids[j], g) by {
        assert(kid_after(s, s1, id, h, b, d, key, value, df, dl, rightmost(s1, kid(s, id, slot(s, id, key)), (h - 1) as nat), j));
        let ej = entries(s, kids[j], g);
        assert(Seq::<(K, V)>::empty() + ej + Seq::<(K, V)>::empty() =~= ej);
    }
    if 0 < i <= n {
        assert(kid_after(s, s1, id, h, b, d, key, value, df, dl, rightmost(s1, kid(s, id, slot(s, id, key)), (h - 1) as nat), i - 1));
        let el = entries(s, kids[i - 1], g);
        assert(Seq::<(K, V)>::empty() + el + m1.subrange(0, df) =~= el + m1.subrange(0, df));
    }
    if 0 <= i < n {
        assert(kid_after(s, s1, id, h, b, d, key, value, df, dl, rightmost(s1, kid(s, id, slot(s, id, key)), (h - 1) as nat), i + 1));
        let er = entries(s, kids[i + 1], g);
        let give = m1.subrange(m1.len() - dl, m1.len() as int);
        assert(give + er + Seq::<(K, V)>::empty() =~= give + er);
    }
}

/// After the insertion the children hold the node's old entries with the
/// new one, less what left the subtree.
proof fn lemma_entries_after<K: TotalOrder, V>(
    s: Seq<NodeView<K, V>>,
    s1: Seq<NodeView<K, V>>,
    id: int,
    h: nat,
    b: Bounds<K>,
    d: Degrees,
    key: K,
    value: V,
    df: int,
    dl: int,
)
    requires
        absorbing(s, s1, id, h, b, d, key, value, df, dl),
        moved_facts(s, s1, id, h, b, key, value, df, dl),
        kids_after(s, s1, id, h, b, d, key, value, df, dl),
    ensures
        ({
            let e1 = with_entry(entries(s, id, h), key, value);
            let m1 = kid_entries_with(s, id, h, key, value);
            &&& kids_entries(s1, common_of(s, id).childs, (h - 1) as nat) == e1.subrange(
                out_front(s, id, key, df),
                e1.len() - out_back(s, id, key, dl),
            )
            &&& e1.len() >= 2
            &&& slot(s, id, key) == 0 ==> e1.subrange(0, df) == m1.subrange(0, df)
            &&& slot(s, id, key) == common_of(s, id).keys.len() ==> e1.subrange(
                e1.len() - dl,
                e1.len() as int,
            ) == m1.subrange(m1.len() - dl, m1.len() as int) && e1.last() == m1.last()
        }),
{
    let g = (h - 1) as nat;
    let i = slot(s, id, key);
    let c = common_of(s, id);
    let kids = c.childs;
    let n = c.keys.len() as int;
    let t = kids[i];
    let m1 = kid_entries_with(s, id, h, key, value);
    let len1 = m1.len() as int;
    let e1 = with_entry(entries(s, id, h), key, value);
    lemma_position(s, id, h, b, d, key, value);
    lemma_kid_entries_after(s, s1, id, h, b, d, key, value, df, dl);
    let pre = before(s, id, h, i);
    let post = after(s, id, h, i);
    let k_pre = kids.subrange(0, i);
    let k_post = kids.subrange(i + 1, n + 1);
    assert(kids =~= (k_pre + seq![t]) + k_post);
    lemma_kids_entries_concat(s1, k_pre + seq![t], k_post, g);
    lemma_kids_entries_concat(s1, k_pre, seq![t], g);
    lemma_kids_entries_one(s1, t, g);
    let give_l = m1.subrange(0, df);
    let give_r = m1.subrange(len1 - dl, len1);
    if i > 0 {
        lemma_entries_before(s, s1, kids, g, i, give_l);
    } else {
        assert(k_pre =~= Seq::<int>::empty());
        assert(pre =~= Seq::<(K, V)>::empty());
    }
    if i < n {
        lemma_entries_behind(s, s1, kids, g, i, give_r);
    } else {
        assert(k_post =~= Seq::<int>::empty());
        assert(post =~= Seq::<(K, V)>::empty());
    }
    let cut_f = out_front(s, id, key, df);
    let cut_b = out_back(s, id, key, dl);
    lemma_cut(pre, m1, post, df, dl, cut_f, cut_b);
    if i == 0 {
        assert(e1.subrange(0, df) =~= m1.subrange(0, df));
    }
    if i == n {
        assert(e1.subrange(e1.len() - dl, e1.len() as int) =~= m1.subrange(len1 - dl, len1));
    }
}

/// After the insertion, and with the separators mended, the children are
/// in order under the mended bounds.
proof fn lemma_kids_ok_after<K: TotalOrder, V>(
    s: Seq<NodeView<K, V>>,
    s1: Seq<NodeView<K, V>>,
    id: int,
    h: nat,
    b: Bounds<K>,
    d: Degrees,
    key: K,
    value: V,
    df: int,
    dl: int,
)
    requires
        absorbing(s, s1, id, h, b, d, key, value, df, dl),
        moved_facts(s, s1, id, h, b, key, value, df, dl),
        kids_after(s, s1, id, h, b, d, key, value, df, dl),
    ensures
        kids_ok(
            s1,
            common_of(s, id).childs,
            mended_keys(s, s1, id, h, key, value, df, dl),
            (h - 1) as nat,
            mended_bounds(s, s1, id, h, b, key, value, df, dl),
            d,
        ),
{
    let g = (h - 1) as nat;
    let i = slot(s, id, key);
    let c = common_of(s, id);
    let kids = c.childs;
    let t = kids[i];
    let keys1 = mended_keys(s, s1, id, h, key, value, df, dl);
    let b1 = mended_bounds(s, s1, id, h, b, key, value, df, dl);
    let m1 = kid_entries_with(s, id, h, key, value);
    lemma_mended_keys(s, s1, id, h, b, d, key, value, df, dl);
    lemma_kids_apart_after(s, s1, id, h, b, d, key, value, df, dl);
    lemma_seams_after(s, s1, id, h, b, d, key, value, df, dl);
    assert(child_bounds(keys1, b1, i) == kept_bounds(
        s1,
        t,
        g,
        kid_bounds(s, id, b, i),
        m1,
        df,
        dl,
    ));
    assert forall|j: int| 0 <= j < kids.len() implies subtree(
        s1,
        #[trigger] kids[j],
        g,
        child_bounds(keys1, b1, j),
        d,
    ) by {
        if j != i {
            assert(kid_after(s, s1, id, h, b, d, key, value, df, dl, rightmost(s1, kid(s, id, slot(s, id, key)), (h - 1) as nat), j));
        }
    }
}

/// The arena after the node at `id` has mended its separators.
pub open spec fn mended<K: TotalOrder, V>(
    s: Seq<NodeView<K, V>>,
    s1: Seq<NodeView<K, V>>,
    id: int,
    h: nat,
    key: K,
    value: V,
    df: int,
    dl: int,
) -> Seq<NodeView<K, V>> {
    s1.update(
        id,
        NodeView::Common(
            CommonView { keys: mended_keys(s, s1, id, h, key, value, df, dl), ..common_of(s, id) },
        ),
    )
}

/// The nodes under the children after the insertion: those that were
/// under them, and the added slots; never the parent.
pub open spec fn members_after<K, V>(s: Seq<NodeView<K, V>>, s1: Seq<NodeView<K, V>>, id: int, h: nat) -> bool {
    &&& forall|j: int, x: int|
        0 <= j <= common_of(s, id).keys.len() && #[trigger] in_subtree(
            s1,
            common_of(s, id).childs[j],
            (h - 1) as nat,
            x,
        ) ==> x != id && (in_subtree(s, id, h, x) || s.len() <= x < s1.len())
    &&& forall|x: int|
        #![trigger in_subtree(s, id, h, x)]
        in_subtree(s, id, h, x) || s.len() <= x < s1.len() ==> x == id || exists|j: int|
            0 <= j <= common_of(s, id).keys.len() && in_subtree(
                s1,
                #[trigger] common_of(s, id).childs[j],
                (h - 1) as nat,
                x,
            )
}

/// The parts of `kept_rest`, put together for the node at `id`, whose
/// subtree ends with the leaf `rm1`.
pub proof fn lemma_assemble<K: TotalOrder, V>(
    s: Seq<NodeView<K, V>>,
    s1: Seq<NodeView<K, V>>,
    s2: Seq<NodeView<K, V>>,
    id: int,
    h: nat,
    d: Degrees,
    key: K,
    value: V,
    df: int,
    dl: int,
    rm1: int,
)
    requires
        h > 0,
        0 <= id < s.len() <= s1.len(),
        s2.len() == s1.len(),
        forall|x: int| 0 <= x < s1.len() && x != id ==> #[trigger] s2[x] == s1[x],
        s1[id] is Common,
        0 <= df,
        0 <= dl,
        df + dl <= 1,
        links_after(s, s1, id, h, d, key, value, df, dl, rm1),
        nodes_kept(s, s2, id, h, id, None),
        leftmost(s2, id, h) == leftmost(s, id, h),
        rightmost(s2, id, h) == rm1,
        ({
            let e1 = with_entry(entries(s, id, h), key, value);
            let m1 = kid_entries_with(s, id, h, key, value);
            let cf = out_front(s, id, key, df);
            let cb = out_back(s, id, key, dl);
            &&& entries(s2, id, h) == e1.subrange(cf, e1.len() - cb)
            &&& e1.subrange(0, cf) == m1.subrange(0, cf)
            &&& e1.subrange(e1.len() - cb, e1.len() as int) == m1.subrange(
                m1.len() - cb,
                m1.len() as int,
            )
        }),
    ensures
        kept_rest(s, s2, id, h, d, key, value, out_front(s, id, key, df), out_back(s, id, key, dl)),
        min_key(s2, id, h) == min_key(s1, common_of(s, id).childs.first(), (h - 1) as nat),
{
    let lm = leftmost(s, id, h);
    assert(s2[lm] == s1[lm]);
    assert(s2[rm1] == s1[rm1]);
    assert(untouched(s, s2, id, h)) by {
        assert forall|x: int|
            0 <= x < s.len() && !in_subtree(s, id, h, x) && Some(x) != left_link(s, id, h) && Some(
                x,
            ) != right_link(s, id, h) implies #[trigger] s2[x] == s[x] by {
            assert(s1[x] == s[x]);
        }
    }
    if left_link(s, id, h) is Some {
        let l = left_link(s, id, h).unwrap();
        assert(s2[l] == s1[l]);
    }
    if right_link(s, id, h) is Some {
        let r = right_link(s, id, h).unwrap();
        assert(s2[r] == s1[r]);
    }
}

/// Where the child that took the entry kept its place, the node's subtree
/// keeps its place once the separators are mended; what the child gave to
/// a leaf outside the node's subtree, the subtree gave.
pub proof fn lemma_absorb_kept<K: TotalOrder, V>(
    s: Seq<NodeView<K, V>>,
    s1: Seq<NodeView<K, V>>,
    id: int,
    h: nat,
    b: Bounds<K>,
    d: Degrees,
    key: K,
    value: V,
    df: int,
    dl: int,
)
    requires
        absorbing(s, s1, id, h, b, d, key, value, df, dl),
    ensures
        kept(
            s,
            mended(s, s1, id, h, key, value, df, dl),
            id,
            h,
            b,
            d,
            key,
            value,
            out_front(s, id, key, df),
            out_back(s, id, key, dl),
        ),
        out_front(s, id, key, df) == 1 ==> min_key(
            mended(s, s1, id, h, key, value, df, dl),
            id,
            h,
        ) == min_key(s1, kid(s, id, slot(s, id, key)), (h - 1) as nat),
        out_back(s, id, key, dl) == 1 ==> with_entry(entries(s, id, h), key, value).last()
            == kid_entries_with(s, id, h, key, value).last(),
{
    let g = (h - 1) as nat;
    let i = slot(s, id, key);
    let c = common_of(s, id);
    let kids = c.childs;
    let n = c.keys.len() as int;
    let keys1 = mended_keys(s, s1, id, h, key, value, df, dl);
    let b1 = mended_bounds(s, s1, id, h, b, key, value, df, dl);
    let m1 = kid_entries_with(s, id, h, key, value);
    let e1 = with_entry(entries(s, id, h), key, value);
    let s2 = mended(s, s1, id, h, key, value, df, dl);
    let cf = out_front(s, id, key, df);
    let cb = out_back(s, id, key, dl);
    lemma_moved_facts(s, s1, id, h, b, d, key, value, df, dl);
    assert(kids_after(s, s1, id, h, b, d, key, value, df, dl)) by {
        lemma_absorbing_beside(s, s1, id, h, b, d, key, value, df, dl);
        let last = rightmost(s1, kid(s, id, i), g);
        assert forall|j: int| 0 <= j <= n && j != i implies #[trigger] kid_after(
            s,
            s1,
            id,
            h,
            b,
            d,
            key,
            value,
            df,
            dl,
            last,
            j,
        ) by {
            lemma_kid_after(s, s1, id, h, b, d, key, value, df, dl, last, j);
        }
    }
    lemma_kids_ok_after(s, s1, id, h, b, d, key, value, df, dl);
    lemma_mended_keys(s, s1, id, h, b, d, key, value, df, dl);
    lemma_kids_apart_after(s, s1, id, h, b, d, key, value, df, dl);
    assert(members_after(s, s1, id, h));
    lemma_entries_after(s, s1, id, h, b, d, key, value, df, dl);
    lemma_absorb_links(s, s1, id, h, b, d, key, value, df, dl);
    assert(common_of(s2, id).childs == kids);
    assert(common_of(s2, id).keys == keys1);
    assert forall|j: int, x: int|
        0 <= j < kids.len() && in_subtree(s1, #[trigger] kids[j], g, x) implies #[trigger] s2[x]
        == s1[x] && x != id by {
        lemma_member_valid(s1, kids[j], g, child_bounds(keys1, b1, j), d, x);
    }
    lemma_reparent(s1, s2, id, h, b1, d, 0);
    assert(e1.subrange(0, cf) == m1.subrange(0, cf)) by {
        if cf == 0 {
            assert(e1.subrange(0, 0) =~= m1.subrange(0, 0));
        }
    }
    assert(e1.subrange(e1.len() - cb, e1.len() as int) == m1.subrange(
        m1.len() - cb,
        m1.len() as int,
    )) by {
        if cb == 0 {
            assert(e1.subrange(e1.len() as int, e1.len() as int) =~= m1.subrange(
                m1.len() as int,
                m1.len() as int,
            ));
        }
    }
    assert(nodes_kept(s, s2, id, h, id, None)) by {
        assert forall|x: int|
            #![trigger in_subtree(s2, id, h, x)]
            #![trigger in_subtree(s, id, h, x)]
            in_subtree(s2, id, h, x) <==> (in_subtree(s, id, h, x) || s.len() <= x < s2.len()) by {
            if in_subtree(s2, id, h, x) && x != id {
                let j = choose|j: int|
                    0 <= j < kids.len() && in_subtree(s1, #[trigger] kids[j], g, x);
                assert(in_subtree(s1, kids[j], g, x));
            }
            if (in_subtree(s, id, h, x) || s.len() <= x < s2.len()) && x != id {
                assert(in_subtree(s, id, h, x) || s.len() <= x < s1.len());
                let j = choose|j: int|
                    0 <= j <= common_of(s, id).keys.len() && in_subtree(s1, #[trigger] kids[j], g, x);
                assert(in_subtree(s1, kids[j], g, x));
                assert(in_subtree(s2, id, h, x));
            }
        }
    }
    lemma_assemble(s, s1, s2, id, h, d, key, value, df, dl, rightmost(s1, kids.last(), g));
    assert(kept_bounds(s2, id, h, b, e1, cf, cb) == b1);
}

/// The outer leaves and links of the node's subtree after the insertion.
pub open spec fn links_after<K: TotalOrder, V>(
    s: Seq<NodeView<K, V>>,
    s1: Seq<NodeView<K, V>>,
    id: int,
    h: nat,
    d: Degrees,
    key: K,
    value: V,
    df: int,
    dl: int,
    rm1: int,
) -> bool {
    let g = (h - 1) as nat;
    let kids = common_of(s, id).childs;
    let m1 = kid_entries_with(s, id, h, key, value);
    let cf = out_front(s, id, key, df);
    let cb = out_back(s, id, key, dl);
    &&& untouched(s, s1, id, h)
    &&& leftmost(s1, kids.first(), g) == leftmost(s, id, h)
    &&& 0 <= leftmost(s, id, h) < s1.len()
    &&& 0 <= rm1 < s1.len()
    &&& s1[leftmost(s, id, h)] is Leaf
    &&& s1[rm1] is Leaf
    &&& leaf_of(s1, leftmost(s, id, h)).left == left_link(s, id, h)
    &&& leaf_of(s1, rm1).right == right_link(s, id, h)
    &&& match left_link(s, id, h) {
        Some(l) => {
            &&& leaf_of(s, l).keys.len() + cf <= d.leaf
            &&& 0 <= l < s.len()
            &&& l != id
            &&& s1[l] == NodeView::Leaf(fed_behind(leaf_of(s, l), m1.subrange(0, cf)))
        },
        None => cf == 0,
    }
    &&& match right_link(s, id, h) {
        Some(r) => {
            &&& leaf_of(s, r).keys.len() + cb <= d.leaf
            &&& 0 <= r < s.len()
            &&& r != id
            &&& s1[r] == NodeView::Leaf(
                fed_in_front(
                    leaf_of(s, r),
                    m1.subrange(m1.len() - cb, m1.len() as int),
                    rm1,
                ),
            )
        },
        None => cb == 0,
    }
}

/// The outer leaves and links of the node's subtree after the insertion
/// are as `links_after` says.
proof fn lemma_absorb_links<K: TotalOrder, V>(
    s: Seq<NodeView<K, V>>,
    s1: Seq<NodeView<K, V>>,
    id: int,
    h: nat,
    b: Bounds<K>,
    d: Degrees,
    key: K,
    value: V,
    df: int,
    dl: int,
)
    requires
        absorbing(s, s1, id, h, b, d, key, value, df, dl),
        moved_facts(s, s1, id, h, b, key, value, df, dl),
        kids_after(s, s1, id, h, b, d, key, value, df, dl),
    ensures
        links_after(
            s,
            s1,
            id,
            h,
            d,
            key,
            value,
            df,
            dl,
            rightmost(s1, common_of(s, id).childs.last(), (h - 1) as nat),
        ),
{
    let g = (h - 1) as nat;
    let i = slot(s, id, key);
    let c = common_of(s, id);
    let kids = c.childs;
    let n = c.keys.len() as int;
    let t = kids[i];
    let m1 = kid_entries_with(s, id, h, key, value);
    lemma_descend(s, id, h, b, d, key);
    lemma_end_leaves(s, id, h, b, d);
    lemma_kids_ok_after(s, s1, id, h, b, d, key, value, df, dl);
    let keys1 = mended_keys(s, s1, id, h, key, value, df, dl);
    let b1 = mended_bounds(s, s1, id, h, b, key, value, df, dl);
    assert(subtree(s1, kids[0], g, child_bounds(keys1, b1, 0), d));
    assert(subtree(s1, kids[n], g, child_bounds(keys1, b1, n), d));
    lemma_end_leaves(s1, kids[0], g, child_bounds(keys1, b1, 0), d);
    lemma_end_leaves(s1, kids[n], g, child_bounds(keys1, b1, n), d);
    lemma_member_valid(s1, kids[0], g, child_bounds(keys1, b1, 0), d, leftmost(s1, kids[0], g));
    lemma_member_valid(s1, kids[n], g, child_bounds(keys1, b1, n), d, rightmost(s1, kids[n], g));
    if i > 0 {
        assert(kid_after(s, s1, id, h, b, d, key, value, df, dl, rightmost(s1, kid(s, id, slot(s, id, key)), (h - 1) as nat), 0));
        lemma_end_leaves(s, kids[i - 1], g, kid_bounds(s, id, b, i - 1), d);
        assert(in_subtree(s, id, h, rightmost(s, kids[i - 1], g)));
    }
    if i < n {
        assert(kid_after(s, s1, id, h, b, d, key, value, df, dl, rightmost(s1, kid(s, id, slot(s, id, key)), (h - 1) as nat), n));
        lemma_end_leaves(s, kids[i + 1], g, kid_bounds(s, id, b, i + 1), d);
        assert(in_subtree(s, id, h, leftmost(s, kids[i + 1], g)));
    }
    assert forall|x: int|
        0 <= x < s.len() && !in_subtree(s, id, h, x) && Some(x) != left_link(s, id, h) && Some(x)
            != right_link(s, id, h) implies #[trigger] s1[x] == s[x] by {
        if in_subtree(s, t, g, x) {
            assert(in_subtree(s, id, h, x));
        }
    }
    if left_link(s, id, h) is Some {
        let l = left_link(s, id, h).unwrap();
        if i > 0 {
            assert(!in_subtree(s, t, g, l)) by {
                if in_subtree(s, t, g, l) {
                    assert(in_subtree(s, id, h, l));
                }
            }
            assert(s1[l] == s[l]);
            lemma_fed_nothing(leaf_of(s, l), m1.subrange(0, 0), 0);
        }
    }
    if right_link(s, id, h) is Some {
        let r = right_link(s, id, h).unwrap();
        if i < n {
            assert(!in_subtree(s, t, g, r)) by {
                if in_subtree(s, t, g, r) {
                    assert(in_subtree(s, id, h, r));
                }
            }
            assert(s1[r] == s[r]);
            lemma_fed_nothing(
                leaf_of(s, r),
                m1.subrange(m1.len() as int, m1.len() as int),
                rightmost(s, id, h),
            );
        }
    }
}

} // verus!
