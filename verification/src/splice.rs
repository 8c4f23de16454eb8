//! An internal node after the child that took the entry was split: the
//! node takes the separator and the new child, and its subtree keeps its
//! place, perhaps with one key more than its degree allows.

use crate::absorb::{beside, kid_after, kid_entries_with, lemma_kid_after, moved_facts};
use crate::common_node::CommonView;
use crate::descend::{kid, kid_bounds, lemma_descend, slot};
use crate::entries::{lemma_entries_props, lemma_kids_entries_concat, lemma_kids_entries_one};
use crate::mend::{lemma_assemble, links_after};
use crate::order::{lemma_total_order, sorted, TotalOrder};
use crate::outcome::{
    insert_post, insert_pre, kept_rest, left_link, lemma_fed_nothing, nodes_kept, right_link,
    with_entry,
};
use crate::position::{after, before, lemma_position};
use crate::reparent::{common_ok, lemma_reparent};
use crate::shape::{
    apart, Bounds, child_bounds, common_of, Degrees, entries, in_subtree, inside, kids_entries,
    kids_ok, leaf_of, leftmost, lemma_end_leaves, lemma_kids_entries_eq, lemma_member_valid,
    rightmost, seam, subtree, within,
};
use crate::types::{InsertType, NodeView};
use vstd::prelude::*;

verus! {

/// The insertion went down from the node at `id` to the child that takes
/// the key, and that child was split into itself and the new node `c`,
/// parted by `m`.
pub open spec fn splitting<K: TotalOrder, V>(
    s: Seq<NodeView<K, V>>,
    s1: Seq<NodeView<K, V>>,
    id: int,
    h: nat,
    b: Bounds<K>,
    d: Degrees,
    key: K,
    value: V,
    m: K,
    c: usize,
) -> bool {
    &&& insert_pre(s, id, h, b, d, key)
    &&& h > 0
    &&& 0 <= kid(s, id, slot(s, id, key)) <= usize::MAX
    &&& insert_post(
        s,
        s1,
        kid(s, id, slot(s, id, key)),
        (h - 1) as nat,
        kid_bounds(s, id, b, slot(s, id, key)),
        d,
        key,
        value,
        InsertType::Split(m, kid(s, id, slot(s, id, key)) as usize, c),
    )
}

/// The children with the new node behind the child that was split.
pub open spec fn spliced_kids<K: TotalOrder, V>(s: Seq<NodeView<K, V>>, id: int, key: K, c: int) -> Seq<
    int,
> {
    common_of(s, id).childs.insert(slot(s, id, key) + 1, c)
}

/// The separators with the new one in front of the new node.
pub open spec fn spliced_keys<K: TotalOrder, V>(s: Seq<NodeView<K, V>>, id: int, key: K, m: K) -> Seq<
    K,
> {
    common_of(s, id).keys.insert(slot(s, id, key), m)
}

/// The arena after the node at `id` has taken the separator and the new
/// child.
pub open spec fn spliced<K: TotalOrder, V>(
    s: Seq<NodeView<K, V>>,
    s1: Seq<NodeView<K, V>>,
    id: int,
    key: K,
    m: K,
    c: int,
) -> Seq<NodeView<K, V>> {
    s1.update(
        id,
        NodeView::Common(
            CommonView {
                keys: spliced_keys(s, id, key, m),
                childs: spliced_kids(s, id, key, c),
                ..common_of(s, id)
            },
        ),
    )
}

/// What the split of the child left of the other children, and of the
/// child's entries.
pub proof fn lemma_split_facts<K: TotalOrder, V>(
    s: Seq<NodeView<K, V>>,
    s1: Seq<NodeView<K, V>>,
    id: int,
    h: nat,
    b: Bounds<K>,
    d: Degrees,
    key: K,
    value: V,
    m: K,
    c: usize,
)
    requires
        splitting(s, s1, id, h, b, d, key, value, m, c),
    ensures
        moved_facts(s, s1, id, h, b, key, value, 0, 0),
        beside(
            s,
            s1,
            id,
            h,
            b,
            d,
            key,
            value,
            0,
            0,
            rightmost(s1, c as int, (h - 1) as nat),
        ),
{
    let g = (h - 1) as nat;
    let i = slot(s, id, key);
    let t = kid(s, id, i);
    let cb = kid_bounds(s, id, b, i);
    let m1 = kid_entries_with(s, id, h, key, value);
    lemma_descend(s, id, h, b, d, key);
    lemma_position(s, id, h, b, d, key, value);
    lemma_entries_props(s1, t, g, Bounds { lo: cb.lo, hi: Some(m) }, d);
    lemma_end_leaves(s, id, h, b, d);
    let ea = entries(s1, t, g);
    let ec = entries(s1, c as int, g);
    assert(m1[0] == (ea + ec)[0]);
    assert(!in_subtree(s, t, g, id));
    if left_link(s, t, g) is Some {
        let l = left_link(s, t, g).unwrap();
        assert(s[l] is Leaf);
        lemma_fed_nothing(leaf_of(s, l), m1.subrange(0, 0), 0);
    }
    if right_link(s, t, g) is Some {
        let r = right_link(s, t, g).unwrap();
        assert(s[r] is Leaf);
        lemma_fed_nothing(
            leaf_of(s, r),
            m1.subrange(m1.len() as int, m1.len() as int),
            rightmost(s1, c as int, g),
        );
    }
    assert(s1[id] == s[id]);
}

/// Every child other than the one that was split is as `kid_after` says.
pub open spec fn split_kids_after<K: TotalOrder, V>(
    s: Seq<NodeView<K, V>>,
    s1: Seq<NodeView<K, V>>,
    id: int,
    h: nat,
    b: Bounds<K>,
    d: Degrees,
    key: K,
    value: V,
    c: int,
) -> bool {
    forall|j: int|
        0 <= j <= common_of(s, id).keys.len() && j != slot(s, id, key) ==> #[trigger] kid_after(
            s,
            s1,
            id,
            h,
            b,
            d,
            key,
            value,
            0,
            0,
            rightmost(s1, c, (h - 1) as nat),
            j,
        )
}

/// The separators with the new one are sorted and within the bounds.
proof fn lemma_spliced_keys<K: TotalOrder, V>(
    s: Seq<NodeView<K, V>>,
    s1: Seq<NodeView<K, V>>,
    id: int,
    h: nat,
    b: Bounds<K>,
    d: Degrees,
    key: K,
    value: V,
    m: K,
    c: usize,
)
    requires
        splitting(s, s1, id, h, b, d, key, value, m, c),
    ensures
        spliced_keys(s, id, key, m).len() == common_of(s, id).keys.len() + 1,
        spliced_kids(s, id, key, c as int).len() == common_of(s, id).keys.len() + 2,
        0 <= slot(s, id, key) <= common_of(s, id).keys.len(),
        sorted(spliced_keys(s, id, key, m)),
        within(spliced_keys(s, id, key, m), b),
{
    lemma_total_order::<K>();
    lemma_descend(s, id, h, b, d, key);
    let i = slot(s, id, key);
    let keys = common_of(s, id).keys;
    let n = keys.len() as int;
    let keys2 = spliced_keys(s, id, key, m);
    let cb = kid_bounds(s, id, b, i);
    assert(inside(m, cb));
    assert forall|x: int, y: int| 0 <= x < y < keys2.len() implies (#[trigger] keys2[x]).le(
        #[trigger] keys2[y],
    ) by {
        if y < i {
            assert(keys[x].le(keys[y]));
        } else if y == i {
            if x < i - 1 {
                assert(keys[x].le(keys[i - 1]));
            }
        } else if x < i {
            assert(keys[x].le(keys[y - 1]));
        } else if x == i {
            if y - 1 > i {
                assert(keys[i].le(keys[y - 1]));
            }
        } else {
            assert(keys[x - 1].le(keys[y - 1]));
        }
    }
    assert forall|x: int| 0 <= x < keys2.len() implies inside(#[trigger] keys2[x], b) by {
        if x < i {
            assert(inside(keys[x], b));
        } else if x > i {
            assert(inside(keys[x - 1], b));
        } else {
            if i > 0 {
                assert(inside(keys[i - 1], b));
            }
            if i < n {
                assert(inside(keys[i], b));
            }
        }
    }
}

/// Each child of the new list is a well-formed subtree within the bounds
/// that the new separators give it.
proof fn lemma_spliced_subtrees<K: TotalOrder, V>(
    s: Seq<NodeView<K, V>>,
    s1: Seq<NodeView<K, V>>,
    id: int,
    h: nat,
    b: Bounds<K>,
    d: Degrees,
    key: K,
    value: V,
    m: K,
    c: usize,
)
    requires
        splitting(s, s1, id, h, b, d, key, value, m, c),
        split_kids_after(s, s1, id, h, b, d, key, value, c as int),
    ensures
        forall|j: int|
            0 <= j < spliced_kids(s, id, key, c as int).len() ==> subtree(
                s1,
                #[trigger] spliced_kids(s, id, key, c as int)[j],
                (h - 1) as nat,
                child_bounds(spliced_keys(s, id, key, m), b, j),
                d,
            ),
{
    lemma_spliced_keys(s, s1, id, h, b, d, key, value, m, c);
    let g = (h - 1) as nat;
    let i = slot(s, id, key);
    let keys = common_of(s, id).keys;
    let kids = common_of(s, id).childs;
    let n = keys.len() as int;
    let keys2 = spliced_keys(s, id, key, m);
    let kids2 = spliced_kids(s, id, key, c as int);
    let last = rightmost(s1, c as int, g);
    assert forall|j: int| 0 <= j < kids2.len() implies subtree(
        s1,
        #[trigger] kids2[j],
        g,
        child_bounds(keys2, b, j),
        d,
    ) by {
        if j < i {
            assert(kid_after(s, s1, id, h, b, d, key, value, 0, 0, last, j));
            assert(child_bounds(keys2, b, j) == child_bounds(keys, b, j));
        } else if j == i {
            assert(child_bounds(keys2, b, j) == Bounds {
                lo: kid_bounds(s, id, b, i).lo,
                hi: Some(m),
            });
        } else if j == i + 1 {
            assert(child_bounds(keys2, b, j) == Bounds {
                lo: Some(m),
                hi: kid_bounds(s, id, b, i).hi,
            });
        } else {
            assert(kid_after(s, s1, id, h, b, d, key, value, 0, 0, last, j - 1));
            assert(child_bounds(keys2, b, j) == child_bounds(keys, b, j - 1));
        }
    }
}

/// The nodes under the children of the new list: those that were under
/// the node, and the added slots; never the node itself, and none under
/// two children.
pub open spec fn spliced_members<K: TotalOrder, V>(
    s: Seq<NodeView<K, V>>,
    s1: Seq<NodeView<K, V>>,
    id: int,
    h: nat,
    kids2: Seq<int>,
) -> bool {
    &&& forall|j: int, k: int|
        0 <= j < k < kids2.len() ==> #[trigger] apart(s1, kids2, (h - 1) as nat, j, k)
    &&& forall|j: int, x: int|
        0 <= j < kids2.len() && #[trigger] in_subtree(s1, kids2[j], (h - 1) as nat, x) ==> x != id
            && 0 <= x < s1.len() && (in_subtree(s, id, h, x) || s.len() <= x < s1.len())
    &&& forall|x: int|
        #![trigger in_subtree(s, id, h, x)]
        in_subtree(s, id, h, x) || s.len() <= x < s1.len() ==> x == id || exists|j: int|
            0 <= j < kids2.len() && in_subtree(s1, #[trigger] kids2[j], (h - 1) as nat, x)
}

/// Where a node under a child of the new list was before the insertion:
/// under the child that was split, if it is under one of the halves, else
/// under the same child as now; or it is an added slot.
spec fn came_from<K: TotalOrder, V>(
    s: Seq<NodeView<K, V>>,
    s1: Seq<NodeView<K, V>>,
    id: int,
    h: nat,
    key: K,
    j: int,
    x: int,
) -> bool {
    let g = (h - 1) as nat;
    let i = slot(s, id, key);
    let kids = common_of(s, id).childs;
    &&& 0 <= x < s1.len()
    &&& if j == i || j == i + 1 {
        in_subtree(s, kids[i], g, x) || s.len() <= x < s1.len()
    } else if j < i {
        in_subtree(s, kids[j], g, x)
    } else {
        in_subtree(s, kids[j - 1], g, x)
    }
}

/// A node under a child of the new list is where `came_from` says; it is
/// not the parent, and it was under the parent or is an added slot.
proof fn lemma_came_from<K: TotalOrder, V>(
    s: Seq<NodeView<K, V>>,
    s1: Seq<NodeView<K, V>>,
    id: int,
    h: nat,
    b: Bounds<K>,
    d: Degrees,
    key: K,
    value: V,
    m: K,
    c: usize,
    j: int,
    x: int,
)
    requires
        splitting(s, s1, id, h, b, d, key, value, m, c),
        split_kids_after(s, s1, id, h, b, d, key, value, c as int),
        0 <= j < spliced_kids(s, id, key, c as int).len(),
        in_subtree(s1, spliced_kids(s, id, key, c as int)[j], (h - 1) as nat, x),
    ensures
        came_from(s, s1, id, h, key, j, x),
        x != id,
        in_subtree(s, id, h, x) || s.len() <= x < s1.len(),
{
    lemma_spliced_keys(s, s1, id, h, b, d, key, value, m, c);
    lemma_spliced_subtrees(s, s1, id, h, b, d, key, value, m, c);
    let g = (h - 1) as nat;
    let i = slot(s, id, key);
    let keys = common_of(s, id).keys;
    let kids = common_of(s, id).childs;
    let keys2 = spliced_keys(s, id, key, m);
    let kids2 = spliced_kids(s, id, key, c as int);
    let last = rightmost(s1, c as int, g);
    lemma_member_valid(s1, kids2[j], g, child_bounds(keys2, b, j), d, x);
    let oj = if j <= i {
        j
    } else {
        j - 1
    };
    if j < i {
        assert(kid_after(s, s1, id, h, b, d, key, value, 0, 0, last, j));
    } else if j > i + 1 {
        assert(kid_after(s, s1, id, h, b, d, key, value, 0, 0, last, j - 1));
    }
    assert(came_from(s, s1, id, h, key, j, x));
    if in_subtree(s, kids[oj], g, x) {
        lemma_member_valid(s, kids[oj], g, child_bounds(keys, b, oj), d, x);
        assert(in_subtree(s, id, h, x));
    }
}

/// No node is under two children of the new list.
proof fn lemma_spliced_apart<K: TotalOrder, V>(
    s: Seq<NodeView<K, V>>,
    s1: Seq<NodeView<K, V>>,
    id: int,
    h: nat,
    b: Bounds<K>,
    d: Degrees,
    key: K,
    value: V,
    m: K,
    c: usize,
    j: int,
    k: int,
)
    requires
        splitting(s, s1, id, h, b, d, key, value, m, c),
        split_kids_after(s, s1, id, h, b, d, key, value, c as int),
        0 <= j < k < spliced_kids(s, id, key, c as int).len(),
    ensures
        apart(s1, spliced_kids(s, id, key, c as int), (h - 1) as nat, j, k),
{
    lemma_spliced_keys(s, s1, id, h, b, d, key, value, m, c);
    let g = (h - 1) as nat;
    let i = slot(s, id, key);
    let keys = common_of(s, id).keys;
    let kids = common_of(s, id).childs;
    let kids2 = spliced_kids(s, id, key, c as int);
    let oj = if j <= i {
        j
    } else {
        j - 1
    };
    let ok = if k <= i {
        k
    } else {
        k - 1
    };
    if oj < ok {
        assert(apart(s, kids, g, oj, ok));
    }
    assert forall|x: int| !(in_subtree(s1, kids2[j], g, x) && #[trigger] in_subtree(
        s1,
        kids2[k],
        g,
        x,
    )) by {
        if in_subtree(s1, kids2[j], g, x) && in_subtree(s1, kids2[k], g, x) {
            lemma_came_from(s, s1, id, h, b, d, key, value, m, c, j, x);
            lemma_came_from(s, s1, id, h, b, d, key, value, m, c, k, x);
            if j == i && k == i + 1 {
            } else if j == i || j == i + 1 {
                assert(in_subtree(s, kids[ok], g, x));
                lemma_member_valid(s, kids[ok], g, child_bounds(keys, b, ok), d, x);
            } else if k == i || k == i + 1 {
                assert(in_subtree(s, kids[oj], g, x));
                lemma_member_valid(s, kids[oj], g, child_bounds(keys, b, oj), d, x);
            }
        }
    }
}

/// Every node that was under the parent, and every added slot, is under
/// a child of the new list.
proof fn lemma_spliced_covers<K: TotalOrder, V>(
    s: Seq<NodeView<K, V>>,
    s1: Seq<NodeView<K, V>>,
    id: int,
    h: nat,
    b: Bounds<K>,
    d: Degrees,
    key: K,
    value: V,
    m: K,
    c: usize,
    x: int,
)
    requires
        splitting(s, s1, id, h, b, d, key, value, m, c),
        split_kids_after(s, s1, id, h, b, d, key, value, c as int),
        in_subtree(s, id, h, x) || s.len() <= x < s1.len(),
        x != id,
    ensures
        exists|j: int|
            0 <= j < spliced_kids(s, id, key, c as int).len() && in_subtree(
                s1,
                #[trigger] spliced_kids(s, id, key, c as int)[j],
                (h - 1) as nat,
                x,
            ),
{
    lemma_spliced_keys(s, s1, id, h, b, d, key, value, m, c);
    let g = (h - 1) as nat;
    let i = slot(s, id, key);
    let kids = common_of(s, id).childs;
    let kids2 = spliced_kids(s, id, key, c as int);
    let last = rightmost(s1, c as int, g);
    if in_subtree(s, id, h, x) {
        let j = choose|j: int| 0 <= j < kids.len() && in_subtree(s, #[trigger] kids[j], g, x);
        if j < i {
            assert(kid_after(s, s1, id, h, b, d, key, value, 0, 0, last, j));
            assert(kids2[j] == kids[j]);
            assert(in_subtree(s1, kids2[j], g, x));
        } else if j > i {
            assert(kid_after(s, s1, id, h, b, d, key, value, 0, 0, last, j));
            assert(kids2[j + 1] == kids[j]);
            assert(in_subtree(s1, kids2[j + 1], g, x));
        } else {
            assert(in_subtree(s1, kids2[i], g, x) || in_subtree(s1, kids2[i + 1], g, x));
        }
    } else {
        assert(in_subtree(s1, kids2[i], g, x) || in_subtree(s1, kids2[i + 1], g, x));
    }
}

/// The nodes under the children of the new list are as `spliced_members`
/// says.
proof fn lemma_spliced_members<K: TotalOrder, V>(
    s: Seq<NodeView<K, V>>,
    s1: Seq<NodeView<K, V>>,
    id: int,
    h: nat,
    b: Bounds<K>,
    d: Degrees,
    key: K,
    value: V,
    m: K,
    c: usize,
)
    requires
        splitting(s, s1, id, h, b, d, key, value, m, c),
        split_kids_after(s, s1, id, h, b, d, key, value, c as int),
    ensures
        spliced_members(s, s1, id, h, spliced_kids(s, id, key, c as int)),
{
    let g = (h - 1) as nat;
    let kids2 = spliced_kids(s, id, key, c as int);
    assert forall|j: int, k: int| 0 <= j < k < kids2.len() implies #[trigger] apart(
        s1,
        kids2,
        g,
        j,
        k,
    ) by {
        lemma_spliced_apart(s, s1, id, h, b, d, key, value, m, c, j, k);
    }
    assert forall|j: int, x: int|
        0 <= j < kids2.len() && #[trigger] in_subtree(s1, kids2[j], g, x) implies x != id && 0 <= x
        < s1.len() && (in_subtree(s, id, h, x) || s.len() <= x < s1.len()) by {
        lemma_came_from(s, s1, id, h, b, d, key, value, m, c, j, x);
    }
    assert forall|x: int|
        #![trigger in_subtree(s, id, h, x)]
        in_subtree(s, id, h, x) || s.len() <= x < s1.len() implies x == id || exists|j: int|
            0 <= j < kids2.len() && in_subtree(s1, #[trigger] kids2[j], g, x) by {
        if x != id {
            lemma_spliced_covers(s, s1, id, h, b, d, key, value, m, c, x);
        }
    }
}

/// Each separator of the new list parts its two children.
proof fn lemma_spliced_seams<K: TotalOrder, V>(
    s: Seq<NodeView<K, V>>,
    s1: Seq<NodeView<K, V>>,
    id: int,
    h: nat,
    b: Bounds<K>,
    d: Degrees,
    key: K,
    value: V,
    m: K,
    c: usize,
)
    requires
        splitting(s, s1, id, h, b, d, key, value, m, c),
        moved_facts(s, s1, id, h, b, key, value, 0, 0),
        split_kids_after(s, s1, id, h, b, d, key, value, c as int),
    ensures
        forall|j: int|
            0 <= j < spliced_keys(s, id, key, m).len() ==> #[trigger] seam(
                s1,
                spliced_kids(s, id, key, c as int),
                spliced_keys(s, id, key, m),
                (h - 1) as nat,
                j,
            ),
{
    lemma_spliced_keys(s, s1, id, h, b, d, key, value, m, c);
    lemma_descend(s, id, h, b, d, key);
    let g = (h - 1) as nat;
    let i = slot(s, id, key);
    let keys = common_of(s, id).keys;
    let kids = common_of(s, id).childs;
    let n = keys.len() as int;
    let t = kids[i];
    let keys2 = spliced_keys(s, id, key, m);
    let kids2 = spliced_kids(s, id, key, c as int);
    let last = rightmost(s1, c as int, g);
    assert forall|j: int| 0 <= j < keys2.len() implies #[trigger] seam(s1, kids2, keys2, g, j) by {
        if j < i {
            assert(seam(s, kids, keys, g, j));
            assert(kid_after(s, s1, id, h, b, d, key, value, 0, 0, last, j));
            if j + 1 < i {
                assert(kid_after(s, s1, id, h, b, d, key, value, 0, 0, last, j + 1));
            }
        } else if j == i {
        } else {
            assert(seam(s, kids, keys, g, j - 1));
            assert(kid_after(s, s1, id, h, b, d, key, value, 0, 0, last, j));
            if j - 1 > i {
                assert(kid_after(s, s1, id, h, b, d, key, value, 0, 0, last, j - 1));
            }
        }
    }
}

/// The children of the new list hold the node's old entries with the new
/// one.
proof fn lemma_spliced_entries<K: TotalOrder, V>(
    s: Seq<NodeView<K, V>>,
    s1: Seq<NodeView<K, V>>,
    id: int,
    h: nat,
    b: Bounds<K>,
    d: Degrees,
    key: K,
    value: V,
    m: K,
    c: usize,
)
    requires
        splitting(s, s1, id, h, b, d, key, value, m, c),
        split_kids_after(s, s1, id, h, b, d, key, value, c as int),
    ensures
        kids_entries(s1, spliced_kids(s, id, key, c as int), (h - 1) as nat) == with_entry(
            entries(s, id, h),
            key,
            value,
        ),
{
    lemma_spliced_keys(s, s1, id, h, b, d, key, value, m, c);
    lemma_position(s, id, h, b, d, key, value);
    let g = (h - 1) as nat;
    let i = slot(s, id, key);
    let kids = common_of(s, id).childs;
    let n = common_of(s, id).keys.len() as int;
    let t = kids[i];
    let kids2 = spliced_kids(s, id, key, c as int);
    let last = rightmost(s1, c as int, g);
    let k_pre = kids.subrange(0, i);
    let k_post = kids.subrange(i + 1, n + 1);
    let two = seq![t] + seq![c as int];
    assert(kids2 =~= (k_pre + two) + k_post);
    lemma_kids_entries_concat(s1, k_pre + two, k_post, g);
    lemma_kids_entries_concat(s1, k_pre, two, g);
    lemma_kids_entries_concat(s1, seq![t], seq![c as int], g);
    lemma_kids_entries_one(s1, t, g);
    lemma_kids_entries_one(s1, c as int, g);
    assert forall|j: int| 0 <= j < k_pre.len() implies entries(s1, #[trigger] k_pre[j], g)
        == entries(s, k_pre[j], g) by {
        assert(kid_after(s, s1, id, h, b, d, key, value, 0, 0, last, j));
        let ej = entries(s, kids[j], g);
        assert(Seq::<(K, V)>::empty() + ej + Seq::<(K, V)>::empty() =~= ej);
    }
    lemma_kids_entries_eq(s, k_pre, s1, k_pre, g);
    assert forall|j: int| 0 <= j < k_post.len() implies entries(s1, #[trigger] k_post[j], g)
        == entries(s, k_post[j], g) by {
        assert(kid_after(s, s1, id, h, b, d, key, value, 0, 0, last, j + i + 1));
        let ej = entries(s, kids[j + i + 1], g);
        let m1 = kid_entries_with(s, id, h, key, value);
        assert(m1.subrange(m1.len() - 0, m1.len() as int) =~= Seq::<(K, V)>::empty());
        assert(m1.subrange(0, 0) =~= Seq::<(K, V)>::empty());
        assert(Seq::<(K, V)>::empty() + ej + Seq::<(K, V)>::empty() =~= ej);
    }
    lemma_kids_entries_eq(s, k_post, s1, k_post, g);
}

/// The outer leaves and links of the node's subtree after the split of a
/// child.
proof fn lemma_spliced_links<K: TotalOrder, V>(
    s: Seq<NodeView<K, V>>,
    s1: Seq<NodeView<K, V>>,
    id: int,
    h: nat,
    b: Bounds<K>,
    d: Degrees,
    key: K,
    value: V,
    m: K,
    c: usize,
)
    requires
        splitting(s, s1, id, h, b, d, key, value, m, c),
        moved_facts(s, s1, id, h, b, key, value, 0, 0),
        split_kids_after(s, s1, id, h, b, d, key, value, c as int),
    ensures
        links_after(
            s,
            s1,
            id,
            h,
            d,
            key,
            value,
            0,
            0,
            rightmost(s1, spliced_kids(s, id, key, c as int).last(), (h - 1) as nat),
        ),
        spliced_kids(s, id, key, c as int).first() == common_of(s, id).childs.first(),
{
    lemma_spliced_keys(s, s1, id, h, b, d, key, value, m, c);
    lemma_spliced_subtrees(s, s1, id, h, b, d, key, value, m, c);
    let g = (h - 1) as nat;
    let i = slot(s, id, key);
    let keys = common_of(s, id).keys;
    let kids = common_of(s, id).childs;
    let n = keys.len() as int;
    let t = kids[i];
    let keys2 = spliced_keys(s, id, key, m);
    let kids2 = spliced_kids(s, id, key, c as int);
    let last = rightmost(s1, c as int, g);
    let m1 = kid_entries_with(s, id, h, key, value);
    lemma_descend(s, id, h, b, d, key);
    lemma_end_leaves(s, id, h, b, d);
    assert(subtree(s1, kids2[0], g, child_bounds(keys2, b, 0), d));
    assert(subtree(s1, kids2[n + 1], g, child_bounds(keys2, b, n + 1), d));
    lemma_end_leaves(s1, kids2[0], g, child_bounds(keys2, b, 0), d);
    lemma_end_leaves(s1, kids2[n + 1], g, child_bounds(keys2, b, n + 1), d);
    lemma_member_valid(s1, kids2[0], g, child_bounds(keys2, b, 0), d, leftmost(s1, kids2[0], g));
    lemma_member_valid(
        s1,
        kids2[n + 1],
        g,
        child_bounds(keys2, b, n + 1),
        d,
        rightmost(s1, kids2[n + 1], g),
    );
    if i > 0 {
        assert(kid_after(s, s1, id, h, b, d, key, value, 0, 0, last, 0));
        lemma_end_leaves(s, kids[i - 1], g, kid_bounds(s, id, b, i - 1), d);
        assert(in_subtree(s, id, h, rightmost(s, kids[i - 1], g)));
    }
    if i < n {
        assert(kid_after(s, s1, id, h, b, d, key, value, 0, 0, last, n));
        assert(kids2[n + 1] == kids[n]);
        lemma_end_leaves(s, kids[i + 1], g, kid_bounds(s, id, b, i + 1), d);
        assert(in_subtree(s, id, h, leftmost(s, kids[i + 1], g)));
    }
    assert forall|x: int|
        0 <= x < s.len() && !in_subtree(s, id, h, x) && Some(x) != left_link(s, id, h) && Some(x)
            != right_link(s, id, h) implies #[trigger] s1[x] == s[x] by {
        if in_subtree(s, t, g, x) {
            assert(in_subtree(s, id, h, x));
        }
    }
    if left_link(s, id, h) is Some {
        let l = left_link(s, id, h).unwrap();
        lemma_fed_nothing(leaf_of(s, l), m1.subrange(0, 0), 0);
        if i > 0 {
            assert(!in_subtree(s, t, g, l)) by {
                if in_subtree(s, t, g, l) {
                    assert(in_subtree(s, id, h, l));
                }
            }
            assert(s1[l] == s[l]);
        }
    }
    if right_link(s, id, h) is Some {
        let r = right_link(s, id, h).unwrap();
        lemma_fed_nothing(
            leaf_of(s, r),
            m1.subrange(m1.len() as int, m1.len() as int),
            rightmost(s1, kids2.last(), g),
        );
        if i < n {
            assert(!in_subtree(s, t, g, r)) by {
                if in_subtree(s, t, g, r) {
                    assert(in_subtree(s, id, h, r));
                }
            }
            assert(s1[r] == s[r]);
        }
    }
}

/// Where the child that took the entry was split, the node's subtree
/// keeps its place once the node has taken the separator and the new
/// child; the node may then hold one key more than its degree.
pub proof fn lemma_absorb_split<K: TotalOrder, V>(
    s: Seq<NodeView<K, V>>,
    s1: Seq<NodeView<K, V>>,
    id: int,
    h: nat,
    b: Bounds<K>,
    d: Degrees,
    key: K,
    value: V,
    m: K,
    c: usize,
)
    requires
        splitting(s, s1, id, h, b, d, key, value, m, c),
    ensures
        common_ok(spliced(s, s1, id, key, m, c as int), id, h, b, d, 1),
        kept_rest(s, spliced(s, s1, id, key, m, c as int), id, h, d, key, value, 0, 0),
        common_of(spliced(s, s1, id, key, m, c as int), id).keys.len() == common_of(
            s,
            id,
        ).keys.len() + 1,
{
    let g = (h - 1) as nat;
    let i = slot(s, id, key);
    let keys = common_of(s, id).keys;
    let kids = common_of(s, id).childs;
    let n = keys.len() as int;
    let keys2 = spliced_keys(s, id, key, m);
    let kids2 = spliced_kids(s, id, key, c as int);
    let last = rightmost(s1, c as int, g);
    let s2 = spliced(s, s1, id, key, m, c as int);
    let e1 = with_entry(entries(s, id, h), key, value);
    let m1 = kid_entries_with(s, id, h, key, value);
    lemma_split_facts(s, s1, id, h, b, d, key, value, m, c);
    assert(split_kids_after(s, s1, id, h, b, d, key, value, c as int)) by {
        assert forall|j: int| 0 <= j <= n && j != i implies #[trigger] kid_after(
            s,
            s1,
            id,
            h,
            b,
            d,
            key,
            value,
            0,
            0,
            last,
            j,
        ) by {
            lemma_kid_after(s, s1, id, h, b, d, key, value, 0, 0, last, j);
        }
    }
    lemma_spliced_keys(s, s1, id, h, b, d, key, value, m, c);
    lemma_spliced_subtrees(s, s1, id, h, b, d, key, value, m, c);
    lemma_spliced_members(s, s1, id, h, b, d, key, value, m, c);
    lemma_spliced_seams(s, s1, id, h, b, d, key, value, m, c);
    lemma_spliced_entries(s, s1, id, h, b, d, key, value, m, c);
    lemma_spliced_links(s, s1, id, h, b, d, key, value, m, c);
    assert(kids_ok(s1, kids2, keys2, g, b, d));
    assert(common_of(s2, id).childs == kids2);
    assert(common_of(s2, id).keys == keys2);
    assert forall|j: int, x: int|
        0 <= j < kids2.len() && in_subtree(s1, #[trigger] kids2[j], g, x) implies #[trigger] s2[x]
        == s1[x] && x != id by {
    }
    lemma_reparent(s1, s2, id, h, b, d, 1);
    assert(nodes_kept(s, s2, id, h, id, None)) by {
        assert forall|x: int|
            #![trigger in_subtree(s2, id, h, x)]
            #![trigger in_subtree(s, id, h, x)]
            in_subtree(s2, id, h, x) <==> (in_subtree(s, id, h, x) || s.len() <= x < s2.len()) by {
            if in_subtree(s2, id, h, x) && x != id {
                let j = choose|j: int|
                    0 <= j < kids2.len() && in_subtree(s1, #[trigger] kids2[j], g, x);
                assert(in_subtree(s1, kids2[j], g, x));
            }
            if (in_subtree(s, id, h, x) || s.len() <= x < s2.len()) && x != id {
                assert(in_subtree(s, id, h, x) || s.len() <= x < s1.len());
                let j = choose|j: int|
                    0 <= j < kids2.len() && in_subtree(s1, #[trigger] kids2[j], g, x);
                assert(in_subtree(s1, kids2[j], g, x));
                assert(in_subtree(s2, id, h, x));
            }
        }
    }
    assert(e1.subrange(0, e1.len() as int) =~= e1);
    assert(e1.subrange(0, 0) =~= m1.subrange(0, 0));
    assert(e1.subrange(e1.len() as int, e1.len() as int) =~= m1.subrange(
        m1.len() as int,
        m1.len() as int,
    ));
    lemma_assemble(s, s1, s2, id, h, d, key, value, 0, 0, rightmost(s1, kids2.last(), g));
}

} // verus!
