//! Giving a list of well-formed children a parent: the node written over
//! them is a well-formed subtree, or one with a key too many.

use crate::order::TotalOrder;
use crate::shape::{
    apart, Bounds, child_bounds, common_of, Degrees, entries, in_subtree, kids_entries, kids_ok,
    leftmost, lemma_end_leaves, lemma_frame, lemma_kids_entries_eq, rightmost, same_shape, seam,
    subtree,
};
use crate::types::NodeView;
use vstd::prelude::*;

verus! {

/// The internal node at `id` is a well-formed subtree of height `h`,
/// except that it may hold up to `slack` keys more than its degree.
pub open spec fn common_ok<K: TotalOrder, V>(
    s: Seq<NodeView<K, V>>,
    id: int,
    h: nat,
    b: Bounds<K>,
    d: Degrees,
    slack: nat,
) -> bool {
    let c = common_of(s, id);
    &&& h > 0
    &&& 0 <= id < s.len()
    &&& s[id] is Common
    &&& c.degree == d.common
    &&& 1 <= c.keys.len() <= c.degree + slack
    &&& kids_ok(s, c.childs, c.keys, (h - 1) as nat, b, d)
    &&& forall|j: int|
        0 <= j < c.childs.len() ==> !in_subtree(s, #[trigger] c.childs[j], (h - 1) as nat, id)
}

/// Children keep their shape and their order when no slot under them
/// changes.
pub proof fn lemma_kids_frame<K: TotalOrder, V>(
    s: Seq<NodeView<K, V>>,
    s1: Seq<NodeView<K, V>>,
    kids: Seq<int>,
    keys: Seq<K>,
    h: nat,
    b: Bounds<K>,
    d: Degrees,
)
    requires
        kids_ok(s, kids, keys, h, b, d),
        s.len() <= s1.len(),
        forall|j: int, x: int|
            0 <= j < kids.len() && in_subtree(s, #[trigger] kids[j], h, x) ==> #[trigger] s1[x]
                == s[x],
    ensures
        kids_ok(s1, kids, keys, h, b, d),
        forall|j: int| 0 <= j < kids.len() ==> same_shape(s, s1, #[trigger] kids[j], h),
        kids_entries(s1, kids, h) == kids_entries(s, kids, h),
{
    assert forall|j: int| 0 <= j < kids.len() implies subtree(
        s1,
        #[trigger] kids[j],
        h,
        child_bounds(keys, b, j),
        d,
    ) && same_shape(s, s1, kids[j], h) by {
        lemma_frame(s, s1, kids[j], h, child_bounds(keys, b, j), d);
    }
    assert forall|j: int, k: int| 0 <= j < k < kids.len() implies #[trigger] apart(
        s1,
        kids,
        h,
        j,
        k,
    ) by {
        assert(apart(s, kids, h, j, k));
        assert(same_shape(s, s1, kids[j], h));
        assert(same_shape(s, s1, kids[k], h));
    }
    assert forall|j: int| 0 <= j < keys.len() implies #[trigger] seam(s1, kids, keys, h, j) by {
        assert(seam(s, kids, keys, h, j));
        assert(same_shape(s, s1, kids[j], h));
        assert(same_shape(s, s1, kids[j + 1], h));
        lemma_end_leaves(s, kids[j], h, child_bounds(keys, b, j), d);
        lemma_end_leaves(s, kids[j + 1], h, child_bounds(keys, b, j + 1), d);
        let a = rightmost(s, kids[j], h);
        let z = leftmost(s, kids[j + 1], h);
        assert(s1[a] == s[a]);
        assert(s1[z] == s[z]);
    }
    lemma_kids_entries_eq(s, kids, s1, kids, h);
}

/// What a parent written over well-formed children is.
pub proof fn lemma_reparent<K: TotalOrder, V>(
    s: Seq<NodeView<K, V>>,
    s1: Seq<NodeView<K, V>>,
    id: int,
    h: nat,
    b: Bounds<K>,
    d: Degrees,
    slack: nat,
)
    requires
        h > 0,
        s.len() <= s1.len(),
        0 <= id < s1.len(),
        s1[id] is Common,
        common_of(s1, id).degree == d.common,
        1 <= common_of(s1, id).keys.len() <= d.common + slack,
        kids_ok(s, common_of(s1, id).childs, common_of(s1, id).keys, (h - 1) as nat, b, d),
        forall|j: int, x: int|
            0 <= j < common_of(s1, id).childs.len() && in_subtree(
                s,
                #[trigger] common_of(s1, id).childs[j],
                (h - 1) as nat,
                x,
            ) ==> #[trigger] s1[x] == s[x] && x != id,
    ensures
        common_ok(s1, id, h, b, d, slack),
        slack == 0 ==> subtree(s1, id, h, b, d),
        forall|j: int|
            0 <= j < common_of(s1, id).childs.len() ==> same_shape(
                s,
                s1,
                #[trigger] common_of(s1, id).childs[j],
                (h - 1) as nat,
            ),
        entries(s1, id, h) == kids_entries(s, common_of(s1, id).childs, (h - 1) as nat),
        leftmost(s1, id, h) == leftmost(s, common_of(s1, id).childs.first(), (h - 1) as nat),
        rightmost(s1, id, h) == rightmost(s, common_of(s1, id).childs.last(), (h - 1) as nat),
        forall|x: int|
            #![trigger in_subtree(s1, id, h, x)]
            in_subtree(s1, id, h, x) <==> x == id || exists|j: int|
                0 <= j < common_of(s1, id).childs.len() && in_subtree(
                    s,
                    #[trigger] common_of(s1, id).childs[j],
                    (h - 1) as nat,
                    x,
                ),
{
    let c = common_of(s1, id);
    let kids = c.childs;
    let g = (h - 1) as nat;
    lemma_kids_frame(s, s1, kids, c.keys, g, b, d);
    assert forall|j: int| 0 <= j < kids.len() implies !in_subtree(s1, #[trigger] kids[j], g, id) by {
        assert(same_shape(s, s1, kids[j], g));
        if in_subtree(s, kids[j], g, id) {
            assert(s1[id] == s[id] && id != id);
        }
    }
    assert(same_shape(s, s1, kids[0], g));
    assert(same_shape(s, s1, kids[kids.len() - 1], g));
    assert forall|x: int|
        #![trigger in_subtree(s1, id, h, x)]
        in_subtree(s1, id, h, x) <==> x == id || exists|j: int|
            0 <= j < kids.len() && in_subtree(s, #[trigger] kids[j], g, x) by {
        if in_subtree(s1, id, h, x) && x != id {
            let j = choose|j: int| 0 <= j < kids.len() && in_subtree(s1, #[trigger] kids[j], g, x);
            assert(same_shape(s, s1, kids[j], g));
            assert(in_subtree(s, kids[j], g, x));
        }
        if exists|j: int| 0 <= j < kids.len() && in_subtree(s, #[trigger] kids[j], g, x) {
            let j = choose|j: int| 0 <= j < kids.len() && in_subtree(s, #[trigger] kids[j], g, x);
            assert(same_shape(s, s1, kids[j], g));
            assert(in_subtree(s1, kids[j], g, x));
            assert(in_subtree(s1, id, h, x));
        }
    }
}

} // verus!
