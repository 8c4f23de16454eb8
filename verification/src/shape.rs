//! The shape of a tree laid out in an arena: which nodes belong to a
//! subtree, what a well-formed subtree is, and the entries it holds.

use crate::common_node::CommonView;
use crate::leaf_node::LeafView;
use crate::order::{lemma_total_order, sorted, TotalOrder};
use crate::types::NodeView;
use vstd::prelude::*;

verus! {

/// The keys a subtree may hold: at least `lo` and at most `hi`, where a
/// missing bound leaves that side open.
pub struct Bounds<K> {
    pub lo: Option<K>,
    pub hi: Option<K>,
}

/// The capacities of the two kinds of node.
pub struct Degrees {
    pub leaf: nat,
    pub common: nat,
}

/// The key is not below the lower bound, if there is one.
pub open spec fn above<K: TotalOrder>(lo: Option<K>, key: K) -> bool {
    lo matches Some(b) ==> b.le(key)
}

/// The key is not above the upper bound, if there is one.
pub open spec fn below<K: TotalOrder>(key: K, hi: Option<K>) -> bool {
    hi matches Some(b) ==> key.le(b)
}

/// The key lies within the bounds.
pub open spec fn inside<K: TotalOrder>(key: K, b: Bounds<K>) -> bool {
    above(b.lo, key) && below(key, b.hi)
}

/// Every key lies within the bounds.
pub open spec fn within<K: TotalOrder>(keys: Seq<K>, b: Bounds<K>) -> bool {
    forall|i: int| 0 <= i < keys.len() ==> inside(#[trigger] keys[i], b)
}

/// The leaf in slot `id`.
pub open spec fn leaf_of<K, V>(s: Seq<NodeView<K, V>>, id: int) -> LeafView<K, V> {
    s[id]->Leaf_0
}

/// The internal node in slot `id`.
pub open spec fn common_of<K, V>(s: Seq<NodeView<K, V>>, id: int) -> CommonView<K> {
    s[id]->Common_0
}

/// A leaf inside a tree: full to at most its degree, never empty, sorted.
pub open spec fn leaf_ok<K: TotalOrder, V>(l: LeafView<K, V>, d: Degrees) -> bool {
    &&& l.degree == d.leaf
    &&& l.keys.len() == l.values.len()
    &&& 1 <= l.keys.len() <= l.degree
    &&& sorted(l.keys)
}

/// The bounds that child `j` inherits from its parent's separators.
pub open spec fn child_bounds<K>(keys: Seq<K>, b: Bounds<K>, j: int) -> Bounds<K> {
    Bounds {
        lo: if j == 0 {
            b.lo
        } else {
            Some(keys[j - 1])
        },
        hi: if j == keys.len() {
            b.hi
        } else {
            Some(keys[j])
        },
    }
}

/// The first leaf of the subtree of height `h` at `id`.
pub open spec fn leftmost<K, V>(s: Seq<NodeView<K, V>>, id: int, h: nat) -> int
    decreases h,
{
    if h == 0 {
        id
    } else {
        leftmost(s, common_of(s, id).childs.first(), (h - 1) as nat)
    }
}

/// The last leaf of the subtree of height `h` at `id`.
pub open spec fn rightmost<K, V>(s: Seq<NodeView<K, V>>, id: int, h: nat) -> int
    decreases h,
{
    if h == 0 {
        id
    } else {
        rightmost(s, common_of(s, id).childs.last(), (h - 1) as nat)
    }
}

/// The smallest key of the subtree: the first key of its first leaf.
pub open spec fn min_key<K, V>(s: Seq<NodeView<K, V>>, id: int, h: nat) -> K {
    leaf_of(s, leftmost(s, id, h)).keys.first()
}

/// Node `x` belongs to the subtree of height `h` at `id`.
pub open spec fn in_subtree<K, V>(s: Seq<NodeView<K, V>>, id: int, h: nat, x: int) -> bool
    decreases h,
{
    x == id || (h > 0 && exists|j: int|
        0 <= j < common_of(s, id).childs.len() && in_subtree(
            s,
            #[trigger] common_of(s, id).childs[j],
            (h - 1) as nat,
            x,
        ))
}

/// Leaves `a` and `b` name each other as right and left neighbour.
pub open spec fn adjacent<K, V>(s: Seq<NodeView<K, V>>, a: int, b: int) -> bool {
    leaf_of(s, a).right == Some(b) && leaf_of(s, b).left == Some(a)
}

/// Children `j` and `k` share no node.
pub open spec fn apart<K, V>(s: Seq<NodeView<K, V>>, kids: Seq<int>, h: nat, j: int, k: int) -> bool {
    forall|x: int| !(in_subtree(s, kids[j], h, x) && #[trigger] in_subtree(s, kids[k], h, x))
}

/// Between children `j` and `j + 1`: the last leaf of one and the first
/// leaf of the other are neighbours, and separator `j` is the smallest key
/// of the right one.
pub open spec fn seam<K, V>(s: Seq<NodeView<K, V>>, kids: Seq<int>, keys: Seq<K>, h: nat, j: int) -> bool {
    &&& adjacent(s, rightmost(s, kids[j], h), leftmost(s, kids[j + 1], h))
    &&& keys[j] == min_key(s, kids[j + 1], h)
}

/// The subtree of height `h` at `id` is well formed: every node is within
/// its capacity, keys are sorted and within `b`, every separator parts its
/// two children, no node has two parents, and the leaves are chained in
/// order.
pub open spec fn subtree<K: TotalOrder, V>(
    s: Seq<NodeView<K, V>>,
    id: int,
    h: nat,
    b: Bounds<K>,
    d: Degrees,
) -> bool
    decreases h, 0nat,
{
    &&& 0 <= id < s.len()
    &&& if h == 0 {
        &&& s[id] is Leaf
        &&& leaf_ok(leaf_of(s, id), d)
        &&& within(leaf_of(s, id).keys, b)
    } else {
        let c = common_of(s, id);
        &&& s[id] is Common
        &&& c.degree == d.common
        &&& 1 <= c.keys.len() <= c.degree
        &&& kids_ok(s, c.childs, c.keys, (h - 1) as nat, b, d)
        &&& forall|j: int|
            0 <= j < c.childs.len() ==> !in_subtree(s, #[trigger] c.childs[j], (h - 1) as nat, id)
    }
}

/// The children `kids`, parted by `keys`, are well-formed subtrees of
/// height `h` that share no node and follow one another in key order.
pub open spec fn kids_ok<K: TotalOrder, V>(
    s: Seq<NodeView<K, V>>,
    kids: Seq<int>,
    keys: Seq<K>,
    h: nat,
    b: Bounds<K>,
    d: Degrees,
) -> bool
    decreases h, 1nat,
{
    &&& kids.len() == keys.len() + 1
    &&& sorted(keys)
    &&& within(keys, b)
    &&& forall|j: int|
        0 <= j < kids.len() ==> subtree(s, #[trigger] kids[j], h, child_bounds(keys, b, j), d)
    &&& forall|j: int, k: int| 0 <= j < k < kids.len() ==> #[trigger] apart(s, kids, h, j, k)
    &&& forall|j: int| 0 <= j < keys.len() ==> #[trigger] seam(s, kids, keys, h, j)
}

/// The entries of a leaf, in order.
pub open spec fn leaf_entries<K, V>(l: LeafView<K, V>) -> Seq<(K, V)> {
    Seq::new(l.keys.len(), |i: int| (l.keys[i], l.values[i]))
}

/// The entries of the subtree of height `h` at `id`, leaf after leaf.
pub open spec fn entries<K, V>(s: Seq<NodeView<K, V>>, id: int, h: nat) -> Seq<(K, V)>
    decreases h, 0nat,
{
    if h == 0 {
        leaf_entries(leaf_of(s, id))
    } else {
        kids_entries(s, common_of(s, id).childs, (h - 1) as nat)
    }
}

/// The entries of the subtrees of height `h` at `kids`, one child after
/// the other.
pub open spec fn kids_entries<K, V>(s: Seq<NodeView<K, V>>, kids: Seq<int>, h: nat) -> Seq<(K, V)>
    decreases h, kids.len() + 1,
{
    if kids.len() == 0 {
        Seq::empty()
    } else {
        kids_entries(s, kids.drop_last(), h) + entries(s, kids.last(), h)
    }
}

/// The keys of a run of entries.
pub open spec fn keys_of<K, V>(e: Seq<(K, V)>) -> Seq<K> {
    e.map_values(|p: (K, V)| p.0)
}

/// `wide` allows every key that `b` allows.
pub open spec fn wider<K: TotalOrder>(wide: Bounds<K>, b: Bounds<K>) -> bool {
    &&& wide.lo matches Some(x) ==> b.lo matches Some(y) && x.le(y)
    &&& wide.hi matches Some(x) ==> b.hi matches Some(y) && y.le(x)
}

/// Every node of a well-formed subtree is a slot of the arena.
pub proof fn lemma_member_valid<K: TotalOrder, V>(
    s: Seq<NodeView<K, V>>,
    id: int,
    h: nat,
    b: Bounds<K>,
    d: Degrees,
    x: int,
)
    requires
        subtree(s, id, h, b, d),
        in_subtree(s, id, h, x),
    ensures
        0 <= x < s.len(),
    decreases h,
{
    if x != id {
        let c = common_of(s, id);
        let j = choose|j: int|
            0 <= j < c.childs.len() && in_subtree(s, #[trigger] c.childs[j], (h - 1) as nat, x);
        lemma_member_valid(s, c.childs[j], (h - 1) as nat, child_bounds(c.keys, b, j), d, x);
    }
}

/// A well-formed subtree stays well formed under wider bounds.
pub proof fn lemma_widen<K: TotalOrder, V>(
    s: Seq<NodeView<K, V>>,
    id: int,
    h: nat,
    b: Bounds<K>,
    wide: Bounds<K>,
    d: Degrees,
)
    requires
        subtree(s, id, h, b, d),
        wider(wide, b),
    ensures
        subtree(s, id, h, wide, d),
    decreases h,
{
    lemma_total_order::<K>();
    if h > 0 {
        let c = common_of(s, id);
        let g = (h - 1) as nat;
        assert forall|j: int| 0 <= j < c.childs.len() implies subtree(
            s,
            #[trigger] c.childs[j],
            g,
            child_bounds(c.keys, wide, j),
            d,
        ) by {
            lemma_widen(
                s,
                c.childs[j],
                g,
                child_bounds(c.keys, b, j),
                child_bounds(c.keys, wide, j),
                d,
            );
        }
    }
}

/// The first and the last leaf of a well-formed subtree belong to it, are
/// well-formed leaves, and hold keys within the subtree's bounds.
pub proof fn lemma_end_leaves<K: TotalOrder, V>(
    s: Seq<NodeView<K, V>>,
    id: int,
    h: nat,
    b: Bounds<K>,
    d: Degrees,
)
    requires
        subtree(s, id, h, b, d),
    ensures
        in_subtree(s, id, h, leftmost(s, id, h)),
        in_subtree(s, id, h, rightmost(s, id, h)),
        subtree(s, leftmost(s, id, h), 0, b, d),
        subtree(s, rightmost(s, id, h), 0, b, d),
        h > 0 ==> leftmost(s, id, h) != id && rightmost(s, id, h) != id,
    decreases h,
{
    if h > 0 {
        lemma_total_order::<K>();
        let c = common_of(s, id);
        let g = (h - 1) as nat;
        let n = c.keys.len() as int;
        assert(subtree(s, c.childs[0], g, child_bounds(c.keys, b, 0), d));
        assert(subtree(s, c.childs[n], g, child_bounds(c.keys, b, n), d));
        assert(inside(c.keys[0], b));
        assert(inside(c.keys[n - 1], b));
        lemma_widen(s, c.childs[0], g, child_bounds(c.keys, b, 0), b, d);
        lemma_widen(s, c.childs[n], g, child_bounds(c.keys, b, n), b, d);
        lemma_end_leaves(s, c.childs[0], g, b, d);
        lemma_end_leaves(s, c.childs[n], g, b, d);
        assert(in_subtree(s, c.childs[0], g, leftmost(s, id, h)));
        assert(in_subtree(s, c.childs[n], g, rightmost(s, id, h)));
    }
}

/// The subtree at `id` has the same nodes, end leaves and entries in `s1`
/// as in `s`.
pub open spec fn same_shape<K, V>(s: Seq<NodeView<K, V>>, s1: Seq<NodeView<K, V>>, id: int, h: nat) -> bool {
    &&& forall|x: int|
        #![trigger in_subtree(s1, id, h, x)]
        #![trigger in_subtree(s, id, h, x)]
        in_subtree(s1, id, h, x) == in_subtree(s, id, h, x)
    &&& leftmost(s1, id, h) == leftmost(s, id, h)
    &&& rightmost(s1, id, h) == rightmost(s, id, h)
    &&& entries(s1, id, h) == entries(s, id, h)
}

/// Child lists whose children hold the same entries, one by one, hold the
/// same entries in all.
pub proof fn lemma_kids_entries_eq<K, V>(
    s: Seq<NodeView<K, V>>,
    kids: Seq<int>,
    s1: Seq<NodeView<K, V>>,
    kids1: Seq<int>,
    h: nat,
)
    requires
        kids.len() == kids1.len(),
        forall|j: int|
            0 <= j < kids.len() ==> entries(s1, #[trigger] kids1[j], h) == entries(s, kids[j], h),
    ensures
        kids_entries(s1, kids1, h) == kids_entries(s, kids, h),
    decreases kids.len(),
{
    if kids.len() > 0 {
        let f = kids.drop_last();
        let f1 = kids1.drop_last();
        assert forall|j: int| 0 <= j < f.len() implies entries(s1, #[trigger] f1[j], h) == entries(
            s,
            f[j],
            h,
        ) by {
            assert(f1[j] == kids1[j]);
        }
        lemma_kids_entries_eq(s, f, s1, f1, h);
        assert(entries(s1, kids1[kids.len() - 1], h) == entries(s, kids[kids.len() - 1], h));
    }
}

/// A subtree does not notice changes to arena slots outside it.
pub proof fn lemma_frame<K: TotalOrder, V>(
    s: Seq<NodeView<K, V>>,
    s1: Seq<NodeView<K, V>>,
    id: int,
    h: nat,
    b: Bounds<K>,
    d: Degrees,
)
    requires
        subtree(s, id, h, b, d),
        s.len() <= s1.len(),
        forall|x: int| in_subtree(s, id, h, x) ==> #[trigger] s1[x] == s[x],
    ensures
        subtree(s1, id, h, b, d),
        same_shape(s, s1, id, h),
    decreases h,
{
    assert(s1[id] == s[id]);
    if h > 0 {
        let c = common_of(s, id);
        let kids = c.childs;
        let g = (h - 1) as nat;
        assert forall|j: int| 0 <= j < kids.len() implies subtree(
            s1,
            #[trigger] kids[j],
            g,
            child_bounds(c.keys, b, j),
            d,
        ) && same_shape(s, s1, kids[j], g) by {
            assert forall|x: int| in_subtree(s, kids[j], g, x) implies #[trigger] s1[x] == s[x] by {
                assert(in_subtree(s, id, h, x));
            }
            lemma_frame(s, s1, kids[j], g, child_bounds(c.keys, b, j), d);
        }
        assert forall|j: int, k: int| 0 <= j < k < kids.len() implies #[trigger] apart(
            s1,
            kids,
            g,
            j,
            k,
        ) by {
            assert(apart(s, kids, g, j, k));
            assert(same_shape(s, s1, kids[j], g));
            assert(same_shape(s, s1, kids[k], g));
        }
        assert forall|j: int| 0 <= j < c.keys.len() implies #[trigger] seam(s1, kids, c.keys, g, j) by {
            assert(seam(s, kids, c.keys, g, j));
            assert(same_shape(s, s1, kids[j], g));
            assert(same_shape(s, s1, kids[j + 1], g));
            lemma_end_leaves(s, kids[j], g, child_bounds(c.keys, b, j), d);
            lemma_end_leaves(s, kids[j + 1], g, child_bounds(c.keys, b, j + 1), d);
            let a = rightmost(s, kids[j], g);
            let z = leftmost(s, kids[j + 1], g);
            assert(in_subtree(s, id, h, a));
            assert(in_subtree(s, id, h, z));
            assert(s1[a] == s[a]);
            assert(s1[z] == s[z]);
        }
        assert forall|j: int| 0 <= j < kids.len() implies !in_subtree(
            s1,
            #[trigger] kids[j],
            g,
            id,
        ) by {
            assert(same_shape(s, s1, kids[j], g));
        }
        assert(same_shape(s, s1, kids[0], g));
        assert(same_shape(s, s1, kids[kids.len() - 1], g));
        lemma_kids_entries_eq(s, kids, s1, kids, g);
        assert forall|x: int|
            #![trigger in_subtree(s1, id, h, x)]
            #![trigger in_subtree(s, id, h, x)]
            in_subtree(s1, id, h, x) == in_subtree(s, id, h, x) by {
            if in_subtree(s, id, h, x) && x != id {
                let j = choose|j: int|
                    0 <= j < kids.len() && in_subtree(s, #[trigger] kids[j], g, x);
                assert(same_shape(s, s1, kids[j], g));
                assert(in_subtree(s1, kids[j], g, x));
                assert(common_of(s1, id).childs[j] == kids[j]);
                assert(in_subtree(s1, id, h, x));
            }
            if in_subtree(s1, id, h, x) && x != id {
                let j = choose|j: int|
                    0 <= j < kids.len() && in_subtree(s1, #[trigger] kids[j], g, x);
                assert(same_shape(s, s1, kids[j], g));
                assert(in_subtree(s, kids[j], g, x));
                assert(in_subtree(s, id, h, x));
            }
            assert((x == id) ==> in_subtree(s, id, h, x) && in_subtree(s1, id, h, x));
        }
    }
}

} // verus!
