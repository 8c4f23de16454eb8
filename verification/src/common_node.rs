//! Internal nodes: routing keys and the children they part.

use crate::absorb::{absorbing, kid_entries_with, lemma_moved_facts};
use crate::descend::{kid, kid_bounds, lemma_descend, slot};
use crate::halve::lemma_common_split;
use crate::leaf_lemmas::{lemma_leaf_outcome, lemma_leaf_ready};
use crate::leaf_node::{leaf_insert, LeafNode};
use crate::mend::{lemma_absorb_kept, mended};
use crate::order::{binary_search, TotalOrder};
use crate::outcome::{insert_post, insert_pre, kept_rest, Site};
use crate::reparent::common_ok;
use crate::shape::{common_of, min_key, subtree};
use crate::splice::{lemma_absorb_split, lemma_split_facts, spliced, splitting};
use crate::types::{arena_view, InsertType, NodeView, TreeNode};
use vstd::pervasive::unreached;
use vstd::prelude::*;

verus! {

/// An internal node: separator keys in ascending order and one more child
/// than keys, each child an index into the arena.
#[derive(Debug)]
pub struct CommonNode<K> {
    degree: usize,
    keys: Vec<K>,
    childs: Vec<usize>,
}

/// What an internal node holds, as plain mathematical values.
pub struct CommonView<K> {
    pub degree: nat,
    pub keys: Seq<K>,
    pub childs: Seq<int>,
}

impl<K> View for CommonNode<K> {
    type V = CommonView<K>;

    closed spec fn view(&self) -> CommonView<K> {
        CommonView {
            degree: self.degree as nat,
            keys: self.keys@,
            childs: self.childs@.map_values(|c: usize| c as int),
        }
    }
}

impl<K: TotalOrder> CommonNode<K> {
    /// An internal node with the given separator keys and children.
    pub fn new(degree: usize, keys: Option<Vec<K>>, childs: Option<Vec<usize>>) -> (node: Self)
        ensures
            node@ == (CommonView {
                degree: degree as nat,
                keys: match keys {
                    Some(k) => k@,
                    None => Seq::empty(),
                },
                childs: match childs {
                    Some(c) => c@.map_values(|c: usize| c as int),
                    None => Seq::empty(),
                },
            }),
    {
        let node = CommonNode {
            degree,
            keys: match keys {
                Some(k) => k,
                None => Vec::new(),
            },
            childs: match childs {
                Some(c) => c,
                None => Vec::new(),
            },
        };
        proof {
            if childs is None {
                assert(node@.childs =~= Seq::empty());
            }
        }
        node
    }

    /// Splits the node at `id` in two. The keys before the middle one and
    /// their children stay at `id`; those behind it go to a new node at
    /// the end of the arena. Returns the middle key, which neither half
    /// keeps, and both indices.
    pub fn split<V>(nodes: &mut Vec<TreeNode<K, V>>, id: usize) -> (r: (K, usize, usize))
        requires
            id < old(nodes).len(),
            old(nodes)[id as int] is Common,
            common_of(arena_view(old(nodes)@), id as int).keys.len() >= 1,
            common_of(arena_view(old(nodes)@), id as int).childs.len() == common_of(
                arena_view(old(nodes)@),
                id as int,
            ).keys.len() + 1,
        ensures
            (arena_view(final(nodes)@), r) == common_split(arena_view(old(nodes)@), id as int),
    {
        let ghost s = arena_view(nodes@);
        let (median_key, right_keys, right_childs, degree) = match &mut nodes[id] {
            TreeNode::Common(node) => {
                let median_idx = node.keys.len() / 2;
                let right_keys = node.keys.split_off(median_idx + 1);
                let right_childs = node.childs.split_off(median_idx + 1);
                let median_key = node.keys.remove(median_idx);
                (median_key, right_keys, right_childs, node.degree)
            },
            TreeNode::Leaf(_) => unreached(),
        };
        let new_id = nodes.len();
        let right_node = CommonNode::new(degree, Some(right_keys), Some(right_childs));
        nodes.push(TreeNode::Common(right_node));
        proof {
            let c = common_of(s, id as int);
            let m = (c.keys.len() / 2) as int;
            let s3 = arena_view(nodes@);
            let goal = common_split(s, id as int).0;
            assert(common_of(s3, id as int).keys =~= c.keys.subrange(0, m));
            assert(common_of(s3, id as int).childs =~= c.childs.subrange(0, m + 1));
            assert(common_of(s3, new_id as int).keys =~= c.keys.subrange(m + 1, c.keys.len() as int));
            assert(common_of(s3, new_id as int).childs =~= c.childs.subrange(
                m + 1,
                c.childs.len() as int,
            ));
            assert(s3[id as int] == goal[id as int]);
            assert(s3[new_id as int] == goal[new_id as int]);
            assert(s3 =~= goal);
        }
        (median_key, id, new_id)
    }

    /// The index of the child of the node at `id` that takes `key`, that
    /// child, and whether it is a leaf.
    fn route<V>(
        nodes: &Vec<TreeNode<K, V>>,
        id: usize,
        key: &K,
        Ghost(site): Ghost<Site<K>>,
    ) -> (r: (usize, usize, bool))
        requires
            site.h > 0,
            insert_pre(arena_view(nodes@), id as int, site.h, site.b, site.d, *key),
        ensures
            r.0 == slot(arena_view(nodes@), id as int, *key),
            r.1 == kid(arena_view(nodes@), id as int, r.0 as int),
            r.1 < nodes.len(),
            r.2 <==> site.h == 1,
            r.2 <==> nodes[r.1 as int] is Leaf,
            id < nodes.len(),
            nodes[id as int] is Common,
            r.0 <= common_of(arena_view(nodes@), id as int).keys.len(),
    {
        let ghost s = arena_view(nodes@);
        proof {
            lemma_descend(s, id as int, site.h, site.b, site.d, *key);
            let i = slot(s, id as int, *key);
            assert(subtree(
                s,
                kid(s, id as int, i),
                (site.h - 1) as nat,
                kid_bounds(s, id as int, site.b, i),
                site.d,
            ));
        }
        let (new_key_idx, child) = match &nodes[id] {
            TreeNode::Common(node) => {
                let idx = match binary_search(&node.keys, key) {
                    Ok(idx) => idx,
                    Err(idx) => idx,
                };
                (idx, node.childs[idx])
            },
            TreeNode::Leaf(_) => unreached(),
        };
        let child_is_leaf = match &nodes[child] {
            TreeNode::Leaf(_) => true,
            TreeNode::Common(_) => false,
        };
        (new_key_idx, child, child_is_leaf)
    }

    /// Puts the two halves of a split child in the child's place, with
    /// their separator between them, and splits the node at `id` in turn
    /// if it then holds more keys than its degree.
    fn take_split<V>(
        nodes: &mut Vec<TreeNode<K, V>>,
        id: usize,
        new_key_idx: usize,
        new_median_key: K,
        left_node_ref: usize,
        right_node_ref: usize,
        Ghost(s): Ghost<Seq<NodeView<K, V>>>,
        Ghost(site): Ghost<Site<K>>,
        Ghost(key): Ghost<K>,
        Ghost(value): Ghost<V>,
    ) -> (r: InsertType<K>)
        requires
            splitting(
                s,
                arena_view(old(nodes)@),
                id as int,
                site.h,
                site.b,
                site.d,
                key,
                value,
                new_median_key,
                right_node_ref,
            ),
            new_key_idx == slot(s, id as int, key),
            left_node_ref == kid(s, id as int, new_key_idx as int),
        ensures
            insert_post(
                s,
                arena_view(final(nodes)@),
                id as int,
                site.h,
                site.b,
                site.d,
                key,
                value,
                r,
            ),
            (arena_view(final(nodes)@), r) == absorb(
                s,
                arena_view(old(nodes)@),
                id as int,
                key,
                InsertType::Split(new_median_key, left_node_ref, right_node_ref),
            ),
    {
        let ghost s1 = arena_view(nodes@);
        proof {
            lemma_split_facts(
                s,
                s1,
                id as int,
                site.h,
                site.b,
                site.d,
                key,
                value,
                new_median_key,
                right_node_ref,
            );
            lemma_descend(s, id as int, site.h, site.b, site.d, key);
        }
        let (keys_len, degree) = match &mut nodes[id] {
            TreeNode::Common(node) => {
                node.keys.insert(new_key_idx, new_median_key);
                node.childs.remove(new_key_idx);
                node.childs.insert(new_key_idx, right_node_ref);
                node.childs.insert(new_key_idx, left_node_ref);
                (node.keys.len(), node.degree)
            },
            TreeNode::Leaf(_) => unreached(),
        };
        let ghost s2 = arena_view(nodes@);
        proof {
            let goal = spliced(s, s1, id as int, key, new_median_key, right_node_ref as int);
            assert(common_of(s2, id as int).keys =~= common_of(goal, id as int).keys);
            assert(common_of(s2, id as int).childs =~= common_of(goal, id as int).childs);
            assert(s2[id as int] == goal[id as int]);
            assert(s2 =~= goal);
            let c = common_of(s, id as int);
            let i = new_key_idx as int;
            assert(common_of(goal, id as int).childs =~= c.childs.subrange(0, i) + seq![
                left_node_ref as int,
                right_node_ref as int,
            ] + c.childs.subrange(i + 1, c.childs.len() as int));
            lemma_absorb_split(
                s,
                s1,
                id as int,
                site.h,
                site.b,
                site.d,
                key,
                value,
                new_median_key,
                right_node_ref,
            );
        }
        if keys_len <= degree {
            proof {
                lemma_settled(s, s2, id as int, site, key, value);
            }
            return InsertType::Normal;
        }
        let (new_median, left_node_ref, right_node_ref) = Self::split(nodes, id);
        proof {
            assert(nodes.len() <= usize::MAX);
            assert(arena_view(nodes@).len() == s2.len() + 1);
            assert(s2.len() < usize::MAX);
            assert(common_ok(s2, id as int, site.h, site.b, site.d, 1));
            assert(common_of(s2, id as int).keys.len() == site.d.common + 1);
            assert(kept_rest(s, s2, id as int, site.h, site.d, key, value, 0, 0));
            assert(insert_pre(s, id as int, site.h, site.b, site.d, key));
            lemma_common_split(s, s2, id as int, site.h, site.b, site.d, key, value);
        }
        InsertType::Split(new_median, left_node_ref, right_node_ref)
    }

    /// Follows an entry that the child at `new_key_idx` gave to the leaf
    /// on its left: the separator before the child becomes the child's
    /// new smallest key; where the child is the first, the move is
    /// reported to the caller.
    fn mend_left<V>(
        nodes: &mut Vec<TreeNode<K, V>>,
        id: usize,
        new_key_idx: usize,
        new_left_key: K,
        Ghost(s): Ghost<Seq<NodeView<K, V>>>,
        Ghost(site): Ghost<Site<K>>,
        Ghost(key): Ghost<K>,
        Ghost(value): Ghost<V>,
    ) -> (r: InsertType<K>)
        requires
            absorbing(s, arena_view(old(nodes)@), id as int, site.h, site.b, site.d, key, value, 1, 0),
            new_key_idx == slot(s, id as int, key),
            new_left_key == min_key(
                arena_view(old(nodes)@),
                kid(s, id as int, new_key_idx as int),
                (site.h - 1) as nat,
            ),
        ensures
            insert_post(
                s,
                arena_view(final(nodes)@),
                id as int,
                site.h,
                site.b,
                site.d,
                key,
                value,
                r,
            ),
            (arena_view(final(nodes)@), r) == absorb(
                s,
                arena_view(old(nodes)@),
                id as int,
                key,
                InsertType::LeftMove(new_left_key),
            ),
    {
        let ghost s1 = arena_view(nodes@);
        proof {
            lemma_moved_facts(s, s1, id as int, site.h, site.b, site.d, key, value, 1, 0);
            lemma_absorb_kept(s, s1, id as int, site.h, site.b, site.d, key, value, 1, 0);
        }
        if new_key_idx != 0 {
            match &mut nodes[id] {
                TreeNode::Common(node) => {
                    node.keys[new_key_idx - 1] = new_left_key;
                },
                TreeNode::Leaf(_) => {},
            }
            proof {
                let goal = mended(s, s1, id as int, site.h, key, value, 1, 0);
                let s2 = arena_view(nodes@);
                assert(common_of(s2, id as int).keys =~= common_of(goal, id as int).keys);
                assert(s2[id as int] == goal[id as int]);
                assert(s2 =~= goal);
            }
            InsertType::Normal
        } else {
            proof {
                assert(s1 =~= mended(s, s1, id as int, site.h, key, value, 1, 0));
            }
            InsertType::LeftMove(new_left_key)
        }
    }

    /// Follows an entry that the child at `new_key_idx` gave to the leaf
    /// on its right: the separator after the child becomes the key that
    /// moved; where the child is the last, the move is reported to the
    /// caller.
    fn mend_right<V>(
        nodes: &mut Vec<TreeNode<K, V>>,
        id: usize,
        new_key_idx: usize,
        new_right_key: K,
        Ghost(s): Ghost<Seq<NodeView<K, V>>>,
        Ghost(site): Ghost<Site<K>>,
        Ghost(key): Ghost<K>,
        Ghost(value): Ghost<V>,
    ) -> (r: InsertType<K>)
        requires
            absorbing(s, arena_view(old(nodes)@), id as int, site.h, site.b, site.d, key, value, 0, 1),
            new_key_idx == slot(s, id as int, key),
            new_right_key == kid_entries_with(s, id as int, site.h, key, value).last().0,
        ensures
            insert_post(
                s,
                arena_view(final(nodes)@),
                id as int,
                site.h,
                site.b,
                site.d,
                key,
                value,
                r,
            ),
            (arena_view(final(nodes)@), r) == absorb(
                s,
                arena_view(old(nodes)@),
                id as int,
                key,
                InsertType::RightMove(new_right_key),
            ),
    {
        let ghost s1 = arena_view(nodes@);
        proof {
            lemma_moved_facts(s, s1, id as int, site.h, site.b, site.d, key, value, 0, 1);
            lemma_absorb_kept(s, s1, id as int, site.h, site.b, site.d, key, value, 0, 1);
        }
        let keys_len = match &nodes[id] {
            TreeNode::Common(node) => node.keys.len(),
            TreeNode::Leaf(_) => 0,
        };
        if new_key_idx < keys_len {
            match &mut nodes[id] {
                TreeNode::Common(node) => {
                    node.keys[new_key_idx] = new_right_key;
                },
                TreeNode::Leaf(_) => {},
            }
            proof {
                let goal = mended(s, s1, id as int, site.h, key, value, 0, 1);
                let s2 = arena_view(nodes@);
                assert(common_of(s2, id as int).keys =~= common_of(goal, id as int).keys);
                assert(s2[id as int] == goal[id as int]);
                assert(s2 =~= goal);
            }
            InsertType::Normal
        } else {
            proof {
                assert(s1 =~= mended(s, s1, id as int, site.h, key, value, 0, 1));
            }
            InsertType::RightMove(new_right_key)
        }
    }

    /// Sends the entry to the child that takes the key and deals with what
    /// comes back. A split child is replaced by its two halves, and the
    /// node splits in turn if it then holds more keys than its degree. An
    /// entry that moved between two of the node's children is followed by
    /// the separator between them; one that moved out of the node's
    /// subtree is reported to the caller.
    pub fn insert<V: Copy>(
        nodes: &mut Vec<TreeNode<K, V>>,
        id: usize,
        new_key: &K,
        new_value: &V,
        Ghost(site): Ghost<Site<K>>,
    ) -> (r: InsertType<K>)
        requires
            site.h > 0,
            insert_pre(arena_view(old(nodes)@), id as int, site.h, site.b, site.d, *new_key),
        ensures
            insert_post(
                arena_view(old(nodes)@),
                arena_view(final(nodes)@),
                id as int,
                site.h,
                site.b,
                site.d,
                *new_key,
                *new_value,
                r,
            ),
            (arena_view(final(nodes)@), r) == node_insert(
                arena_view(old(nodes)@),
                id as int,
                site.h,
                *new_key,
                *new_value,
            ),
        decreases site.h,
    {
        let ghost s = arena_view(nodes@);
        let ghost below = Site {
            h: (site.h - 1) as nat,
            b: kid_bounds(s, id as int, site.b, slot(s, id as int, *new_key)),
            d: site.d,
        };
        let (new_key_idx, child, child_is_leaf) = Self::route(nodes, id, new_key, Ghost(site));
        proof {
            lemma_descend(s, id as int, site.h, site.b, site.d, *new_key);
        }
        let insert_result = if child_is_leaf {
            proof {
                lemma_leaf_ready(s, child as int, below.b, below.d, *new_key);
            }
            let result = LeafNode::insert(nodes, child, new_key, new_value);
            proof {
                assert(nodes.len() <= usize::MAX);
                lemma_leaf_outcome(
                    s,
                    arena_view(nodes@),
                    child as int,
                    below.b,
                    below.d,
                    *new_key,
                    *new_value,
                    result,
                );
            }
            result
        } else {
            CommonNode::insert(nodes, child, new_key, new_value, Ghost(below))
        };
        assert((arena_view(nodes@), insert_result) == node_insert(
            s,
            child as int,
            below.h,
            *new_key,
            *new_value,
        ));
        match insert_result {
            InsertType::Normal => {
                proof {
                    let s1 = arena_view(nodes@);
                    lemma_moved_facts(
                        s,
                        s1,
                        id as int,
                        site.h,
                        site.b,
                        site.d,
                        *new_key,
                        *new_value,
                        0,
                        0,
                    );
                    lemma_absorb_kept(
                        s,
                        s1,
                        id as int,
                        site.h,
                        site.b,
                        site.d,
                        *new_key,
                        *new_value,
                        0,
                        0,
                    );
                    assert(s1 =~= mended(s, s1, id as int, site.h, *new_key, *new_value, 0, 0));
                }
                InsertType::Normal
            },
            InsertType::Split(new_median_key, left_node_ref, right_node_ref) => Self::take_split(
                nodes,
                id,
                new_key_idx,
                new_median_key,
                left_node_ref,
                right_node_ref,
                Ghost(s),
                Ghost(site),
                Ghost(*new_key),
                Ghost(*new_value),
            ),
            InsertType::LeftMove(new_left_key) => Self::mend_left(
                nodes,
                id,
                new_key_idx,
                new_left_key,
                Ghost(s),
                Ghost(site),
                Ghost(*new_key),
                Ghost(*new_value),
            ),
            InsertType::RightMove(new_right_key) => Self::mend_right(
                nodes,
                id,
                new_key_idx,
                new_right_key,
                Ghost(s),
                Ghost(site),
                Ghost(*new_key),
                Ghost(*new_value),
            ),
        }
    }

    /// The separator keys, in order.
    pub fn get_keys(&self) -> (keys: &Vec<K>)
        ensures
            keys@ == self@.keys,
    {
        &self.keys
    }

    /// The arena indices of the children, in order.
    pub fn get_childs(&self) -> (childs: &Vec<usize>)
        ensures
            childs@.map_values(|c: usize| c as int) == self@.childs,
    {
        &self.childs
    }
}

/// The arena and the result of `CommonNode::split` on the node at `id`:
/// the keys before the middle one and their children stay at `id`, those
/// behind it go to a new node at the end of the arena, and the middle key
/// goes to neither.
pub open spec fn common_split<K, V>(s: Seq<NodeView<K, V>>, id: int) -> (
    Seq<NodeView<K, V>>,
    (K, usize, usize),
) {
    let c = common_of(s, id);
    let m = (c.keys.len() / 2) as int;
    let left_half = CommonView {
        keys: c.keys.subrange(0, m),
        childs: c.childs.subrange(0, m + 1),
        ..c
    };
    let right_half = CommonView {
        keys: c.keys.subrange(m + 1, c.keys.len() as int),
        childs: c.childs.subrange(m + 1, c.childs.len() as int),
        ..c
    };
    (
        s.update(id, NodeView::Common(left_half)).push(NodeView::Common(right_half)),
        (c.keys[m], id as usize, s.len() as usize),
    )
}

/// What the internal node at `id` makes of the outcome `r` of the
/// insertion into the child that takes the key, where `s` is the arena
/// before that insertion and `s1` the arena after it.
///
/// A split child is replaced by its two halves, with their separator
/// between them; the node splits in turn if it then holds more keys than
/// its degree. An entry that moved to the left is followed by the
/// separator before the child, one that moved to the right by the
/// separator after it; where there is no such separator the move is
/// passed on.
pub open spec fn absorb<K: TotalOrder, V>(
    s: Seq<NodeView<K, V>>,
    s1: Seq<NodeView<K, V>>,
    id: int,
    key: K,
    r: InsertType<K>,
) -> (Seq<NodeView<K, V>>, InsertType<K>) {
    let c = common_of(s, id);
    let i = slot(s, id, key);
    match r {
        InsertType::Normal => (s1, InsertType::Normal),
        InsertType::Split(m, a, b) => {
            let taken = CommonView {
                keys: c.keys.insert(i, m),
                childs: c.childs.subrange(0, i) + seq![a as int, b as int] + c.childs.subrange(
                    i + 1,
                    c.childs.len() as int,
                ),
                ..c
            };
            let s2 = s1.update(id, NodeView::Common(taken));
            if taken.keys.len() <= c.degree {
                (s2, InsertType::Normal)
            } else {
                let halves = common_split(s2, id);
                (halves.0, InsertType::Split(halves.1.0, halves.1.1, halves.1.2))
            }
        },
        InsertType::LeftMove(nk) => if i != 0 {
            (
                s1.update(id, NodeView::Common(CommonView { keys: c.keys.update(i - 1, nk), ..c })),
                InsertType::Normal,
            )
        } else {
            (s1, InsertType::LeftMove(nk))
        },
        InsertType::RightMove(nk) => if i < c.keys.len() {
            (
                s1.update(id, NodeView::Common(CommonView { keys: c.keys.update(i, nk), ..c })),
                InsertType::Normal,
            )
        } else {
            (s1, InsertType::RightMove(nk))
        },
    }
}

/// The arena and the outcome of an insertion into the subtree of height
/// `h` at `id`: that of `LeafNode::insert` at a leaf; at an internal node
/// what the node makes of the outcome of the insertion into the child
/// that takes the key.
pub open spec fn node_insert<K: TotalOrder, V>(
    s: Seq<NodeView<K, V>>,
    id: int,
    h: nat,
    key: K,
    value: V,
) -> (Seq<NodeView<K, V>>, InsertType<K>)
    decreases h,
{
    if h == 0 {
        leaf_insert(s, id, key, value)
    } else {
        let below = node_insert(s, kid(s, id, slot(s, id, key)), (h - 1) as nat, key, value);
        absorb(s, below.0, id, key, below.1)
    }
}

/// A node that took a separator and a child and still holds no more keys
/// than its degree has settled the insertion.
proof fn lemma_settled<K: TotalOrder, V>(
    s: Seq<NodeView<K, V>>,
    s2: Seq<NodeView<K, V>>,
    id: int,
    site: Site<K>,
    key: K,
    value: V,
)
    requires
        common_ok(s2, id, site.h, site.b, site.d, 1),
        common_of(s2, id).keys.len() <= site.d.common,
        kept_rest(s, s2, id, site.h, site.d, key, value, 0, 0),
    ensures
        insert_post(s, s2, id, site.h, site.b, site.d, key, value, InsertType::Normal),
{
}

} // verus!
