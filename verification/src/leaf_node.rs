//! Leaf nodes: sorted runs of entries, linked to their neighbours.

use crate::order::{binary_search, count_below, lemma_insert_sorted, sorted, TotalOrder};
use crate::shape::leaf_of;
use crate::types::{arena_view, InsertType, NodeView, TreeNode};
use vstd::pervasive::unreached;
use vstd::prelude::*;

verus! {

/// A leaf: keys in ascending order, one value per key, and the arena
/// indices of the leaves to its left and right.
#[derive(Debug)]
pub struct LeafNode<K, V> {
    degree: usize,
    keys: Vec<K>,
    values: Vec<V>,
    left_node: Option<usize>,
    right_node: Option<usize>,
}

/// What a leaf holds, as plain mathematical values.
pub struct LeafView<K, V> {
    pub degree: nat,
    pub keys: Seq<K>,
    pub values: Seq<V>,
    pub left: Option<int>,
    pub right: Option<int>,
}

/// A link to a neighbour as a mathematical index.
pub open spec fn link_view(link: Option<usize>) -> Option<int> {
    match link {
        Some(i) => Some(i as int),
        None => None,
    }
}

impl<K, V> View for LeafNode<K, V> {
    type V = LeafView<K, V>;

    closed spec fn view(&self) -> LeafView<K, V> {
        LeafView {
            degree: self.degree as nat,
            keys: self.keys@,
            values: self.values@,
            left: link_view(self.left_node),
            right: link_view(self.right_node),
        }
    }
}

impl<K: TotalOrder, V: Copy> LeafNode<K, V> {
    /// A leaf without neighbours that holds the given keys and values.
    pub fn new(degree: usize, keys: Option<Vec<K>>, values: Option<Vec<V>>) -> (node: Self)
        ensures
            node@ == (LeafView {
                degree: degree as nat,
                keys: match keys {
                    Some(k) => k@,
                    None => Seq::empty(),
                },
                values: match values {
                    Some(v) => v@,
                    None => Seq::empty(),
                },
                left: None,
                right: None,
            }),
    {
        LeafNode {
            degree,
            keys: match keys {
                Some(k) => k,
                None => Vec::new(),
            },
            values: match values {
                Some(v) => v,
                None => Vec::new(),
            },
            left_node: None,
            right_node: None,
        }
    }

    /// The keys, in order.
    pub fn get_keys(&self) -> (keys: &Vec<K>)
        ensures
            keys@ == self@.keys,
    {
        &self.keys
    }

    /// The values, each at the index of its key.
    pub fn get_values(&self) -> (values: &Vec<V>)
        ensures
            values@ == self@.values,
    {
        &self.values
    }

    /// The arena index of the leaf on the left, if there is one.
    pub fn get_left_node(&self) -> (left: Option<usize>)
        ensures
            link_view(left) == self@.left,
    {
        self.left_node
    }

    /// The arena index of the leaf on the right, if there is one.
    pub fn get_right_node(&self) -> (right: Option<usize>)
        ensures
            link_view(right) == self@.right,
    {
        self.right_node
    }

    /// Splits the leaf at `id` in two. The entries before the middle stay
    /// at `id`; those from the middle on go to a new leaf at the end of the
    /// arena, which takes the old leaf's place in the chain to the right.
    /// Returns the first key of the new leaf, and both indices.
    pub fn split(nodes: &mut Vec<TreeNode<K, V>>, id: usize) -> (r: (K, usize, usize))
        requires
            leaf_insert_pre(arena_view(old(nodes)@), id as int),
            leaf_of(arena_view(old(nodes)@), id as int).keys.len() >= 1,
        ensures
            (arena_view(final(nodes)@), r) == leaf_split(arena_view(old(nodes)@), id as int),
    {
        let ghost s = arena_view(nodes@);
        let new_id = nodes.len();
        let (median_key, right_keys, right_values, degree, right) = match &mut nodes[id] {
            TreeNode::Leaf(leaf) => {
                let median_idx = leaf.values.len() / 2;
                let median_key = leaf.keys[median_idx];
                let right_keys = leaf.keys.split_off(median_idx);
                let right_values = leaf.values.split_off(median_idx);
                let right = leaf.right_node;
                leaf.right_node = Some(new_id);
                (median_key, right_keys, right_values, leaf.degree, right)
            },
            TreeNode::Common(_) => unreached(),
        };
        let new_right_node = LeafNode {
            degree,
            keys: right_keys,
            values: right_values,
            left_node: Some(id),
            right_node: right,
        };
        nodes.push(TreeNode::Leaf(new_right_node));
        if let Some(r) = right {
            match &mut nodes[r] {
                TreeNode::Leaf(neighbour) => {
                    neighbour.left_node = Some(new_id);
                },
                TreeNode::Common(_) => {},
            }
        }
        proof {
            assert(arena_view(nodes@) =~~= leaf_split(s, id as int).0);
        }
        (median_key, id, new_id)
    }

    /// Stores an entry in the leaf at `id`, at the first position whose key
    /// is not below `new_key`. A leaf that then holds more than its degree
    /// gives its first entry to the left neighbour if that one has room,
    /// else its last entry to the right neighbour if that one has room,
    /// else splits.
    pub fn insert(nodes: &mut Vec<TreeNode<K, V>>, id: usize, new_key: &K, new_value: &V) -> (r:
        InsertType<K>)
        requires
            leaf_insert_pre(arena_view(old(nodes)@), id as int),
        ensures
            (arena_view(final(nodes)@), r) == leaf_insert(
                arena_view(old(nodes)@),
                id as int,
                *new_key,
                *new_value,
            ),
    {
        let ghost s = arena_view(nodes@);
        let ghost goal = leaf_insert(s, id as int, *new_key, *new_value);
        let (values_len, degree, left, right) = match &mut nodes[id] {
            TreeNode::Leaf(leaf) => {
                let new_key_pos = match binary_search(&leaf.keys, new_key) {
                    Ok(idx) => idx,
                    Err(idx) => idx,
                };
                leaf.keys.insert(new_key_pos, *new_key);
                leaf.values.insert(new_key_pos, *new_value);
                (leaf.values.len(), leaf.degree, leaf.left_node, leaf.right_node)
            },
            TreeNode::Common(_) => unreached(),
        };
        if values_len <= degree {
            proof {
                assert(arena_view(nodes@) =~~= goal.0);
            }
            return InsertType::Normal;
        }
        if let Some(l) = left {
            let room = match &nodes[l] {
                TreeNode::Leaf(neighbour) => neighbour.values.len() < degree,
                TreeNode::Common(_) => false,
            };
            if room {
                let (first_key, first_value, new_first_key) = match &mut nodes[id] {
                    TreeNode::Leaf(leaf) => {
                        let first_key = leaf.keys.remove(0);
                        let first_value = leaf.values.remove(0);
                        (first_key, first_value, leaf.keys[0])
                    },
                    TreeNode::Common(_) => unreached(),
                };
                match &mut nodes[l] {
                    TreeNode::Leaf(neighbour) => {
                        neighbour.keys.push(first_key);
                        neighbour.values.push(first_value);
                    },
                    TreeNode::Common(_) => {},
                }
                proof {
                    assert(arena_view(nodes@) =~~= goal.0);
                }
                return InsertType::LeftMove(new_first_key);
            }
        }
        if let Some(r) = right {
            let room = match &nodes[r] {
                TreeNode::Leaf(neighbour) => neighbour.values.len() < degree,
                TreeNode::Common(_) => false,
            };
            if room {
                let (max_key, max_value) = match &mut nodes[id] {
                    TreeNode::Leaf(leaf) => {
                        let last = leaf.keys.len() - 1;
                        (leaf.keys.remove(last), leaf.values.remove(last))
                    },
                    TreeNode::Common(_) => unreached(),
                };
                match &mut nodes[r] {
                    TreeNode::Leaf(neighbour) => {
                        neighbour.keys.insert(0, max_key);
                        neighbour.values.insert(0, max_value);
                    },
                    TreeNode::Common(_) => {},
                }
                proof {
                    assert(arena_view(nodes@) =~~= goal.0);
                }
                return InsertType::RightMove(max_key);
            }
        }
        proof {
            lemma_insert_sorted(leaf_of(s, id as int).keys, *new_key);
            assert(arena_view(nodes@) =~~= leaf_grown(s, id as int, *new_key, *new_value));
        }
        let (median_key, new_left, new_right) = Self::split(nodes, id);
        InsertType::Split(median_key, new_left, new_right)
    }
}

/// Slot `id` replaced by the leaf `l`.
pub open spec fn with_leaf<K, V>(s: Seq<NodeView<K, V>>, id: int, l: LeafView<K, V>) -> Seq<
    NodeView<K, V>,
> {
    s.update(id, NodeView::Leaf(l))
}

/// A link of the leaf at `id` names another leaf of the arena.
pub open spec fn neighbour_ready<K, V>(s: Seq<NodeView<K, V>>, id: int, link: Option<int>) -> bool {
    link matches Some(n) ==> {
        &&& 0 <= n < s.len()
        &&& n != id
        &&& s[n] is Leaf
        &&& leaf_of(s, n).keys.len() == leaf_of(s, n).values.len()
    }
}

/// What `LeafNode::insert` and `LeafNode::split` ask of the leaf at `id`
/// and of its neighbours.
pub open spec fn leaf_insert_pre<K: TotalOrder, V>(s: Seq<NodeView<K, V>>, id: int) -> bool {
    &&& 0 <= id < s.len()
    &&& s[id] is Leaf
    &&& leaf_of(s, id).keys.len() == leaf_of(s, id).values.len()
    &&& sorted(leaf_of(s, id).keys)
    &&& neighbour_ready(s, id, leaf_of(s, id).left)
    &&& neighbour_ready(s, id, leaf_of(s, id).right)
    &&& leaf_of(s, id).left is Some ==> leaf_of(s, id).left != leaf_of(s, id).right
}

/// The arena after the entry has been stored in the leaf at `id`, before
/// the leaf sheds anything.
pub open spec fn leaf_grown<K: TotalOrder, V>(s: Seq<NodeView<K, V>>, id: int, key: K, value: V) -> Seq<
    NodeView<K, V>,
> {
    let l = leaf_of(s, id);
    let pos = count_below(l.keys, key) as int;
    with_leaf(
        s,
        id,
        LeafView { keys: l.keys.insert(pos, key), values: l.values.insert(pos, value), ..l },
    )
}

/// The arena and the result of `LeafNode::split` on the leaf at `id`.
pub open spec fn leaf_split<K, V>(s: Seq<NodeView<K, V>>, id: int) -> (Seq<NodeView<K, V>>, (K, usize, usize)) {
    let l = leaf_of(s, id);
    let len = l.keys.len() as int;
    let m = len / 2;
    let new_id = s.len() as int;
    let left_half = LeafView {
        keys: l.keys.subrange(0, m),
        values: l.values.subrange(0, m),
        right: Some(new_id),
        ..l
    };
    let right_half = LeafView {
        degree: l.degree,
        keys: l.keys.subrange(m, len),
        values: l.values.subrange(m, len),
        left: Some(id),
        right: l.right,
    };
    let s1 = with_leaf(s, id, left_half).push(NodeView::Leaf(right_half));
    let s2 = match l.right {
        Some(r) => with_leaf(s1, r, LeafView { left: Some(new_id), ..leaf_of(s, r) }),
        None => s1,
    };
    (s2, (l.keys[m], id as usize, new_id as usize))
}

/// The arena and the outcome of `LeafNode::insert` on the leaf at `id`.
pub open spec fn leaf_insert<K: TotalOrder, V>(s: Seq<NodeView<K, V>>, id: int, key: K, value: V) -> (
    Seq<NodeView<K, V>>,
    InsertType<K>,
) {
    let l = leaf_of(s, id);
    let grown = leaf_grown(s, id, key, value);
    let g = leaf_of(grown, id);
    if g.keys.len() <= l.degree {
        (grown, InsertType::Normal)
    } else if l.left is Some && leaf_of(s, l.left.unwrap()).values.len() < l.degree {
        let n = l.left.unwrap();
        let nb = leaf_of(s, n);
        let shrunk = LeafView { keys: g.keys.drop_first(), values: g.values.drop_first(), ..g };
        let fed = LeafView {
            keys: nb.keys.push(g.keys.first()),
            values: nb.values.push(g.values.first()),
            ..nb
        };
        (with_leaf(with_leaf(grown, id, shrunk), n, fed), InsertType::LeftMove(g.keys[1]))
    } else if l.right is Some && leaf_of(s, l.right.unwrap()).values.len() < l.degree {
        let n = l.right.unwrap();
        let nb = leaf_of(s, n);
        let shrunk = LeafView { keys: g.keys.drop_last(), values: g.values.drop_last(), ..g };
        let fed = LeafView {
            keys: nb.keys.insert(0, g.keys.last()),
            values: nb.values.insert(0, g.values.last()),
            ..nb
        };
        (with_leaf(with_leaf(grown, id, shrunk), n, fed), InsertType::RightMove(g.keys.last()))
    } else {
        let (after, (median, left, right)) = leaf_split(grown, id);
        (after, InsertType::Split(median, left, right))
    }
}

} // verus!
