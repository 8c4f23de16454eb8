//! An ordered key-value index: a balanced search tree whose leaves hold the
//! entries and whose internal nodes hold routing keys.
//!
//! The nodes live in an arena and name each other by index. `BTree` owns
//! the arena and is the only one to make the tree higher. `leaf_node`,
//! `common_node` and `types` hold the nodes; `order` holds the order on
//! keys; `shape` says what a well-formed tree is, and the modules around
//! it prove that an insertion leaves one; `laws` and the lemmas of `BTree`
//! state what callers can rely on.
//!
//! `database` and `repl` hold a paged table of rows and the front end of a
//! small shell, which could sit on top of the index.

pub mod absorb;
pub mod chain;
pub mod common_node;
pub mod database;
pub mod descend;
pub mod entries;
pub mod errors;
pub mod halve;
pub mod laws;
pub mod leaf_lemmas;
pub mod leaf_node;
pub mod lookup;
pub mod mend;
pub mod order;
pub mod outcome;
pub mod position;
pub mod reparent;
pub mod repl;
pub mod root;
pub mod shape;
pub mod siblings;
pub mod spine;
pub mod splice;
pub mod types;

use crate::chain::{
    chain_consistent, lemma_member_capacity, lemma_member_links, lemma_walk_back,
    linked_both_ways, walk_left, walk_right, within_capacity,
};
use crate::common_node::{CommonNode, node_insert};
use crate::entries::lemma_entries_props;
use crate::errors::BTreeCreateError;
use crate::laws::{
    inserted, lemma_inserted_distinct, lemma_inserted_latest, lemma_lookup_inserted,
    lemma_lookup_other, lemma_with_entry_distinct,
};
use crate::leaf_lemmas::{lemma_leaf_outcome, lemma_leaf_ready};
use crate::leaf_node::{leaf_insert, LeafNode, LeafView};
use crate::lookup::{distinct_keys, find, found, has_key, lemma_find, lookup};
use crate::order::{binary_search, count_below, lemma_count_below_bound, sorted, TotalOrder};
use crate::outcome::{Site, with_entry};
use crate::root::{
    empty_root, lemma_first_entry, lemma_root_kept, lemma_root_ready, lemma_root_split, raised,
    tree_insert, tree_ok, unbounded,
};
use crate::shape::{
    Bounds, child_bounds, common_of, Degrees, entries, in_subtree, keys_of, leaf_of, leftmost,
    lemma_end_leaves, lemma_member_valid, rightmost, subtree,
};
use crate::types::{arena_view, InsertType, NodeView, TreeNode};
use vstd::prelude::*;

verus! {

/// The tree: its two degrees, the arena of its nodes, and the index of
/// its root.
pub struct BTree<K, V> {
    leaf_degree: usize,
    common_degree: usize,
    nodes: Vec<TreeNode<K, V>>,
    root: usize,
    height: Ghost<nat>,
}

impl<K, V> View for BTree<K, V> {
    type V = Seq<(K, V)>;

    /// The entries of the tree, leaf after leaf.
    closed spec fn view(&self) -> Seq<(K, V)> {
        entries(arena_view(self.nodes@), self.root as int, self.height@)
    }
}

impl<K: TotalOrder, V: Copy> BTree<K, V> {
    /// The nodes of the tree, by arena index.
    pub closed spec fn arena(&self) -> Seq<NodeView<K, V>> {
        arena_view(self.nodes@)
    }

    /// The arena index of the root.
    pub closed spec fn root_id(&self) -> int {
        self.root as int
    }

    /// The number of levels of internal nodes above the leaves.
    pub closed spec fn height(&self) -> nat {
        self.height@
    }

    /// The capacities of the tree's nodes.
    pub closed spec fn degrees(&self) -> Degrees {
        Degrees { leaf: self.leaf_degree as nat, common: self.common_degree as nat }
    }

    /// The tree is well formed.
    pub closed spec fn wf(&self) -> bool {
        tree_ok(self.arena(), self.root_id(), self.height(), self.degrees())
    }

    /// What a search for `key` finds, by descent from the root.
    pub closed spec fn spec_search(&self, key: K) -> Option<V> {
        find(self.arena(), self.root_id(), self.height(), key)
    }

    /// An empty tree with the given degrees. A leaf must be able to hold
    /// an entry, and an internal node two keys.
    pub fn new(leaf_degree: usize, common_degree: usize) -> (r: Result<Self, BTreeCreateError>)
        ensures
            match r {
                Ok(tree) => {
                    &&& leaf_degree >= 1
                    &&& common_degree >= 2
                    &&& tree.wf()
                    &&& tree@ == Seq::<(K, V)>::empty()
                    &&& tree.height() == 0
                    &&& tree.root_id() == 0
                    &&& tree.arena() == seq![
                        NodeView::<K, V>::Leaf(
                            LeafView {
                                degree: leaf_degree as nat,
                                keys: Seq::<K>::empty(),
                                values: Seq::<V>::empty(),
                                left: None,
                                right: None,
                            },
                        ),
                    ]
                    &&& tree.degrees() == (Degrees {
                        leaf: leaf_degree as nat,
                        common: common_degree as nat,
                    })
                },
                Err(e) => if leaf_degree == 0 {
                    e == BTreeCreateError::ZeroLeafNodeDegree
                } else {
                    common_degree <= 1 && e == BTreeCreateError::WrongCommonNodeDegree
                },
            },
    {
        if leaf_degree == 0 {
            return Err(BTreeCreateError::ZeroLeafNodeDegree);
        }
        if common_degree <= 1 {
            return Err(BTreeCreateError::WrongCommonNodeDegree);
        }
        let mut nodes: Vec<TreeNode<K, V>> = Vec::new();
        nodes.push(TreeNode::Leaf(LeafNode::new(leaf_degree, None, None)));
        let tree = BTree { leaf_degree, common_degree, nodes, root: 0, height: Ghost(0) };
        proof {
            let s = tree.arena();
            assert(tree@ =~= Seq::<(K, V)>::empty());
            assert forall|x: int| 0 <= x < s.len() implies #[trigger] in_subtree(
                s,
                0,
                0,
                x,
            ) by {
            }
        }
        Ok(tree)
    }

    /// Stores the entry after every entry whose key is below `new_key`;
    /// an entry with the same key that is there already stays. The tree
    /// grows by one level when its root is split, and never shrinks.
    pub fn insert(&mut self, new_key: &K, new_value: &V)
        requires
            old(self).wf(),
        ensures
            final(self).wf(),
            final(self)@ == with_entry(old(self)@, *new_key, *new_value),
            final(self).degrees() == old(self).degrees(),
            old(self).height() <= final(self).height() <= old(self).height() + 1,
            (final(self).arena(), final(self).root_id(), final(self).height()) == tree_insert(
                old(self).arena(),
                old(self).root_id(),
                old(self).height(),
                old(self).degrees(),
                *new_key,
                *new_value,
            ),
    {
        let ghost s = self.arena();
        let ghost h = self.height@;
        let ghost d = self.degrees();
        let root = self.root;
        let root_is_leaf = match &self.nodes[root] {
            TreeNode::Leaf(_) => true,
            TreeNode::Common(_) => false,
        };
        let insert_result = if root_is_leaf {
            proof {
                if !empty_root(s, root as int, h, d) {
                    lemma_root_ready(s, root as int, h, d, *new_key);
                    lemma_leaf_ready(
                        s,
                        root as int,
                        unbounded(),
                        d,
                        *new_key,
                    );
                } else {
                    lemma_first_entry(
                        s,
                        leaf_insert(s, root as int, *new_key, *new_value).0,
                        root as int,
                        d,
                        *new_key,
                        *new_value,
                        leaf_insert(s, root as int, *new_key, *new_value).1,
                    );
                }
            }
            let result = LeafNode::insert(&mut self.nodes, root, new_key, new_value);
            proof {
                assert(self.nodes.len() <= usize::MAX);
                if !empty_root(s, root as int, h, d) {
                    lemma_leaf_outcome(
                        s,
                        self.arena(),
                        root as int,
                        unbounded(),
                        d,
                        *new_key,
                        *new_value,
                        result,
                    );
                }
            }
            result
        } else {
            proof {
                lemma_root_ready(s, root as int, h, d, *new_key);
            }
            CommonNode::insert(
                &mut self.nodes,
                root,
                new_key,
                new_value,
                Ghost(Site { h, b: unbounded(), d }),
            )
        };
        let ghost s1 = self.arena();
        assert((s1, insert_result) == node_insert(
            s,
            root as int,
            h,
            *new_key,
            *new_value,
        ));
        match insert_result {
            InsertType::Normal => {
                proof {
                    if !empty_root(s, root as int, h, d) {
                        lemma_root_kept(s, s1, root as int, h, d, *new_key, *new_value, 0, 0);
                    }
                }
            },
            InsertType::Split(new_median, new_left_ref, new_right_ref) => {
                let new_root = CommonNode::new(
                    self.common_degree,
                    Some(vec![new_median]),
                    Some(vec![new_left_ref, new_right_ref]),
                );
                let new_root_id = self.nodes.len();
                self.nodes.push(TreeNode::Common(new_root));
                self.root = new_root_id;
                self.height = Ghost(h + 1);
                proof {
                    lemma_root_split(
                        s,
                        s1,
                        root as int,
                        h,
                        d,
                        *new_key,
                        *new_value,
                        new_median,
                        new_left_ref,
                        new_right_ref,
                    );
                    let goal = raised(s1, d, new_median, new_left_ref as int, new_right_ref as int);
                    let s2 = self.arena();
                    assert(common_of(s2, new_root_id as int).keys =~= seq![new_median]);
                    assert(common_of(s2, new_root_id as int).childs =~= seq![
                        new_left_ref as int,
                        new_right_ref as int,
                    ]);
                    assert(s2[new_root_id as int] == goal[new_root_id as int]);
                    assert(s2 =~= goal);
                }
            },
            InsertType::LeftMove(_) => {
                proof {
                    lemma_root_kept(s, s1, root as int, h, d, *new_key, *new_value, 1, 0);
                }
            },
            InsertType::RightMove(_) => {
                proof {
                    lemma_root_kept(s, s1, root as int, h, d, *new_key, *new_value, 0, 1);
                }
            },
        }
    }

    /// Searches the subtree at `node` for `key`.
    fn find_value(&self, node: usize, key: &K, Ghost(h): Ghost<nat>, Ghost(b): Ghost<Bounds<K>>) -> (r:
        Option<V>)
        requires
            node < self.nodes.len(),
            subtree(self.arena(), node as int, h, b, self.degrees()) || empty_root(
                self.arena(),
                node as int,
                h,
                self.degrees(),
            ),
        ensures
            r == find(self.arena(), node as int, h, *key),
        decreases h,
    {
        let ghost s = self.arena();
        match &self.nodes[node] {
            TreeNode::Common(common_node) => {
                let keys = common_node.get_keys();
                if keys.len() == 0 {
                    return None;
                }
                let childs = common_node.get_childs();
                proof {
                    lemma_count_below_bound(keys@, *key);
                }
                let ghost p = count_below(keys@, *key) as int;
                let ghost j = if p < keys@.len() && keys@[p] == *key {
                    p + 1
                } else {
                    p
                };
                proof {
                    let c = common_of(s, node as int);
                    assert(subtree(
                        s,
                        c.childs[j],
                        (h - 1) as nat,
                        child_bounds(c.keys, b, j),
                        self.degrees(),
                    ));
                }
                let ghost below = child_bounds(keys@, b, j);
                match binary_search(keys, key) {
                    Ok(idx) => self.find_value(
                        childs[idx + 1],
                        key,
                        Ghost((h - 1) as nat),
                        Ghost(below),
                    ),
                    Err(idx) => self.find_value(
                        childs[idx],
                        key,
                        Ghost((h - 1) as nat),
                        Ghost(below),
                    ),
                }
            },
            TreeNode::Leaf(leaf_node) => {
                let keys = leaf_node.get_keys();
                if keys.len() == 0 {
                    return None;
                }
                match binary_search(keys, key) {
                    Ok(idx) => {
                        let values = leaf_node.get_values();
                        Some(values[idx])
                    },
                    Err(_) => None,
                }
            },
        }
    }

    /// The value of an entry with the key `key`, if the tree holds one.
    /// Where no two entries have the same key, it is the value of the
    /// entry with that key.
    pub fn search(&self, key: &K) -> (r: Option<V>)
        requires
            self.wf(),
        ensures
            r == self.spec_search(*key),
            found(self@, *key, r),
    {
        proof {
            if !empty_root(self.arena(), self.root_id(), self.height(), self.degrees()) {
                lemma_find(
                    self.arena(),
                    self.root_id(),
                    self.height(),
                    unbounded(),
                    self.degrees(),
                    *key,
                );
            } else {
                assert(self@ =~= Seq::<(K, V)>::empty());
            }
        }
        self.find_value(self.root, key, Ghost(self.height@), Ghost(unbounded()))
    }

    /// The degree of the internal nodes, then the degree of the leaves.
    pub fn get_settings(&self) -> (r: (usize, usize))
        ensures
            r.0 == self.degrees().common,
            r.1 == self.degrees().leaf,
    {
        (self.common_degree, self.leaf_degree)
    }

    /// The root node.
    pub fn get_root(&self) -> (node: &TreeNode<K, V>)
        requires
            self.wf(),
        ensures
            node@ == self.arena()[self.root_id()],
    {
        &self.nodes[self.root]
    }

    /// The arena index of the root.
    pub fn get_root_id(&self) -> (id: usize)
        ensures
            id == self.root_id(),
    {
        self.root
    }

    /// The node at the arena index `id`, if there is one.
    pub fn get_node(&self, id: usize) -> (node: Option<&TreeNode<K, V>>)
        ensures
            match node {
                Some(n) => id < self.arena().len() && n@ == self.arena()[id as int],
                None => id >= self.arena().len(),
            },
    {
        if id < self.nodes.len() {
            Some(&self.nodes[id])
        } else {
            None
        }
    }

    /// How many nodes the tree has.
    pub fn node_count(&self) -> (n: usize)
        ensures
            n == self.arena().len(),
    {
        self.nodes.len()
    }
}

impl<K: TotalOrder, V: Copy> BTree<K, V> {
    /// The first leaf of the tree.
    pub closed spec fn first_leaf(&self) -> int {
        leftmost(self.arena(), self.root_id(), self.height())
    }

    /// The last leaf of the tree.
    pub closed spec fn last_leaf(&self) -> int {
        rightmost(self.arena(), self.root_id(), self.height())
    }

    /// The entries of a well-formed tree are sorted by their keys.
    pub proof fn lemma_view_sorted(&self)
        requires
            self.wf(),
        ensures
            sorted(keys_of(self@)),
    {
        if empty_root(self.arena(), self.root_id(), self.height(), self.degrees()) {
            assert(keys_of(self@) =~= Seq::<K>::empty());
        } else {
            lemma_entries_props(
                self.arena(),
                self.root_id(),
                self.height(),
                unbounded(),
                self.degrees(),
            );
        }
    }

    /// Every node of a well-formed tree is within its capacity: a leaf
    /// holds no more entries than the leaf degree, an internal node no
    /// more keys than the common degree, and one child more than keys.
    pub proof fn lemma_nodes_within_capacity(&self, id: int)
        requires
            self.wf(),
            0 <= id < self.arena().len(),
        ensures
            within_capacity(self.arena()[id], self.degrees()),
    {
        let s = self.arena();
        assert(in_subtree(s, self.root_id(), self.height(), id));
        if !empty_root(s, self.root_id(), self.height(), self.degrees()) {
            lemma_member_capacity(
                s,
                self.root_id(),
                self.height(),
                unbounded(),
                self.degrees(),
                id,
            );
        }
    }

    /// In a well-formed tree every leaf and its neighbours name each
    /// other, the first leaf has no left neighbour and the last leaf no
    /// right one, and they are the only such leaves.
    pub proof fn lemma_leaf_chain(&self)
        requires
            self.wf(),
        ensures
            chain_consistent(self.arena()),
            0 <= self.first_leaf() < self.arena().len(),
            0 <= self.last_leaf() < self.arena().len(),
            self.arena()[self.first_leaf()] is Leaf,
            self.arena()[self.last_leaf()] is Leaf,
            leaf_of(self.arena(), self.first_leaf()).left is None,
            leaf_of(self.arena(), self.last_leaf()).right is None,
            forall|x: int|
                0 <= x < self.arena().len() && #[trigger] self.arena()[x] is Leaf && leaf_of(
                    self.arena(),
                    x,
                ).left is None ==> x == self.first_leaf(),
            forall|x: int|
                0 <= x < self.arena().len() && #[trigger] self.arena()[x] is Leaf && leaf_of(
                    self.arena(),
                    x,
                ).right is None ==> x == self.last_leaf(),
    {
        let s = self.arena();
        let root = self.root_id();
        let h = self.height();
        let d = self.degrees();
        if !empty_root(s, root, h, d) {
            lemma_end_leaves(s, root, h, unbounded(), d);
            lemma_member_valid(s, root, h, unbounded(), d, self.first_leaf());
            lemma_member_valid(s, root, h, unbounded(), d, self.last_leaf());
            assert forall|x: int| 0 <= x < s.len() && #[trigger] s[x] is Leaf implies {
                &&& linked_both_ways(s, x)
                &&& leaf_of(s, x).left is None ==> x == self.first_leaf()
                &&& leaf_of(s, x).right is None ==> x == self.last_leaf()
            } by {
                assert(in_subtree(s, root, h, x));
                lemma_member_links(s, root, h, unbounded(), d, x);
                if leaf_of(s, x).right is Some {
                    let r = leaf_of(s, x).right.unwrap();
                    if x != rightmost(s, root, h) {
                        lemma_member_valid(s, root, h, unbounded(), d, r);
                    }
                }
                if leaf_of(s, x).left is Some {
                    let l = leaf_of(s, x).left.unwrap();
                    if x != leftmost(s, root, h) {
                        lemma_member_valid(s, root, h, unbounded(), d, l);
                    }
                }
            }
        } else {
            assert forall|x: int| 0 <= x < s.len() && #[trigger] s[x] is Leaf implies x == root by {
                assert(in_subtree(s, root, h, x));
            }
        }
    }

    /// Walking right from the first leaf, by any number of steps, and then
    /// as many steps left from the leaf reached, leads back to the first
    /// leaf.
    pub proof fn lemma_walk_returns(&self, n: nat, y: int)
        requires
            self.wf(),
            walk_right(self.arena(), self.first_leaf(), n) == Some(y),
        ensures
            walk_left(self.arena(), y, n) == Some(self.first_leaf()),
    {
        self.lemma_leaf_chain();
        lemma_walk_back(self.arena(), self.first_leaf(), n, y);
    }

    /// Where no two entries of a well-formed tree have the same key, a
    /// search finds what a lookup among the entries finds.
    pub proof fn lemma_search_is_lookup(&self, key: K)
        requires
            self.wf(),
            distinct_keys(self@),
        ensures
            self.spec_search(key) == lookup(self@, key),
    {
        if empty_root(self.arena(), self.root_id(), self.height(), self.degrees()) {
            assert(self@ =~= Seq::<(K, V)>::empty());
            assert(keys_of(self@) =~= Seq::<K>::empty());
        } else {
            lemma_find(
                self.arena(),
                self.root_id(),
                self.height(),
                unbounded(),
                self.degrees(),
                key,
            );
        }
    }

    /// After the insertion of a key that the tree did not hold, into a
    /// tree whose keys are distinct, a search for that key finds the
    /// inserted value, and a search for any other key finds what it found
    /// before.
    pub proof fn lemma_search_after_insert(before: &Self, after: &Self, key: K, value: V, other: K)
        requires
            before.wf(),
            after.wf(),
            after@ == with_entry(before@, key, value),
            distinct_keys(before@),
            !has_key(before@, key),
        ensures
            distinct_keys(after@),
            after.spec_search(key) == Some(value),
            other != key ==> after.spec_search(other) == before.spec_search(other),
    {
        before.lemma_view_sorted();
        lemma_with_entry_distinct(before@, key, value);
        before.lemma_search_is_lookup(other);
        after.lemma_search_is_lookup(other);
        after.lemma_search_is_lookup(key);
        lemma_lookup_inserted(before@, key, value);
        if other != key {
            lemma_lookup_other(before@, key, value, other);
        }
    }

    /// A well-formed tree that holds what a sequence of insertions of
    /// distinct keys leaves finds every inserted key with its value.
    pub proof fn lemma_search_finds_inserted(&self, ops: Seq<(K, V)>, i: int)
        requires
            self.wf(),
            self@ == inserted(ops),
            distinct_keys(ops),
            0 <= i < ops.len(),
        ensures
            self.spec_search(ops[i].0) == Some(ops[i].1),
    {
        lemma_inserted_distinct(ops);
        self.lemma_search_is_lookup(ops[i].0);
        assert forall|j: int| i < j < ops.len() implies (#[trigger] ops[j]).0 != ops[i].0 by {
        }
        lemma_inserted_latest(ops, i);
    }
}

} // verus!
