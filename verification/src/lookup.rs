//! Looking a key up: the descent from a node to the leaf that would hold
//! the key, and what it finds in terms of the subtree's entries.

use crate::entries::{lemma_count_below_concat, lemma_entries_props, lemma_keys_of_concat};
use crate::order::{
    count_below, lemma_count_below_bound, lemma_count_below_is_boundary,
    lemma_count_below_parts, lemma_total_order, lt, sorted, TotalOrder,
};
use crate::position::{after, before, lemma_around};
use crate::shape::{
    Bounds, child_bounds, common_of, Degrees, entries, keys_of, leaf_of, seam, subtree,
};
use crate::types::NodeView;
use vstd::prelude::*;

verus! {

/// What a search for `key` finds under the node at `id`. In a leaf it is
/// the value at the first position whose key is not below `key`, if the
/// key there is `key`. In an internal node the search goes on in the
/// child behind the first separator that is not below `key` if that
/// separator is `key`, else in the child in front of it.
pub open spec fn find<K: TotalOrder, V>(s: Seq<NodeView<K, V>>, id: int, h: nat, key: K) -> Option<V>
    decreases h,
{
    if h == 0 {
        let l = leaf_of(s, id);
        let p = count_below(l.keys, key) as int;
        if p < l.keys.len() && l.keys[p] == key {
            Some(l.values[p])
        } else {
            None
        }
    } else {
        let c = common_of(s, id);
        let p = count_below(c.keys, key) as int;
        let j = if p < c.keys.len() && c.keys[p] == key {
            p + 1
        } else {
            p
        };
        find(s, c.childs[j], (h - 1) as nat, key)
    }
}

/// Some entry has the key `key`.
pub open spec fn has_key<K, V>(e: Seq<(K, V)>, key: K) -> bool {
    exists|i: int| 0 <= i < e.len() && (#[trigger] e[i]).0 == key
}

/// Some entry is `(key, value)`.
pub open spec fn holds<K, V>(e: Seq<(K, V)>, key: K, value: V) -> bool {
    exists|i: int| 0 <= i < e.len() && #[trigger] e[i] == (key, value)
}

/// No two entries have the same key.
pub open spec fn distinct_keys<K, V>(e: Seq<(K, V)>) -> bool {
    forall|i: int, j: int| 0 <= i < j < e.len() ==> (#[trigger] e[i]).0 != (#[trigger] e[j]).0
}

/// The value of the first entry whose key is not below `key`, if that key
/// is `key`. Among sorted entries this is the first entry with the key.
pub open spec fn lookup<K: TotalOrder, V>(e: Seq<(K, V)>, key: K) -> Option<V> {
    let p = count_below(keys_of(e), key) as int;
    if p < e.len() && e[p].0 == key {
        Some(e[p].1)
    } else {
        None
    }
}

/// What `find` finds, in terms of the entries of the subtree: a value if
/// and only if some entry has the key; then the value of such an entry;
/// and, where no two entries have the same key, the value of the entry
/// with the key.
pub open spec fn found<K: TotalOrder, V>(e: Seq<(K, V)>, key: K, r: Option<V>) -> bool {
    &&& r is Some <==> has_key(e, key)
    &&& r matches Some(v) ==> holds(e, key, v)
    &&& distinct_keys(e) ==> r == lookup(e, key)
}

/// Among sorted entries, `lookup` finds a value if and only if some entry
/// has the key, and then the value of such an entry.
pub proof fn lemma_lookup<K: TotalOrder, V>(e: Seq<(K, V)>, key: K)
    requires
        sorted(keys_of(e)),
    ensures
        found(e, key, lookup(e, key)),
{
    lemma_total_order::<K>();
    let keys = keys_of(e);
    lemma_count_below_parts(keys, key);
    let p = count_below(keys, key) as int;
    if has_key(e, key) {
        let i = choose|i: int| 0 <= i < e.len() && (#[trigger] e[i]).0 == key;
        assert(keys[i] == key);
        if i < p {
            assert(lt(keys[i], key));
        }
        assert(key.le(keys[p]));
        if p < i {
            assert(keys[p].le(keys[i]));
        }
        assert(e[p].0 == keys[p]);
    }
    if lookup(e, key) is Some {
        assert(e[p] == (key, e[p].1));
    }
}

/// A key that stands between runs of smaller and of larger keys is looked
/// up in the run between them.
proof fn lemma_lookup_mid<K: TotalOrder, V>(
    pre: Seq<(K, V)>,
    mid: Seq<(K, V)>,
    post: Seq<(K, V)>,
    key: K,
)
    requires
        forall|x: int| 0 <= x < pre.len() ==> lt(#[trigger] keys_of(pre)[x], key),
        forall|x: int| 0 <= x < post.len() ==> key.le(#[trigger] keys_of(post)[x]),
        lookup(mid, key) is None ==> forall|x: int|
            0 <= x < post.len() ==> #[trigger] keys_of(post)[x] != key,
    ensures
        lookup(pre + mid + post, key) == lookup(mid, key),
{
    lemma_total_order::<K>();
    let e = pre + mid + post;
    lemma_count_below_is_boundary(keys_of(pre), key, pre.len() as int);
    assert forall|x: int| 0 <= x < post.len() implies !lt(#[trigger] keys_of(post)[x], key) by {
        assert(key.le(keys_of(post)[x]));
    }
    lemma_count_below_is_boundary(keys_of(post), key, 0);
    lemma_keys_of_concat(pre + mid, post);
    lemma_keys_of_concat(pre, mid);
    lemma_count_below_concat(keys_of(pre) + keys_of(mid), keys_of(post), key);
    lemma_count_below_concat(keys_of(pre), keys_of(mid), key);
    lemma_count_below_bound(keys_of(mid), key);
    let p = count_below(keys_of(mid), key) as int;
    assert(count_below(keys_of(e), key) == pre.len() + p);
    if p < mid.len() {
        assert(e[pre.len() + p] == mid[p]);
    } else if post.len() > 0 {
        assert(e[pre.len() + p] == post[0]);
        assert(keys_of(post)[0] != key);
    }
}

/// What `find` finds under a well-formed subtree.
pub proof fn lemma_find<K: TotalOrder, V>(
    s: Seq<NodeView<K, V>>,
    id: int,
    h: nat,
    b: Bounds<K>,
    d: Degrees,
    key: K,
)
    requires
        subtree(s, id, h, b, d),
    ensures
        found(entries(s, id, h), key, find(s, id, h, key)),
    decreases h,
{
    lemma_total_order::<K>();
    let e = entries(s, id, h);
    if h == 0 {
        let l = leaf_of(s, id);
        assert(keys_of(e) =~= l.keys);
        lemma_lookup(e, key);
    } else {
        let c = common_of(s, id);
        let g = (h - 1) as nat;
        let n = c.keys.len() as int;
        let p = count_below(c.keys, key) as int;
        lemma_count_below_parts(c.keys, key);
        let hit = p < n && c.keys[p] == key;
        let j = if hit {
            p + 1
        } else {
            p
        };
        let t = c.childs[j];
        assert(subtree(s, t, g, child_bounds(c.keys, b, j), d));
        lemma_find(s, t, g, child_bounds(c.keys, b, j), d, key);
        lemma_entries_props(s, t, g, child_bounds(c.keys, b, j), d);
        lemma_around(s, id, h, b, d, j);
        let pre = before(s, id, h, j);
        let mid = entries(s, t, g);
        let post = after(s, id, h, j);
        let r = find(s, t, g, key);
        assert(e == pre + mid + post);
        // what is in the child's run is in the node's run
        assert forall|x: int| 0 <= x < mid.len() implies e[pre.len() + x] == #[trigger] mid[x] by {
        }
        if has_key(mid, key) {
            let i = choose|i: int| 0 <= i < mid.len() && (#[trigger] mid[i]).0 == key;
            assert(e[pre.len() + i].0 == key);
        }
        if r is Some {
            let v = r.unwrap();
            let i = choose|i: int| 0 <= i < mid.len() && #[trigger] mid[i] == (key, v);
            assert(e[pre.len() + i] == (key, v));
        }
        if hit {
            assert(seam(s, c.childs, c.keys, g, p));
            assert(mid[0].0 == key);
            assert(has_key(mid, key));
        } else {
            // the key is strictly between the separators around the child
            assert forall|x: int| 0 <= x < pre.len() implies lt(
                #[trigger] keys_of(pre)[x],
                key,
            ) by {
                assert(keys_of(pre)[x].le(c.keys[j - 1]));
                assert(lt(c.keys[j - 1], key));
            }
            assert forall|x: int| 0 <= x < post.len() implies key.le(
                #[trigger] keys_of(post)[x],
            ) && keys_of(post)[x] != key by {
                assert(c.keys[j].le(keys_of(post)[x]));
                assert(key.le(c.keys[j]));
            }
            if has_key(e, key) {
                let i = choose|i: int| 0 <= i < e.len() && (#[trigger] e[i]).0 == key;
                if i < pre.len() {
                    assert(keys_of(pre)[i] == key);
                } else if i >= pre.len() + mid.len() {
                    assert(keys_of(post)[i - pre.len() - mid.len()] == key);
                } else {
                    assert(mid[i - pre.len()].0 == key);
                }
            }
        }
        if distinct_keys(e) {
            assert forall|x: int, y: int| 0 <= x < y < mid.len() implies (#[trigger] mid[x]).0 != (
            #[trigger] mid[y]).0 by {
                assert(e[pre.len() + x] == mid[x]);
                assert(e[pre.len() + y] == mid[y]);
            }
            if hit {
                assert(e[pre.len() as int] == mid[0]);
                assert forall|x: int| 0 <= x < pre.len() implies lt(
                    #[trigger] keys_of(pre)[x],
                    key,
                ) by {
                    assert(keys_of(pre)[x].le(c.keys[j - 1]));
                    assert(e[x] == pre[x]);
                    assert(e[x].0 != e[pre.len() as int].0);
                }
                assert forall|x: int| 0 <= x < post.len() implies key.le(
                    #[trigger] keys_of(post)[x],
                ) by {
                    assert(c.keys[j].le(keys_of(post)[x]));
                    assert(c.keys[p].le(c.keys[j]));
                }
            }
            lemma_lookup_mid(pre, mid, post, key);
        }
    }
}

} // verus!
