//! What insertion and lookup do to a sorted run of entries, and what
//! follows for a whole sequence of insertions.

use crate::lookup::{distinct_keys, has_key, lookup};
use crate::order::{
    count_below, lemma_count_below_bound, lemma_count_below_is_boundary,
    lemma_count_below_parts, lemma_insert_sorted, lemma_total_order, lt, sorted, TotalOrder,
};
use crate::outcome::with_entry;
use crate::shape::keys_of;
use vstd::prelude::*;

verus! {

/// The keys of a run with a new entry are the old keys with the new key
/// at the same position.
pub proof fn lemma_with_entry_keys<K: TotalOrder, V>(e: Seq<(K, V)>, key: K, value: V)
    ensures
        count_below(keys_of(e), key) <= e.len(),
        with_entry(e, key, value).len() == e.len() + 1,
        keys_of(with_entry(e, key, value)) == keys_of(e).insert(
            count_below(keys_of(e), key) as int,
            key,
        ),
{
    lemma_count_below_bound(keys_of(e), key);
    let p = count_below(keys_of(e), key) as int;
    assert(keys_of(with_entry(e, key, value)) =~= keys_of(e).insert(p, key));
}

/// Insertion keeps a sorted run sorted.
pub proof fn lemma_with_entry_sorted<K: TotalOrder, V>(e: Seq<(K, V)>, key: K, value: V)
    requires
        sorted(keys_of(e)),
    ensures
        sorted(keys_of(with_entry(e, key, value))),
{
    lemma_with_entry_keys(e, key, value);
    lemma_insert_sorted(keys_of(e), key);
}

/// After an insertion some entry has the key `other` if and only if
/// `other` is the new key or some entry had it before.
pub proof fn lemma_with_entry_has_key<K: TotalOrder, V>(e: Seq<(K, V)>, key: K, value: V, other: K)
    ensures
        has_key(with_entry(e, key, value), other) <==> other == key || has_key(e, other),
{
    lemma_with_entry_keys(e, key, value);
    let p = count_below(keys_of(e), key) as int;
    let e1 = with_entry(e, key, value);
    if has_key(e1, other) {
        let i = choose|i: int| 0 <= i < e1.len() && (#[trigger] e1[i]).0 == other;
        if i < p {
            assert(e[i].0 == other);
        } else if i > p {
            assert(e[i - 1].0 == other);
        }
    }
    if has_key(e, other) {
        let i = choose|i: int| 0 <= i < e.len() && (#[trigger] e[i]).0 == other;
        if i < p {
            assert(e1[i].0 == other);
        } else {
            assert(e1[i + 1].0 == other);
        }
    }
    assert(e1[p].0 == key);
}

/// Insertion of a key that no entry has keeps the keys distinct.
pub proof fn lemma_with_entry_distinct<K: TotalOrder, V>(e: Seq<(K, V)>, key: K, value: V)
    requires
        distinct_keys(e),
        !has_key(e, key),
    ensures
        distinct_keys(with_entry(e, key, value)),
{
    lemma_with_entry_keys(e, key, value);
    let p = count_below(keys_of(e), key) as int;
    let e1 = with_entry(e, key, value);
    assert forall|i: int, j: int| 0 <= i < j < e1.len() implies (#[trigger] e1[i]).0 != (
    #[trigger] e1[j]).0 by {
        let oi = if i < p {
            i
        } else {
            i - 1
        };
        let oj = if j < p {
            j
        } else {
            j - 1
        };
        if i == p {
            assert(e[oj].0 != key);
        } else if j == p {
            assert(e[oi].0 != key);
        } else {
            assert(e[oi].0 != e[oj].0);
        }
    }
}

/// After an insertion into a sorted run, the inserted key is looked up
/// with the inserted value, whatever the run held before.
pub proof fn lemma_lookup_inserted<K: TotalOrder, V>(e: Seq<(K, V)>, key: K, value: V)
    requires
        sorted(keys_of(e)),
    ensures
        lookup(with_entry(e, key, value), key) == Some(value),
{
    lemma_total_order::<K>();
    lemma_with_entry_keys(e, key, value);
    let keys = keys_of(e);
    lemma_count_below_parts(keys, key);
    let p = count_below(keys, key) as int;
    let e1 = with_entry(e, key, value);
    let keys1 = keys_of(e1);
    assert forall|i: int| 0 <= i < p implies lt(#[trigger] keys1[i], key) by {
        assert(keys1[i] == keys[i]);
    }
    assert forall|i: int| p <= i < keys1.len() implies !lt(#[trigger] keys1[i], key) by {
        if i > p {
            assert(keys1[i] == keys[i - 1]);
            assert(key.le(keys[i - 1]));
        }
    }
    lemma_count_below_is_boundary(keys1, key, p);
}

/// An insertion into a sorted run does not change what is looked up
/// under another key.
pub proof fn lemma_lookup_other<K: TotalOrder, V>(e: Seq<(K, V)>, key: K, value: V, other: K)
    requires
        sorted(keys_of(e)),
        other != key,
    ensures
        lookup(with_entry(e, key, value), other) == lookup(e, other),
{
    lemma_total_order::<K>();
    lemma_with_entry_keys(e, key, value);
    let keys = keys_of(e);
    lemma_count_below_parts(keys, key);
    lemma_count_below_parts(keys, other);
    let p = count_below(keys, key) as int;
    let q = count_below(keys, other) as int;
    let e1 = with_entry(e, key, value);
    let keys1 = keys_of(e1);
    if lt(key, other) {
        // the new entry stands in front of the place of `other`
        assert(p <= q) by {
            if q < p {
                assert(lt(keys[q], key));
                assert(other.le(keys[q]));
            }
        }
        assert forall|i: int| 0 <= i < q + 1 implies lt(#[trigger] keys1[i], other) by {
            if i < p {
                assert(keys1[i] == keys[i]);
            } else if i > p {
                assert(keys1[i] == keys[i - 1]);
            }
        }
        assert forall|i: int| q + 1 <= i < keys1.len() implies !lt(#[trigger] keys1[i], other) by {
            assert(keys1[i] == keys[i - 1]);
            assert(other.le(keys[i - 1]));
        }
        lemma_count_below_is_boundary(keys1, other, q + 1);
        if q < e.len() {
            assert(e1[q + 1] == e[q]);
        }
    } else {
        // the new entry stands behind it, or at it
        assert(lt(other, key));
        assert(q <= p) by {
            if p < q {
                assert(lt(keys[p], other));
                assert(key.le(keys[p]));
            }
        }
        assert forall|i: int| 0 <= i < q implies lt(#[trigger] keys1[i], other) by {
            assert(keys1[i] == keys[i]);
        }
        assert forall|i: int| q <= i < keys1.len() implies !lt(#[trigger] keys1[i], other) by {
            if i < p {
                assert(keys1[i] == keys[i]);
                assert(other.le(keys[i]));
            } else if i > p {
                assert(keys1[i] == keys[i - 1]);
                assert(other.le(keys[i - 1]));
            }
        }
        lemma_count_below_is_boundary(keys1, other, q);
        if q < p {
            assert(e1[q] == e[q]);
        } else {
            assert(e1[q].0 == key);
            if q < e.len() {
                assert(key.le(keys[q]));
                assert(e[q].0 == keys[q]);
            }
        }
    }
}

/// The entries after the insertions `ops`, made one after the other into
/// an empty run.
pub open spec fn inserted<K: TotalOrder, V>(ops: Seq<(K, V)>) -> Seq<(K, V)>
    decreases ops.len(),
{
    if ops.len() == 0 {
        Seq::empty()
    } else {
        with_entry(inserted(ops.drop_last()), ops.last().0, ops.last().1)
    }
}

/// A sequence of insertions leaves a sorted run with one entry for each
/// insertion; its keys are the inserted keys.
pub proof fn lemma_inserted_sorted<K: TotalOrder, V>(ops: Seq<(K, V)>)
    ensures
        sorted(keys_of(inserted(ops))),
        inserted(ops).len() == ops.len(),
        forall|key: K| has_key(inserted(ops), key) <==> has_key(ops, key),
    decreases ops.len(),
{
    if ops.len() > 0 {
        let front = ops.drop_last();
        lemma_inserted_sorted(front);
        lemma_with_entry_sorted(inserted(front), ops.last().0, ops.last().1);
        lemma_with_entry_keys(inserted(front), ops.last().0, ops.last().1);
        assert forall|key: K| has_key(inserted(ops), key) <==> has_key(ops, key) by {
            lemma_with_entry_has_key(inserted(front), ops.last().0, ops.last().1, key);
            if has_key(front, key) {
                let i = choose|i: int| 0 <= i < front.len() && (#[trigger] front[i]).0 == key;
                assert(ops[i].0 == key);
            }
            if has_key(ops, key) {
                let i = choose|i: int| 0 <= i < ops.len() && (#[trigger] ops[i]).0 == key;
                if i < front.len() {
                    assert(front[i].0 == key);
                }
            }
            assert(ops[ops.len() - 1].0 == ops.last().0);
        }
    } else {
        assert(keys_of(inserted(ops)) =~= Seq::<K>::empty());
    }
}

/// Insertions of distinct keys leave entries with distinct keys.
pub proof fn lemma_inserted_distinct<K: TotalOrder, V>(ops: Seq<(K, V)>)
    requires
        distinct_keys(ops),
    ensures
        distinct_keys(inserted(ops)),
    decreases ops.len(),
{
    if ops.len() > 0 {
        let front = ops.drop_last();
        assert forall|i: int, j: int| 0 <= i < j < front.len() implies (#[trigger] front[i]).0 != (
        #[trigger] front[j]).0 by {
            assert(ops[i].0 != ops[j].0);
        }
        lemma_inserted_distinct(front);
        lemma_inserted_sorted(front);
        if has_key(front, ops.last().0) {
            let i = choose|i: int| 0 <= i < front.len() && (#[trigger] front[i]).0 == ops.last().0;
            assert(ops[i].0 != ops[ops.len() - 1].0);
        }
        lemma_with_entry_distinct(inserted(front), ops.last().0, ops.last().1);
    }
}

/// After a sequence of insertions, a key is looked up with the value of
/// the last insertion under that key.
pub proof fn lemma_inserted_latest<K: TotalOrder, V>(ops: Seq<(K, V)>, i: int)
    requires
        0 <= i < ops.len(),
        forall|j: int| i < j < ops.len() ==> (#[trigger] ops[j]).0 != ops[i].0,
    ensures
        lookup(inserted(ops), ops[i].0) == Some(ops[i].1),
    decreases ops.len(),
{
    let front = ops.drop_last();
    lemma_inserted_sorted(front);
    if i == ops.len() - 1 {
        lemma_lookup_inserted(inserted(front), ops.last().0, ops.last().1);
    } else {
        assert(ops[ops.len() - 1].0 != ops[i].0);
        assert forall|j: int| i < j < front.len() implies (#[trigger] front[j]).0 != front[i].0 by {
            assert(ops[j].0 != ops[i].0);
        }
        lemma_inserted_latest(front, i);
        lemma_lookup_other(inserted(front), ops.last().0, ops.last().1, ops[i].0);
    }
}

/// Two insertions of the same entry leave one entry more than one
/// insertion does: to insert is not idempotent.
pub proof fn lemma_insert_twice<K: TotalOrder, V>(e: Seq<(K, V)>, key: K, value: V)
    ensures
        with_entry(with_entry(e, key, value), key, value).len() == e.len() + 2,
        with_entry(with_entry(e, key, value), key, value) != with_entry(e, key, value),
{
    lemma_with_entry_keys(e, key, value);
    lemma_with_entry_keys(with_entry(e, key, value), key, value);
}

} // verus!
