//! Total orders on keys, sorted key sequences, and the ordered search that
//! every node uses to place a key.

use vstd::prelude::*;

verus! {

/// A key type with a total order that agrees with equality.
///
/// `le` is the order in specifications; `key_lt` and `key_eq` are the
/// executable comparisons that nodes call.
pub trait TotalOrder: Copy {
    /// `self` is at most `other`.
    spec fn le(self, other: Self) -> bool;

    /// `le` is reflexive, total, antisymmetric and transitive.
    proof fn order_laws()
        ensures
            forall|a: Self| #[trigger] a.le(a),
            forall|a: Self, b: Self| #![trigger a.le(b)] a.le(b) || b.le(a),
            forall|a: Self, b: Self| #![trigger a.le(b), b.le(a)] a.le(b) && b.le(a) ==> a == b,
            forall|a: Self, b: Self, c: Self|
                #![trigger a.le(b), b.le(c)]
                a.le(b) && b.le(c) ==> a.le(c),
    ;

    /// Strict comparison.
    fn key_lt(&self, other: &Self) -> (b: bool)
        ensures
            b == (self.le(*other) && *self != *other),
    ;

    /// Equality test.
    fn key_eq(&self, other: &Self) -> (b: bool)
        ensures
            b == (*self == *other),
    ;
}

/// Strictly below: at most, and different.
pub open spec fn lt<K: TotalOrder>(a: K, b: K) -> bool {
    a.le(b) && a != b
}

/// The four laws of a total order, stated for `K::le`.
pub open spec fn is_total_order<K: TotalOrder>() -> bool {
    &&& forall|a: K| #[trigger] a.le(a)
    &&& forall|a: K, b: K| #![trigger a.le(b)] a.le(b) || b.le(a)
    &&& forall|a: K, b: K| #![trigger a.le(b), b.le(a)] a.le(b) && b.le(a) ==> a == b
    &&& forall|a: K, b: K, c: K| #![trigger a.le(b), b.le(c)] a.le(b) && b.le(c) ==> a.le(c)
}

/// Brings the laws of `K`'s order into a proof.
pub proof fn lemma_total_order<K: TotalOrder>()
    ensures
        is_total_order::<K>(),
{
    K::order_laws();
}

impl TotalOrder for i8 {
    open spec fn le(self, other: Self) -> bool {
        self <= other
    }

    proof fn order_laws() {
    }

    fn key_lt(&self, other: &Self) -> (b: bool) {
        *self < *other
    }

    fn key_eq(&self, other: &Self) -> (b: bool) {
        *self == *other
    }
}

impl TotalOrder for i16 {
    open spec fn le(self, other: Self) -> bool {
        self <= other
    }

    proof fn order_laws() {
    }

    fn key_lt(&self, other: &Self) -> (b: bool) {
        *self < *other
    }

    fn key_eq(&self, other: &Self) -> (b: bool) {
        *self == *other
    }
}

impl TotalOrder for i32 {
    open spec fn le(self, other: Self) -> bool {
        self <= other
    }

    proof fn order_laws() {
    }

    fn key_lt(&self, other: &Self) -> (b: bool) {
        *self < *other
    }

    fn key_eq(&self, other: &Self) -> (b: bool) {
        *self == *other
    }
}

impl TotalOrder for i64 {
    open spec fn le(self, other: Self) -> bool {
        self <= other
    }

    proof fn order_laws() {
    }

    fn key_lt(&self, other: &Self) -> (b: bool) {
        *self < *other
    }

    fn key_eq(&self, other: &Self) -> (b: bool) {
        *self == *other
    }
}

impl TotalOrder for i128 {
    open spec fn le(self, other: Self) -> bool {
        self <= other
    }

    proof fn order_laws() {
    }

    fn key_lt(&self, other: &Self) -> (b: bool) {
        *self < *other
    }

    fn key_eq(&self, other: &Self) -> (b: bool) {
        *self == *other
    }
}

impl TotalOrder for isize {
    open spec fn le(self, other: Self) -> bool {
        self <= other
    }

    proof fn order_laws() {
    }

    fn key_lt(&self, other: &Self) -> (b: bool) {
        *self < *other
    }

    fn key_eq(&self, other: &Self) -> (b: bool) {
        *self == *other
    }
}

impl TotalOrder for u8 {
    open spec fn le(self, other: Self) -> bool {
        self <= other
    }

    proof fn order_laws() {
    }

    fn key_lt(&self, other: &Self) -> (b: bool) {
        *self < *other
    }

    fn key_eq(&self, other: &Self) -> (b: bool) {
        *self == *other
    }
}

impl TotalOrder for u16 {
    open spec fn le(self, other: Self) -> bool {
        self <= other
    }

    proof fn order_laws() {
    }

    fn key_lt(&self, other: &Self) -> (b: bool) {
        *self < *other
    }

    fn key_eq(&self, other: &Self) -> (b: bool) {
        *self == *other
    }
}

impl TotalOrder for u32 {
    open spec fn le(self, other: Self) -> bool {
        self <= other
    }

    proof fn order_laws() {
    }

    fn key_lt(&self, other: &Self) -> (b: bool) {
        *self < *other
    }

    fn key_eq(&self, other: &Self) -> (b: bool) {
        *self == *other
    }
}

impl TotalOrder for u64 {
    open spec fn le(self, other: Self) -> bool {
        self <= other
    }

    proof fn order_laws() {
    }

    fn key_lt(&self, other: &Self) -> (b: bool) {
        *self < *other
    }

    fn key_eq(&self, other: &Self) -> (b: bool) {
        *self == *other
    }
}

impl TotalOrder for u128 {
    open spec fn le(self, other: Self) -> bool {
        self <= other
    }

    proof fn order_laws() {
    }

    fn key_lt(&self, other: &Self) -> (b: bool) {
        *self < *other
    }

    fn key_eq(&self, other: &Self) -> (b: bool) {
        *self == *other
    }
}

impl TotalOrder for usize {
    open spec fn le(self, other: Self) -> bool {
        self <= other
    }

    proof fn order_laws() {
    }

    fn key_lt(&self, other: &Self) -> (b: bool) {
        *self < *other
    }

    fn key_eq(&self, other: &Self) -> (b: bool) {
        *self == *other
    }
}

/// Keys in ascending order; equal neighbours are allowed.
pub open spec fn sorted<K: TotalOrder>(keys: Seq<K>) -> bool {
    forall|i: int, j: int| 0 <= i < j < keys.len() ==> (#[trigger] keys[i]).le(#[trigger] keys[j])
}

/// How many of `keys` are strictly below `key`. In a sorted sequence this is
/// the first position at which `key` can stand.
pub open spec fn count_below<K: TotalOrder>(keys: Seq<K>, key: K) -> nat
    decreases keys.len(),
{
    if keys.len() == 0 {
        0
    } else {
        count_below(keys.drop_last(), key) + if lt(keys.last(), key) {
            1nat
        } else {
            0nat
        }
    }
}

/// No more keys are below `key` than there are keys.
pub proof fn lemma_count_below_bound<K: TotalOrder>(keys: Seq<K>, key: K)
    ensures
        count_below(keys, key) <= keys.len(),
    decreases keys.len(),
{
    if keys.len() > 0 {
        lemma_count_below_bound(keys.drop_last(), key);
    }
}

/// In a sorted sequence, an index that parts the keys below `key` from the
/// rest is `count_below`.
pub proof fn lemma_count_below_is_boundary<K: TotalOrder>(keys: Seq<K>, key: K, p: int)
    requires
        0 <= p <= keys.len(),
        forall|i: int| 0 <= i < p ==> lt(#[trigger] keys[i], key),
        forall|i: int| p <= i < keys.len() ==> !lt(#[trigger] keys[i], key),
    ensures
        count_below(keys, key) == p,
    decreases keys.len(),
{
    if keys.len() > 0 {
        let front = keys.drop_last();
        if p == keys.len() {
            lemma_count_below_is_boundary(front, key, p - 1);
        } else {
            lemma_count_below_is_boundary(front, key, p);
        }
    }
}

/// In a sorted sequence the keys below `key` come first: `count_below`
/// parts them from the keys that are at least `key`.
pub proof fn lemma_count_below_parts<K: TotalOrder>(keys: Seq<K>, key: K)
    requires
        sorted(keys),
    ensures
        count_below(keys, key) <= keys.len(),
        forall|i: int| 0 <= i < count_below(keys, key) ==> lt(#[trigger] keys[i], key),
        forall|i: int| count_below(keys, key) <= i < keys.len() ==> key.le(#[trigger] keys[i]),
    decreases keys.len(),
{
    lemma_total_order::<K>();
    if keys.len() > 0 {
        let front = keys.drop_last();
        lemma_count_below_parts(front, key);
        if lt(keys.last(), key) {
            assert forall|i: int| 0 <= i < front.len() implies lt(#[trigger] front[i], key) by {
                assert(keys[i].le(keys.last()));
            }
            lemma_count_below_is_boundary(front, key, front.len() as int);
            assert forall|i: int| 0 <= i < keys.len() implies lt(#[trigger] keys[i], key) by {
                if i < front.len() {
                    assert(front[i] == keys[i]);
                }
            }
        } else {
            assert forall|i: int| 0 <= i < count_below(keys, key) implies lt(
                #[trigger] keys[i],
                key,
            ) by {
                assert(front[i] == keys[i]);
            }
            assert forall|i: int| count_below(keys, key) <= i < keys.len() implies key.le(
                #[trigger] keys[i],
            ) by {
                if i < front.len() {
                    assert(front[i] == keys[i]);
                }
            }
        }
    }
}

/// A key inserted at `count_below` keeps a sorted sequence sorted.
pub proof fn lemma_insert_sorted<K: TotalOrder>(keys: Seq<K>, key: K)
    requires
        sorted(keys),
    ensures
        count_below(keys, key) <= keys.len(),
        sorted(keys.insert(count_below(keys, key) as int, key)),
{
    lemma_total_order::<K>();
    lemma_count_below_parts(keys, key);
    let p = count_below(keys, key) as int;
    let grown = keys.insert(p, key);
    assert forall|i: int, j: int| 0 <= i < j < grown.len() implies (#[trigger] grown[i]).le(
        #[trigger] grown[j],
    ) by {
        if j < p {
            assert(keys[i].le(keys[j]));
        } else if j == p {
            assert(lt(keys[i], key));
        } else if i < p {
            assert(keys[i].le(keys[j - 1]));
        } else if i == p {
            assert(key.le(keys[j - 1]));
        } else {
            assert(keys[i - 1].le(keys[j - 1]));
        }
    }
}

/// Ordered search: the first position whose key is not below `key`, and
/// whether the key at that position equals `key`.
///
/// `Ok(i)` reports a match at `i`, the first of any run of equal keys;
/// `Err(i)` reports the position where `key` would be inserted.
pub fn binary_search<K: TotalOrder>(keys: &Vec<K>, key: &K) -> (r: Result<usize, usize>)
    requires
        sorted(keys@),
    ensures
        match r {
            Ok(i) => i == count_below(keys@, *key) && i < keys.len() && keys[i as int] == *key,
            Err(i) => i == count_below(keys@, *key) && i <= keys.len() && (i < keys.len()
                ==> keys[i as int] != *key),
        },
{
    let mut low: usize = 0;
    let mut high: usize = keys.len();
    proof {
        lemma_total_order::<K>();
    }
    while low < high
        invariant
            0 <= low <= high <= keys.len(),
            sorted(keys@),
            is_total_order::<K>(),
            forall|i: int| 0 <= i < low ==> lt(#[trigger] keys[i], *key),
            forall|i: int| high <= i < keys.len() ==> !lt(#[trigger] keys[i], *key),
        decreases high - low,
    {
        let mid: usize = low + (high - low) / 2;
        if keys[mid].key_lt(key) {
            low = mid + 1;
        } else {
            high = mid;
        }
    }
    proof {
        lemma_count_below_is_boundary(keys@, *key, low as int);
    }
    if low < keys.len() && keys[low].key_eq(key) {
        Ok(low)
    } else {
        Err(low)
    }
}

} // verus!
