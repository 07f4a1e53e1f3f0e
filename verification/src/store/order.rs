//! Sorting by composite keys: a number, then two byte strings.
//!
//! The views a store serves are sorted the way a range scan followed by a
//! stable sort would leave them. Every such order here is a key of this shape,
//! compared field by field, and the sort is stable so that equal keys keep
//! the order they were found in.

use vstd::prelude::*;

use crate::proto::ids::{bytes_less, lemma_bytes_less_irreflexive, lemma_bytes_less_total, lemma_bytes_less_transitive, lemma_bytes_less_asymmetric};

verus! {

/// A key as values.
pub type KeyModel = (u64, Seq<u8>, Seq<u8>);

/// A sort key: compared by `primary`, then `secondary`, then `tertiary`.
pub struct SortKey {
    pub primary: u64,
    pub secondary: Vec<u8>,
    pub tertiary: Vec<u8>,
}

impl View for SortKey {
    type V = KeyModel;

    open spec fn view(&self) -> KeyModel {
        (self.primary, self.secondary@, self.tertiary@)
    }
}

/// Strictly before, field by field.
pub open spec fn key_less(a: KeyModel, b: KeyModel) -> bool {
    a.0 < b.0 || (a.0 == b.0 && (bytes_less(a.1, b.1) || (a.1 == b.1 && bytes_less(a.2, b.2))))
}

pub proof fn lemma_key_less_irreflexive(a: KeyModel)
    ensures
        !key_less(a, a),
{
    lemma_bytes_less_irreflexive(a.1);
    lemma_bytes_less_irreflexive(a.2);
}

pub proof fn lemma_key_less_transitive(a: KeyModel, b: KeyModel, c: KeyModel)
    requires
        key_less(a, b),
        key_less(b, c),
    ensures
        key_less(a, c),
{
    if a.0 == b.0 && b.0 == c.0 {
        if bytes_less(a.1, b.1) && bytes_less(b.1, c.1) {
            lemma_bytes_less_transitive(a.1, b.1, c.1);
        }
        if a.1 == b.1 && b.1 == c.1 && bytes_less(a.2, b.2) && bytes_less(b.2, c.2) {
            lemma_bytes_less_transitive(a.2, b.2, c.2);
        }
    }
}

pub proof fn lemma_key_less_total(a: KeyModel, b: KeyModel)
    ensures
        a == b || key_less(a, b) || key_less(b, a),
{
    lemma_bytes_less_total(a.1, b.1);
    lemma_bytes_less_total(a.2, b.2);
}

pub proof fn lemma_key_less_asymmetric(a: KeyModel, b: KeyModel)
    ensures
        key_less(a, b) ==> !key_less(b, a),
{
    lemma_bytes_less_asymmetric(a.1, b.1);
    lemma_bytes_less_asymmetric(a.2, b.2);
    lemma_bytes_less_irreflexive(a.1);
    lemma_bytes_less_irreflexive(a.2);
}

/// `order` lists every position of `keys` once, in key order, equal keys
/// keeping the order they came in: what a stable sort produces.
pub open spec fn is_stable_sort(keys: Seq<KeyModel>, order: Seq<int>) -> bool {
    &&& order.len() == keys.len()
    &&& forall|i: int| 0 <= i < order.len() ==> 0 <= #[trigger] order[i] < keys.len()
    &&& forall|x: int| 0 <= x < keys.len() ==> #[trigger] order.contains(x)
    &&& forall|i: int, j: int| 0 <= i < j < order.len() ==> #[trigger] order[i] != #[trigger] order[j]
    &&& forall|i: int, j: int|
        0 <= i < j < order.len() ==> !key_less(keys[#[trigger] order[j]], keys[#[trigger] order[i]])
    &&& forall|i: int, j: int|
        0 <= i < j < order.len() && keys[#[trigger] order[i]] == keys[#[trigger] order[j]] ==> order[i] < order[j]
}

/// Lexicographic order on byte strings of any lengths.
pub fn bytes_lt(a: &[u8], b: &[u8]) -> (r: bool)
    ensures
        r == bytes_less(a@, b@),
{
    let mut i: usize = 0;
    assert(a@.skip(0) =~= a@);
    assert(b@.skip(0) =~= b@);
    while i < a.len() && i < b.len()
        invariant
            i <= a@.len(),
            i <= b@.len(),
            a@.subrange(0, i as int) == b@.subrange(0, i as int),
            bytes_less(a@, b@) == bytes_less(a@.skip(i as int), b@.skip(i as int)),
        decreases a@.len() - i,
    {
        if a[i] < b[i] {
            return true;
        }
        if a[i] > b[i] {
            return false;
        }
        assert(a@.skip(i as int).drop_first() =~= a@.skip(i + 1));
        assert(b@.skip(i as int).drop_first() =~= b@.skip(i + 1));
        assert(a@.subrange(0, i + 1) =~= a@.subrange(0, i as int).push(a@[i as int]));
        assert(b@.subrange(0, i + 1) =~= b@.subrange(0, i as int).push(b@[i as int]));
        i += 1;
    }
    i == a.len() && i < b.len()
}

/// Equality of byte strings.
pub fn bytes_eq(a: &[u8], b: &[u8]) -> (r: bool)
    ensures
        r == (a@ == b@),
{
    if a.len() != b.len() {
        return false;
    }
    let mut i: usize = 0;
    while i < a.len()
        invariant
            i <= a@.len(),
            a@.len() == b@.len(),
            forall|k: int| 0 <= k < i ==> a@[k] == b@[k],
        decreases a@.len() - i,
    {
        if a[i] != b[i] {
            return false;
        }
        i += 1;
    }
    assert(a@ =~= b@);
    true
}

pub fn sort_key_less(a: &SortKey, b: &SortKey) -> (r: bool)
    ensures
        r == key_less(a@, b@),
{
    if a.primary != b.primary {
        return a.primary < b.primary;
    }
    if bytes_lt(a.secondary.as_slice(), b.secondary.as_slice()) {
        return true;
    }
    if !bytes_eq(a.secondary.as_slice(), b.secondary.as_slice()) {
        return false;
    }
    bytes_lt(a.tertiary.as_slice(), b.tertiary.as_slice())
}

pub open spec fn keys_view(keys: Seq<SortKey>) -> Seq<KeyModel> {
    keys.map_values(|k: SortKey| k@)
}

pub open spec fn order_view(order: Seq<usize>) -> Seq<int> {
    order.map_values(|i: usize| i as int)
}

/// The positions of `keys` in stable key order.
pub fn stable_order(keys: &Vec<SortKey>) -> (order: Vec<usize>)
    ensures
        is_stable_sort(keys_view(keys@), order_view(order@)),
{
    let ghost kv = keys_view(keys@);
    let mut order: Vec<usize> = Vec::new();
    let mut m: usize = 0;
    while m < keys.len()
        invariant
            m <= keys@.len(),
            kv == keys_view(keys@),
            kv.len() == keys@.len(),
            is_stable_sort(kv.take(m as int), order_view(order@)),
        decreases keys@.len() - m,
    {
        let ghost o = order_view(order@);
        let ghost km = kv[m as int];
        assert(kv.take(m as int).len() == m);
        // The first position whose key is strictly after key `m`.
        let mut p: usize = 0;
        while p < order.len()
            invariant
                m < keys@.len(),
                kv == keys_view(keys@),
                kv.len() == keys@.len(),
                o == order_view(order@),
                km == kv[m as int],
                p <= order@.len(),
                order@.len() == m,
                forall|i: int| 0 <= i < m ==> 0 <= #[trigger] o[i] < m,
                forall|i: int| 0 <= i < p ==> !key_less(km, kv[#[trigger] o[i]]),
            ensures
                p <= order@.len(),
                forall|i: int| 0 <= i < p ==> !key_less(km, kv[#[trigger] o[i]]),
                p < order@.len() ==> key_less(km, kv[o[p as int]]),
            decreases order@.len() - p,
        {
            let at = order[p];
            assert(o[p as int] == at as int);
            assert(kv[at as int] == keys@[at as int]@);
            if sort_key_less(&keys[m], &keys[at]) {
                break;
            }
            p += 1;
        }
        proof {
            let t = kv.take(m as int);
            let t1 = kv.take(m + 1);
            let n = o.insert(p as int, m as int);
            assert forall|i: int| 0 <= i < n.len() implies 0 <= #[trigger] n[i] < t1.len() by {
                if i < p {
                    assert(n[i] == o[i]);
                } else if i > p {
                    assert(n[i] == o[i - 1]);
                }
            }
            assert forall|x: int| 0 <= x < t1.len() implies #[trigger] n.contains(x) by {
                if x == m {
                    assert(n[p as int] == x);
                } else {
                    assert(o.contains(x));
                    let i = choose|i: int| 0 <= i < o.len() && o[i] == x;
                    if i < p {
                        assert(n[i] == x);
                    } else {
                        assert(n[i + 1] == x);
                    }
                }
            }
            assert forall|i: int, j: int| 0 <= i < j < n.len() implies #[trigger] n[i] != #[trigger] n[j] by {
                if j < p {
                    assert(n[i] == o[i] && n[j] == o[j]);
                } else if j == p {
                    assert(n[i] == o[i]);
                } else if i < p {
                    assert(n[i] == o[i] && n[j] == o[j - 1]);
                } else if i == p {
                    assert(n[j] == o[j - 1]);
                } else {
                    assert(n[i] == o[i - 1] && n[j] == o[j - 1]);
                }
            }
            assert forall|i: int, j: int| 0 <= i < j < n.len() implies !key_less(
                t1[#[trigger] n[j]],
                t1[#[trigger] n[i]],
            ) by {
                assert forall|x: int| 0 <= x < m implies t1[x] == t[x] by {}
                if j < p {
                    assert(n[i] == o[i] && n[j] == o[j]);
                } else if j == p {
                    assert(n[i] == o[i]);
                    assert(!key_less(km, kv[o[i]]));
                } else if i < p {
                    assert(n[i] == o[i] && n[j] == o[j - 1]);
                } else if i == p {
                    assert(n[j] == o[j - 1]);
                    // key m sorts strictly before the key at p, which is no
                    // later than the key at j - 1.
                    assert(key_less(km, kv[o[p as int]]));
                    if j - 1 > p {
                        assert(!key_less(t[o[j - 1]], t[o[p as int]]));
                        lemma_key_less_total(kv[o[p as int]], kv[o[j - 1]]);
                        if kv[o[p as int]] != kv[o[j - 1]] {
                            lemma_key_less_transitive(km, kv[o[p as int]], kv[o[j - 1]]);
                        }
                    }
                    lemma_key_less_asymmetric(km, kv[o[j - 1]]);
                } else {
                    assert(n[i] == o[i - 1] && n[j] == o[j - 1]);
                }
            }
            assert forall|i: int, j: int|
                0 <= i < j < n.len() && t1[#[trigger] n[i]] == t1[#[trigger] n[j]] implies n[i] < n[j] by {
                assert forall|x: int| 0 <= x < m implies t1[x] == t[x] by {}
                if j < p {
                    assert(n[i] == o[i] && n[j] == o[j]);
                } else if j == p {
                    assert(n[i] == o[i]);
                } else if i < p {
                    assert(n[i] == o[i] && n[j] == o[j - 1]);
                } else if i == p {
                    assert(n[j] == o[j - 1]);
                    assert(key_less(km, kv[o[p as int]]));
                    if j - 1 > p {
                        assert(!key_less(t[o[j - 1]], t[o[p as int]]));
                        lemma_key_less_total(kv[o[p as int]], kv[o[j - 1]]);
                        if kv[o[p as int]] != kv[o[j - 1]] {
                            lemma_key_less_transitive(km, kv[o[p as int]], kv[o[j - 1]]);
                        }
                    }
                    lemma_key_less_irreflexive(km);
                } else {
                    assert(n[i] == o[i - 1] && n[j] == o[j - 1]);
                }
            }
        }
        order.insert(p, m);
        assert(order_view(order@) =~= o.insert(p as int, m as int));
        m += 1;
    }
    assert(kv.take(keys@.len() as int) =~= kv);
    order
}

} // verus!
