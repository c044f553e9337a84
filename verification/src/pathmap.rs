//! An ordered map keyed by byte strings, kept as two parallel vectors in
//! ascending byte order of the keys.

use crate::bytes::{bytes_eq, bytes_lt, lemma_lex_total, lemma_lex_transitive, lex_lt};
use vstd::prelude::*;

verus! {

/// The keys stand in strictly ascending byte order.
pub open spec fn ascending(keys: Seq<Seq<u8>>) -> bool {
    forall|i: int, j: int| 0 <= i < j < keys.len() ==> lex_lt(#[trigger] keys[i], #[trigger] keys[j])
}

/// The first position at or after `i` whose key is not below `k`.
pub open spec fn rank_from(keys: Seq<Seq<u8>>, k: Seq<u8>, i: int) -> int
    decreases keys.len() - i,
{
    if 0 <= i < keys.len() && lex_lt(keys[i], k) {
        rank_from(keys, k, i + 1)
    } else {
        i
    }
}

/// The number of leading keys below `k`: where `k` stands, or would stand.
pub open spec fn rank(keys: Seq<Seq<u8>>, k: Seq<u8>) -> int {
    rank_from(keys, k, 0)
}

/// `k` is one of the keys.
pub open spec fn has_key(keys: Seq<Seq<u8>>, k: Seq<u8>) -> bool {
    rank(keys, k) < keys.len() && keys[rank(keys, k)] == k
}

pub proof fn lemma_rank_from(keys: Seq<Seq<u8>>, k: Seq<u8>, i: int)
    requires
        0 <= i <= keys.len(),
    ensures
        i <= rank_from(keys, k, i) <= keys.len(),
        forall|j: int| i <= j < rank_from(keys, k, i) ==> lex_lt(#[trigger] keys[j], k),
        rank_from(keys, k, i) < keys.len() ==> !lex_lt(keys[rank_from(keys, k, i)], k),
    decreases keys.len() - i,
{
    if i < keys.len() && lex_lt(keys[i], k) {
        lemma_rank_from(keys, k, i + 1);
    }
}

pub proof fn lemma_rank_from_is(keys: Seq<Seq<u8>>, k: Seq<u8>, i: int, r: int)
    requires
        0 <= i <= r <= keys.len(),
        forall|j: int| i <= j < r ==> lex_lt(#[trigger] keys[j], k),
        r < keys.len() ==> !lex_lt(keys[r], k),
    ensures
        rank_from(keys, k, i) == r,
    decreases r - i,
{
    if i < r {
        lemma_rank_from_is(keys, k, i + 1, r);
    }
}

/// In an ascending sequence the rank splits the keys: those before it are
/// below `k`, those from it on are not; and `k` is a key exactly when it
/// stands at its rank.
pub proof fn lemma_rank(keys: Seq<Seq<u8>>, k: Seq<u8>)
    requires
        ascending(keys),
    ensures
        0 <= rank(keys, k) <= keys.len(),
        forall|j: int| 0 <= j < rank(keys, k) ==> lex_lt(#[trigger] keys[j], k),
        forall|j: int| rank(keys, k) <= j < keys.len() ==> !lex_lt(#[trigger] keys[j], k),
        forall|j: int| rank(keys, k) < j < keys.len() ==> lex_lt(k, #[trigger] keys[j]),
        has_key(keys, k) <==> keys.contains(k),
        forall|j: int| 0 <= j < keys.len() && keys[j] == k ==> j == rank(keys, k),
{
    lemma_rank_from(keys, k, 0);
    let r = rank(keys, k);
    assert forall|j: int| r <= j < keys.len() implies !lex_lt(#[trigger] keys[j], k) by {
        if j > r && lex_lt(keys[j], k) {
            lemma_lex_transitive(keys[r], keys[j], k);
        }
    }
    assert forall|j: int| r < j < keys.len() implies lex_lt(k, #[trigger] keys[j]) by {
        lemma_lex_total(keys[r], k);
        if keys[r] != k {
            lemma_lex_transitive(k, keys[r], keys[j]);
        }
    }
    assert forall|j: int| 0 <= j < keys.len() && keys[j] == k implies j == r by {
        lemma_lex_total(k, k);
        if j > r {
            lemma_lex_total(keys[j], k);
        }
    }
    if keys.contains(k) {
        let j = choose|j: int| 0 <= j < keys.len() && keys[j] == k;
        assert(j == r);
    }
}

/// The keys after `k` was put in.
pub open spec fn keys_with(keys: Seq<Seq<u8>>, k: Seq<u8>) -> Seq<Seq<u8>> {
    if has_key(keys, k) {
        keys
    } else {
        keys.insert(rank(keys, k), k)
    }
}

/// The values after `v` was put in under `k`.
pub open spec fn vals_with<V>(keys: Seq<Seq<u8>>, vals: Seq<V>, k: Seq<u8>, v: V) -> Seq<V> {
    if has_key(keys, k) {
        vals.update(rank(keys, k), v)
    } else {
        vals.insert(rank(keys, k), v)
    }
}

/// The keys after `k` was taken out.
pub open spec fn keys_without(keys: Seq<Seq<u8>>, k: Seq<u8>) -> Seq<Seq<u8>> {
    if has_key(keys, k) {
        keys.remove(rank(keys, k))
    } else {
        keys
    }
}

/// The values after the one under `k` was taken out.
pub open spec fn vals_without<V>(keys: Seq<Seq<u8>>, vals: Seq<V>, k: Seq<u8>) -> Seq<V> {
    if has_key(keys, k) {
        vals.remove(rank(keys, k))
    } else {
        vals
    }
}

/// Putting a key in keeps the order, adds that key and no other.
pub proof fn lemma_keys_with(keys: Seq<Seq<u8>>, k: Seq<u8>)
    requires
        ascending(keys),
    ensures
        ascending(keys_with(keys, k)),
        forall|x: Seq<u8>| #[trigger] keys_with(keys, k).contains(x) <==> (x == k || keys.contains(x)),
        rank(keys_with(keys, k), k) == rank(keys, k),
        has_key(keys_with(keys, k), k),
{
    lemma_rank(keys, k);
    let r = rank(keys, k);
    let out = keys_with(keys, k);
    if has_key(keys, k) {
        assert(keys[r] == k);
    } else {
        lemma_lex_total(keys[r], k);
        assert forall|i: int, j: int| 0 <= i < j < out.len() implies lex_lt(
            #[trigger] out[i],
            #[trigger] out[j],
        ) by {
            if i < r && j == r {
                assert(out[i] == keys[i]);
            } else if i < r && j > r {
                assert(out[i] == keys[i]);
                assert(out[j] == keys[j - 1]);
            } else if i == r {
                assert(out[j] == keys[j - 1]);
                if j - 1 == r {
                    lemma_lex_total(keys[r], k);
                }
            } else if i > r {
                assert(out[i] == keys[i - 1]);
                assert(out[j] == keys[j - 1]);
            } else {
                assert(out[i] == keys[i]);
                assert(out[j] == keys[j]);
            }
        }
        assert forall|x: Seq<u8>| #[trigger] out.contains(x) <==> (x == k || keys.contains(x)) by {
            if out.contains(x) {
                let j = choose|j: int| 0 <= j < out.len() && out[j] == x;
                if j < r {
                    assert(keys[j] == x);
                } else if j > r {
                    assert(keys[j - 1] == x);
                }
            }
            if x == k {
                assert(out[r] == k);
            }
            if keys.contains(x) {
                let j = choose|j: int| 0 <= j < keys.len() && keys[j] == x;
                if j < r {
                    assert(out[j] == x);
                } else {
                    assert(out[j + 1] == x);
                }
            }
        }
        assert(out[r] == k);
    }
    assert forall|j: int| 0 <= j < r implies lex_lt(#[trigger] out[j], k) by {
        assert(out[j] == keys[j]);
    }
    lemma_lex_total(k, k);
    assert(out[r] == k);
    lemma_rank_from_is(out, k, 0, r);
}

/// Taking a key out keeps the order, drops that key and no other.
pub proof fn lemma_keys_without(keys: Seq<Seq<u8>>, k: Seq<u8>)
    requires
        ascending(keys),
    ensures
        ascending(keys_without(keys, k)),
        forall|x: Seq<u8>| #[trigger] keys_without(keys, k).contains(x) <==> (x != k && keys.contains(x)),
        !has_key(keys_without(keys, k), k),
{
    lemma_rank(keys, k);
    let r = rank(keys, k);
    let out = keys_without(keys, k);
    if has_key(keys, k) {
        assert forall|i: int, j: int| 0 <= i < j < out.len() implies lex_lt(
            #[trigger] out[i],
            #[trigger] out[j],
        ) by {
            let i0 = if i < r {
                i
            } else {
                i + 1
            };
            let j0 = if j < r {
                j
            } else {
                j + 1
            };
            assert(out[i] == keys[i0]);
            assert(out[j] == keys[j0]);
        }
        assert forall|x: Seq<u8>| #[trigger] out.contains(x) <==> (x != k && keys.contains(x)) by {
            if out.contains(x) {
                let j = choose|j: int| 0 <= j < out.len() && out[j] == x;
                let j0 = if j < r {
                    j
                } else {
                    j + 1
                };
                assert(keys[j0] == x);
                lemma_lex_total(keys[j0], k);
            }
            if x != k && keys.contains(x) {
                let j = choose|j: int| 0 <= j < keys.len() && keys[j] == x;
                if j < r {
                    assert(out[j] == x);
                } else {
                    assert(out[j - 1] == x);
                }
            }
        }
    } else {
        assert forall|x: Seq<u8>| #[trigger] out.contains(x) <==> (x != k && keys.contains(x)) by {}
    }
    lemma_rank(out, k);
}

/// A key beyond every key there is goes to the end.
pub proof fn lemma_keys_with_last(keys: Seq<Seq<u8>>, k: Seq<u8>)
    requires
        ascending(keys),
        forall|j: int| 0 <= j < keys.len() ==> lex_lt(#[trigger] keys[j], k),
    ensures
        rank(keys, k) == keys.len(),
        !has_key(keys, k),
        keys_with(keys, k) == keys.push(k),
{
    lemma_rank_from_is(keys, k, 0, keys.len() as int);
    assert(keys.insert(keys.len() as int, k) =~= keys.push(k));
}

/// The map that ascending keys and their values stand for.
pub open spec fn seq_map<V>(keys: Seq<Seq<u8>>, vals: Seq<V>) -> Map<Seq<u8>, V> {
    Map::new(|k: Seq<u8>| keys.contains(k), |k: Seq<u8>| vals[rank(keys, k)])
}

/// Putting a value in is `Map::insert` on the map that the sequences
/// stand for.
pub proof fn lemma_map_with<V>(keys: Seq<Seq<u8>>, vals: Seq<V>, k: Seq<u8>, v: V)
    requires
        ascending(keys),
        keys.len() == vals.len(),
    ensures
        keys_with(keys, k).len() == vals_with(keys, vals, k, v).len(),
        seq_map(keys_with(keys, k), vals_with(keys, vals, k, v)) == seq_map(keys, vals).insert(k, v),
{
    lemma_rank(keys, k);
    lemma_keys_with(keys, k);
    let r = rank(keys, k);
    let keys2 = keys_with(keys, k);
    let vals2 = vals_with(keys, vals, k, v);
    let m2 = seq_map(keys2, vals2);
    let m = seq_map(keys, vals).insert(k, v);
    assert forall|x: Seq<u8>| m2.dom().contains(x) <==> m.dom().contains(x) by {
        assert(keys2.contains(x) <==> (x == k || keys.contains(x)));
    }
    assert forall|x: Seq<u8>| #[trigger] m2.dom().contains(x) implies m2[x] == m[x] by {
        lemma_rank(keys2, x);
        if x != k {
            assert(keys.contains(x));
            lemma_rank(keys, x);
            let j = rank(keys, x);
            assert(keys[j] == x);
            if has_key(keys, k) {
                assert(keys2[j] == x);
            } else if j < r {
                assert(keys2[j] == x);
            } else {
                assert(keys2[j + 1] == x);
            }
        }
    }
    assert(m2 =~= m);
}

/// Taking a key out is `Map::remove` on the map that the sequences stand
/// for.
pub proof fn lemma_map_without<V>(keys: Seq<Seq<u8>>, vals: Seq<V>, k: Seq<u8>)
    requires
        ascending(keys),
        keys.len() == vals.len(),
    ensures
        keys_without(keys, k).len() == vals_without(keys, vals, k).len(),
        seq_map(keys_without(keys, k), vals_without(keys, vals, k)) == seq_map(keys, vals).remove(k),
{
    lemma_rank(keys, k);
    lemma_keys_without(keys, k);
    let r = rank(keys, k);
    let keys2 = keys_without(keys, k);
    let vals2 = vals_without(keys, vals, k);
    let m2 = seq_map(keys2, vals2);
    let m = seq_map(keys, vals).remove(k);
    assert forall|x: Seq<u8>| m2.dom().contains(x) <==> m.dom().contains(x) by {
        assert(keys2.contains(x) <==> (x != k && keys.contains(x)));
    }
    assert forall|x: Seq<u8>| #[trigger] m2.dom().contains(x) implies m2[x] == m[x] by {
        lemma_rank(keys2, x);
        lemma_rank(keys, x);
        let j = rank(keys, x);
        assert(keys[j] == x);
        if has_key(keys, k) {
            if j < r {
                assert(keys2[j] == x);
            } else {
                assert(keys2[j - 1] == x);
            }
        }
    }
    assert(m2 =~= m);
}

/// Each key of an ascending sequence stands in the map, with the value at
/// its position.
pub proof fn lemma_map_at<V>(keys: Seq<Seq<u8>>, vals: Seq<V>, i: int)
    requires
        ascending(keys),
        keys.len() == vals.len(),
        0 <= i < keys.len(),
    ensures
        seq_map(keys, vals).dom().contains(keys[i]),
        seq_map(keys, vals)[keys[i]] == vals[i],
        rank(keys, keys[i]) == i,
{
    lemma_rank(keys, keys[i]);
}

/// Ascending sequences that hold the same keys are the same sequence.
pub proof fn lemma_same_keys(a: Seq<Seq<u8>>, b: Seq<Seq<u8>>)
    requires
        ascending(a),
        ascending(b),
        forall|x: Seq<u8>| a.contains(x) <==> b.contains(x),
    ensures
        a == b,
    decreases a.len(),
{
    if a.len() == 0 {
        if b.len() > 0 {
            assert(b.contains(b[0]));
        }
        assert(a =~= b);
    } else {
        let la = a.last();
        assert(a.contains(la));
        assert(b.contains(la));
        let lb = b.last();
        assert(b.contains(lb));
        assert(a.contains(lb));
        let ia = choose|i: int| 0 <= i < a.len() && a[i] == lb;
        let ib = choose|i: int| 0 <= i < b.len() && b[i] == la;
        lemma_lex_total(la, lb);
        if ia < a.len() - 1 {
            assert(lex_lt(a[ia], a[a.len() - 1]));
        }
        if ib < b.len() - 1 {
            assert(lex_lt(b[ib], b[b.len() - 1]));
        }
        assert(la == lb);
        let a2 = a.drop_last();
        let b2 = b.drop_last();
        assert forall|x: Seq<u8>| a2.contains(x) <==> b2.contains(x) by {
            if a2.contains(x) {
                let i = choose|i: int| 0 <= i < a2.len() && a2[i] == x;
                assert(a[i] == x);
                assert(lex_lt(a[i], a[a.len() - 1]));
                lemma_lex_total(x, la);
                assert(a.contains(x));
                let j = choose|j: int| 0 <= j < b.len() && b[j] == x;
                assert(b2[j] == x);
            }
            if b2.contains(x) {
                let i = choose|i: int| 0 <= i < b2.len() && b2[i] == x;
                assert(b[i] == x);
                assert(lex_lt(b[i], b[b.len() - 1]));
                lemma_lex_total(x, lb);
                assert(b.contains(x));
                let j = choose|j: int| 0 <= j < a.len() && a[j] == x;
                assert(a2[j] == x);
            }
        }
        lemma_same_keys(a2, b2);
        assert(a =~= a2.push(la));
        assert(b =~= b2.push(lb));
    }
}

/// Ascending sequences that stand for the same map are the same
/// sequences.
pub proof fn lemma_same_map<V>(k1: Seq<Seq<u8>>, v1: Seq<V>, k2: Seq<Seq<u8>>, v2: Seq<V>)
    requires
        ascending(k1),
        ascending(k2),
        k1.len() == v1.len(),
        k2.len() == v2.len(),
        seq_map(k1, v1) == seq_map(k2, v2),
    ensures
        k1 == k2,
        v1 == v2,
{
    assert forall|x: Seq<u8>| k1.contains(x) <==> k2.contains(x) by {
        assert(seq_map(k1, v1).dom().contains(x) <==> k1.contains(x));
        assert(seq_map(k2, v2).dom().contains(x) <==> k2.contains(x));
    }
    lemma_same_keys(k1, k2);
    assert forall|i: int| 0 <= i < v1.len() implies v1[i] == v2[i] by {
        lemma_map_at(k1, v1, i);
        lemma_map_at(k2, v2, i);
    }
    assert(v1 =~= v2);
}

/// A map from byte-string keys to values, walked in ascending byte order
/// of the keys.
#[derive(Debug)]
pub struct PathMap<V> {
    keys: Vec<Vec<u8>>,
    vals: Vec<V>,
}

impl<V> PathMap<V> {
    /// The keys in the order in which they are walked.
    pub closed spec fn keys(&self) -> Seq<Seq<u8>> {
        Seq::new(self.keys@.len(), |i: int| self.keys@[i]@)
    }

    /// The values, each at the position of its key.
    pub closed spec fn vals(&self) -> Seq<V> {
        self.vals@
    }

    /// One value for each key, and the keys strictly ascending.
    pub open spec fn wf(&self) -> bool {
        &&& self.keys().len() == self.vals().len()
        &&& ascending(self.keys())
    }

    pub open spec fn contains(&self, k: Seq<u8>) -> bool {
        self.keys().contains(k)
    }

    /// The value under `k`, where `k` is a key.
    pub open spec fn value(&self, k: Seq<u8>) -> V {
        self.vals()[rank(self.keys(), k)]
    }

    /// The map that this value stands for.
    pub open spec fn map(&self) -> Map<Seq<u8>, V> {
        seq_map(self.keys(), self.vals())
    }

    pub fn new() -> (m: Self)
        ensures
            m.wf(),
            m.keys() == Seq::<Seq<u8>>::empty(),
            m.vals() == Seq::<V>::empty(),
    {
        let m = PathMap { keys: Vec::new(), vals: Vec::new() };
        assert(m.keys() =~= Seq::<Seq<u8>>::empty());
        m
    }

    pub fn len(&self) -> (n: usize)
        requires
            self.wf(),
        ensures
            n == self.keys().len(),
    {
        self.keys.len()
    }

    /// The key at position `i` of the walk.
    pub fn key_at(&self, i: usize) -> (k: &Vec<u8>)
        requires
            self.wf(),
            i < self.keys().len(),
        ensures
            k@ == self.keys()[i as int],
    {
        &self.keys[i]
    }

    /// The value at position `i` of the walk.
    pub fn value_at(&self, i: usize) -> (v: &V)
        requires
            self.wf(),
            i < self.keys().len(),
        ensures
            *v == self.vals()[i as int],
    {
        &self.vals[i]
    }

    /// The number of keys below `k`.
    pub fn lower_bound(&self, k: &[u8]) -> (r: usize)
        requires
            self.wf(),
        ensures
            r == rank(self.keys(), k@),
            r <= self.keys().len(),
    {
        let mut lo: usize = 0;
        let mut hi: usize = self.keys.len();
        while lo < hi
            invariant
                self.wf(),
                lo <= hi <= self.keys().len(),
                self.keys().len() == self.keys@.len(),
                forall|j: int| 0 <= j < lo ==> lex_lt(#[trigger] self.keys()[j], k@),
                hi < self.keys().len() ==> !lex_lt(self.keys()[hi as int], k@),
            decreases hi - lo,
        {
            let mid: usize = lo + (hi - lo) / 2;
            if bytes_lt(self.keys[mid].as_slice(), k) {
                proof {
                    assert forall|j: int| 0 <= j < mid + 1 implies lex_lt(
                        #[trigger] self.keys()[j],
                        k@,
                    ) by {
                        if j < mid {
                            lemma_lex_transitive(self.keys()[j], self.keys()[mid as int], k@);
                        }
                    }
                }
                lo = mid + 1;
            } else {
                hi = mid;
            }
        }
        proof {
            lemma_rank_from_is(self.keys(), k@, 0, lo as int);
        }
        lo
    }

    /// The position of `k` in the walk, if it is a key.
    pub fn position(&self, k: &[u8]) -> (r: Option<usize>)
        requires
            self.wf(),
        ensures
            r is Some <==> self.contains(k@),
            r matches Some(i) ==> i == rank(self.keys(), k@) && i < self.keys().len()
                && self.keys()[i as int] == k@,
    {
        let i = self.lower_bound(k);
        proof {
            lemma_rank(self.keys(), k@);
        }
        if i < self.keys.len() && bytes_eq(self.keys[i].as_slice(), k) {
            Some(i)
        } else {
            None
        }
    }

    pub fn contains_key(&self, k: &[u8]) -> (r: bool)
        requires
            self.wf(),
        ensures
            r == self.contains(k@),
    {
        self.position(k).is_some()
    }

    /// The value under `k`, if `k` is a key.
    pub fn get(&self, k: &[u8]) -> (r: Option<&V>)
        requires
            self.wf(),
        ensures
            r is Some <==> self.contains(k@),
            r matches Some(v) ==> *v == self.value(k@),
    {
        match self.position(k) {
            Some(i) => Some(&self.vals[i]),
            None => None,
        }
    }

    /// Puts `v` under `k`, in place of the value that was there if `k` was
    /// a key already.
    pub fn insert(&mut self, k: Vec<u8>, v: V)
        requires
            old(self).wf(),
        ensures
            final(self).wf(),
            final(self).keys() == keys_with(old(self).keys(), k@),
            final(self).vals() == vals_with(old(self).keys(), old(self).vals(), k@, v),
            final(self).map() == old(self).map().insert(k@, v),
    {
        let i = self.lower_bound(k.as_slice());
        proof {
            lemma_rank(self.keys(), k@);
            lemma_keys_with(self.keys(), k@);
            lemma_map_with(self.keys(), self.vals(), k@, v);
        }
        if i < self.keys.len() && bytes_eq(self.keys[i].as_slice(), k.as_slice()) {
            self.vals[i] = v;
            assert(self.keys() =~= old(self).keys());
        } else {
            self.keys.insert(i, k);
            self.vals.insert(i, v);
            assert(self.keys() =~= old(self).keys().insert(i as int, k@));
        }
    }

    /// Takes out the key at position `i` of the walk, with its value.
    pub fn remove_at(&mut self, i: usize) -> (r: (Vec<u8>, V))
        requires
            old(self).wf(),
            i < old(self).keys().len(),
        ensures
            final(self).wf(),
            r.0@ == old(self).keys()[i as int],
            r.1 == old(self).vals()[i as int],
            final(self).keys() == old(self).keys().remove(i as int),
            final(self).vals() == old(self).vals().remove(i as int),
            final(self).map() == old(self).map().remove(r.0@),
    {
        proof {
            let k = self.keys()[i as int];
            lemma_map_at(self.keys(), self.vals(), i as int);
            lemma_rank(self.keys(), k);
            lemma_keys_without(self.keys(), k);
            lemma_map_without(self.keys(), self.vals(), k);
        }
        let k = self.keys.remove(i);
        let v = self.vals.remove(i);
        assert(self.keys() =~= old(self).keys().remove(i as int));
        (k, v)
    }

    /// Takes `k` and its value out, and hands the value back.
    pub fn remove(&mut self, k: &[u8]) -> (r: Option<V>)
        requires
            old(self).wf(),
        ensures
            final(self).wf(),
            final(self).keys() == keys_without(old(self).keys(), k@),
            final(self).vals() == vals_without(old(self).keys(), old(self).vals(), k@),
            final(self).map() == old(self).map().remove(k@),
            r is Some <==> old(self).contains(k@),
            r matches Some(v) ==> v == old(self).value(k@),
    {
        let i = self.lower_bound(k);
        proof {
            lemma_rank(self.keys(), k@);
            lemma_keys_without(self.keys(), k@);
            lemma_map_without(self.keys(), self.vals(), k@);
        }
        if i < self.keys.len() && bytes_eq(self.keys[i].as_slice(), k) {
            let _gone = self.keys.remove(i);
            let v = self.vals.remove(i);
            assert(self.keys() =~= old(self).keys().remove(i as int));
            Some(v)
        } else {
            None
        }
    }
}

} // verus!
