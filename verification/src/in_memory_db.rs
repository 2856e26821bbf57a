//! An ordered map from keys to payloads, held in memory.
//!
//! The map keeps its keys in ascending order, so that its key list can be
//! written out as a sorted file without a sort.

use crate::utils::{compare_keys, lemma_str_lt_irreflexive};
use crate::utils::{lemma_str_lt_transitive, str_lt, KeyOrder};
use vstd::prelude::*;

verus! {

/// The keys stand in strictly ascending order.
pub open spec fn sorted_keys(keys: Seq<Seq<char>>) -> bool {
    forall|i: int, j: int| 0 <= i < j < keys.len() ==> str_lt(#[trigger] keys[i], #[trigger] keys[j])
}

/// The map that pairs each key with the value at the same position.
pub open spec fn pairs_map<T>(keys: Seq<Seq<char>>, values: Seq<T>) -> Map<Seq<char>, T> {
    Map::new(|k: Seq<char>| keys.contains(k), |k: Seq<char>| values[keys.index_of(k)])
}

/// In a sorted list every key stands at one position only, and the map pairs
/// it with the value there.
pub proof fn lemma_pairs_map<T>(keys: Seq<Seq<char>>, values: Seq<T>, i: int)
    requires
        sorted_keys(keys),
        keys.len() == values.len(),
        0 <= i < keys.len(),
    ensures
        keys.contains(keys[i]),
        keys.index_of(keys[i]) == i,
        pairs_map(keys, values).contains_key(keys[i]),
        pairs_map(keys, values)[keys[i]] == values[i],
{
    let j = keys.index_of(keys[i]);
    assert(keys[i] == keys[i]);
    lemma_str_lt_irreflexive(keys[i]);
    if j < i {
        assert(str_lt(keys[j], keys[i]));
    }
    if i < j {
        assert(str_lt(keys[i], keys[j]));
    }
}

/// An ordered map from keys to payloads of type `T`.
pub struct InMemoryDb<T> {
    keys: Vec<String>,
    values: Vec<T>,
}

impl<T> InMemoryDb<T> {
    /// The keys of the map, in ascending order.
    pub closed spec fn key_seq(&self) -> Seq<Seq<char>> {
        self.keys@.map_values(|k: String| k@)
    }

    /// The payloads of the map, in the order of their keys.
    pub closed spec fn value_seq(&self) -> Seq<T> {
        self.values@
    }

    /// Every key has its payload, and the keys ascend.
    pub closed spec fn wf(&self) -> bool {
        &&& self.keys@.len() == self.values@.len()
        &&& sorted_keys(self.key_seq())
    }

    /// The map itself.
    pub open spec fn entries(&self) -> Map<Seq<char>, T> {
        pairs_map(self.key_seq(), self.value_seq())
    }

    /// The keys and the payloads are as many, the keys ascend, and the keys are
    /// the domain of the map.
    pub proof fn lemma_wf(&self)
        requires
            self.wf(),
        ensures
            self.key_seq().len() == self.value_seq().len(),
            sorted_keys(self.key_seq()),
            forall|k: Seq<char>| self.entries().contains_key(k) <==> self.key_seq().contains(k),
            forall|i: int|
                0 <= i < self.key_seq().len() ==> self.entries().contains_key(
                    #[trigger] self.key_seq()[i],
                ) && self.entries()[self.key_seq()[i]] == self.value_seq()[i],
    {
        assert forall|i: int| 0 <= i < self.key_seq().len() implies self.entries().contains_key(
            #[trigger] self.key_seq()[i],
        ) && self.entries()[self.key_seq()[i]] == self.value_seq()[i] by {
            lemma_pairs_map(self.key_seq(), self.value_seq(), i);
        }
    }

    /// An empty map.
    pub fn new() -> (r: InMemoryDb<T>)
        ensures
            r.wf(),
            r.entries() == Map::<Seq<char>, T>::empty(),
            r.key_seq() == Seq::<Seq<char>>::empty(),
    {
        let r = InMemoryDb { keys: Vec::new(), values: Vec::new() };
        assert(r.key_seq() =~= Seq::<Seq<char>>::empty());
        assert(r.entries() =~= Map::<Seq<char>, T>::empty());
        r
    }

    /// Looks for `key`: whether it is there, and the position where it stands
    /// or would stand.
    fn find(&self, key: &str) -> (r: (bool, usize))
        requires
            self.wf(),
        ensures
            r.1 <= self.key_seq().len(),
            r.0 ==> r.1 < self.key_seq().len() && self.key_seq()[r.1 as int] == key@,
            !r.0 ==> !self.key_seq().contains(key@),
            forall|i: int| 0 <= i < r.1 ==> str_lt(#[trigger] self.key_seq()[i], key@),
            forall|i: int|
                (if r.0 {
                    r.1 + 1
                } else {
                    r.1 as int
                }) <= i < self.key_seq().len() ==> str_lt(key@, #[trigger] self.key_seq()[i]),
    {
        let ghost ks = self.key_seq();
        let mut lo: usize = 0;
        let mut hi: usize = self.keys.len();
        while lo < hi
            invariant
                self.wf(),
                ks == self.key_seq(),
                lo <= hi <= ks.len(),
                ks.len() == self.keys@.len(),
                forall|i: int| 0 <= i < lo ==> str_lt(#[trigger] ks[i], key@),
                forall|i: int| hi <= i < ks.len() ==> str_lt(key@, #[trigger] ks[i]),
            decreases hi - lo,
        {
            let mid = lo + (hi - lo) / 2;
            assert(ks[mid as int] == self.keys@[mid as int]@);
            match compare_keys(self.keys[mid].as_str(), key) {
                KeyOrder::Less => {
                    assert forall|i: int| 0 <= i < mid + 1 implies str_lt(#[trigger] ks[i], key@) by {
                        if i < mid {
                            assert(str_lt(ks[i], ks[mid as int]));
                            lemma_str_lt_transitive(ks[i], ks[mid as int], key@);
                        }
                    }
                    lo = mid + 1;
                },
                KeyOrder::Greater => {
                    assert forall|i: int| mid <= i < ks.len() implies str_lt(
                        key@,
                        #[trigger] ks[i],
                    ) by {
                        if mid < i {
                            assert(str_lt(ks[mid as int], ks[i]));
                            lemma_str_lt_transitive(key@, ks[mid as int], ks[i]);
                        }
                    }
                    hi = mid;
                },
                KeyOrder::Equal => {
                    assert forall|i: int| mid + 1 <= i < ks.len() implies str_lt(
                        key@,
                        #[trigger] ks[i],
                    ) by {
                        assert(str_lt(ks[mid as int], ks[i]));
                    }
                    assert forall|i: int| 0 <= i < mid implies str_lt(#[trigger] ks[i], key@) by {
                        assert(str_lt(ks[i], ks[mid as int]));
                    }
                    return (true, mid);
                },
            }
        }
        proof {
            if ks.contains(key@) {
                let i = ks.index_of(key@);
                lemma_str_lt_irreflexive(key@);
                assert(ks[i] == key@);
            }
        }
        (false, lo)
    }

    /// The payload of `key`, if the map has one.
    pub fn get(&self, key: &str) -> (r: Option<&T>)
        requires
            self.wf(),
        ensures
            r is Some <==> self.entries().contains_key(key@),
            r matches Some(v) ==> *v == self.entries()[key@],
    {
        let (found, i) = self.find(key);
        if found {
            proof {
                lemma_pairs_map(self.key_seq(), self.value_seq(), i as int);
            }
            Some(&self.values[i])
        } else {
            None
        }
    }

    /// Pairs `key` with `value`, in place of any payload it had.
    pub fn set(&mut self, key: &str, value: T)
        requires
            old(self).wf(),
        ensures
            final(self).wf(),
            final(self).entries() == old(self).entries().insert(key@, value),
    {
        let ghost ks = self.key_seq();
        let ghost vs = self.value_seq();
        let (found, i) = self.find(key);
        if found {
            self.values.set(i, value);
            proof {
                let vs2 = self.value_seq();
                assert forall|k: Seq<char>| #[trigger] ks.contains(k) implies pairs_map(ks, vs2)[k]
                    == pairs_map(ks, vs).insert(key@, value)[k] by {
                    let j = ks.index_of(k);
                    lemma_pairs_map(ks, vs, j);
                    lemma_pairs_map(ks, vs, i as int);
                }
                assert(ks.contains(key@)) by {
                    assert(ks[i as int] == key@);
                }
                assert(pairs_map(ks, vs2) =~= pairs_map(ks, vs).insert(key@, value));
            }
        } else {
            self.keys.insert(i, key.to_owned());
            self.values.insert(i, value);
            proof {
                let ks2 = self.key_seq();
                let vs2 = self.value_seq();
                assert(ks2 =~= ks.insert(i as int, key@));
                assert(vs2 =~= vs.insert(i as int, value));
                lemma_insert_sorted(ks, vs, i as int, key@, value);
            }
        }
    }

    /// Drops `key` and its payload from the map.
    pub fn delete(&mut self, key: &str)
        requires
            old(self).wf(),
        ensures
            final(self).wf(),
            final(self).entries() == old(self).entries().remove(key@),
    {
        let ghost ks = self.key_seq();
        let ghost vs = self.value_seq();
        let (found, i) = self.find(key);
        if found {
            self.keys.remove(i);
            self.values.remove(i);
            proof {
                let ks2 = self.key_seq();
                let vs2 = self.value_seq();
                assert(ks2 =~= ks.remove(i as int));
                assert(vs2 =~= vs.remove(i as int));
                lemma_remove_sorted(ks, vs, i as int);
            }
        } else {
            assert(self.entries() =~= old(self).entries().remove(key@));
        }
    }

    /// The number of keys.
    pub fn len(&self) -> (r: usize)
        requires
            self.wf(),
        ensures
            r == self.key_seq().len(),
    {
        self.keys.len()
    }

    /// The keys of the map, in ascending order.
    pub fn keys(&self) -> (r: Vec<String>)
        requires
            self.wf(),
        ensures
            r@.map_values(|k: String| k@) == self.key_seq(),
            sorted_keys(self.key_seq()),
            forall|k: Seq<char>| self.entries().contains_key(k) <==> self.key_seq().contains(k),
    {
        proof {
            self.lemma_wf();
        }
        let mut out: Vec<String> = Vec::new();
        let mut i: usize = 0;
        while i < self.keys.len()
            invariant
                i <= self.keys@.len(),
                out@.len() == i,
                forall|j: int| 0 <= j < i ==> out@[j]@ == self.keys@[j]@,
            decreases self.keys@.len() - i,
        {
            out.push(self.keys[i].clone());
            i += 1;
        }
        assert(out@.map_values(|k: String| k@) =~= self.key_seq());
        out
    }
}

/// A key put into a sorted list at its place leaves the list sorted, and its
/// map is the old one with the key set.
proof fn lemma_insert_sorted<T>(keys: Seq<Seq<char>>, values: Seq<T>, p: int, key: Seq<char>, value: T)
    requires
        sorted_keys(keys),
        keys.len() == values.len(),
        0 <= p <= keys.len(),
        forall|i: int| 0 <= i < p ==> str_lt(#[trigger] keys[i], key),
        forall|i: int| p <= i < keys.len() ==> str_lt(key, #[trigger] keys[i]),
    ensures
        sorted_keys(keys.insert(p, key)),
        pairs_map(keys.insert(p, key), values.insert(p, value)) == pairs_map(keys, values).insert(
            key,
            value,
        ),
{
    let ks2 = keys.insert(p, key);
    let vs2 = values.insert(p, value);
    assert forall|i: int, j: int| 0 <= i < j < ks2.len() implies str_lt(
        #[trigger] ks2[i],
        #[trigger] ks2[j],
    ) by {
        let a = if i < p { i } else { i - 1 };
        let b = if j < p { j } else { j - 1 };
        if i == p {
            assert(ks2[j] == keys[b]);
        } else if j == p {
            assert(ks2[i] == keys[a]);
        } else {
            assert(ks2[i] == keys[a]);
            assert(ks2[j] == keys[b]);
            assert(str_lt(keys[a], keys[b]));
        }
    }
    let m1 = pairs_map(ks2, vs2);
    let m2 = pairs_map(keys, values).insert(key, value);
    assert forall|k: Seq<char>| m1.contains_key(k) <==> m2.contains_key(k) by {
        if ks2.contains(k) {
            let i = ks2.index_of(k);
            if i != p {
                let a = if i < p { i } else { i - 1 };
                assert(keys[a] == k);
            }
        }
        if keys.contains(k) {
            let a = keys.index_of(k);
            let i = if a < p { a } else { a + 1 };
            assert(ks2[i] == k);
        }
        if k == key {
            assert(ks2[p] == k);
        }
    }
    assert forall|k: Seq<char>| m1.contains_key(k) implies m1[k] == m2[k] by {
        let i = ks2.index_of(k);
        lemma_pairs_map(ks2, vs2, i);
        if i != p {
            let a = if i < p { i } else { i - 1 };
            assert(keys[a] == k);
            lemma_pairs_map(keys, values, a);
            lemma_str_lt_irreflexive(key);
        }
    }
    assert(m1 =~= m2);
}

/// A key taken out of a sorted list leaves the list sorted, and its map is
/// the old one without the key.
proof fn lemma_remove_sorted<T>(keys: Seq<Seq<char>>, values: Seq<T>, p: int)
    requires
        sorted_keys(keys),
        keys.len() == values.len(),
        0 <= p < keys.len(),
    ensures
        sorted_keys(keys.remove(p)),
        pairs_map(keys.remove(p), values.remove(p)) == pairs_map(keys, values).remove(keys[p]),
{
    let ks2 = keys.remove(p);
    let vs2 = values.remove(p);
    assert forall|i: int, j: int| 0 <= i < j < ks2.len() implies str_lt(
        #[trigger] ks2[i],
        #[trigger] ks2[j],
    ) by {
        let a = if i < p { i } else { i + 1 };
        let b = if j < p { j } else { j + 1 };
        assert(ks2[i] == keys[a]);
        assert(ks2[j] == keys[b]);
        assert(str_lt(keys[a], keys[b]));
    }
    let m1 = pairs_map(ks2, vs2);
    let m2 = pairs_map(keys, values).remove(keys[p]);
    assert forall|k: Seq<char>| m1.contains_key(k) <==> m2.contains_key(k) by {
        if ks2.contains(k) {
            let i = ks2.index_of(k);
            let a = if i < p { i } else { i + 1 };
            assert(keys[a] == k);
            lemma_pairs_map(keys, values, a);
            lemma_pairs_map(keys, values, p);
        }
        if keys.contains(k) && k != keys[p] {
            let a = keys.index_of(k);
            let i = if a < p { a } else { a - 1 };
            assert(ks2[i] == k);
        }
    }
    assert forall|k: Seq<char>| m1.contains_key(k) implies m1[k] == m2[k] by {
        let i = ks2.index_of(k);
        lemma_pairs_map(ks2, vs2, i);
        let a = if i < p { i } else { i + 1 };
        assert(keys[a] == k);
        lemma_pairs_map(keys, values, a);
    }
    assert(m1 =~= m2);
}

} // verus!
