//! Ordered map from `u64` keys to values.
//!
//! The contents are a strictly increasing sequence of keys, each with one
//! value; [`OrdMap::view`] is the map that this sequence stands for. Besides
//! lookups it finds the greatest key up to a bound and reaches entries by their
//! position; vstd states neither of the maps of std.

use vstd::prelude::*;

verus! {

/// The keys of `s` are strictly increasing.
pub open spec fn keys_sorted<V>(s: Seq<(u64, V)>) -> bool {
    forall|i: int, j: int| 0 <= i < j < s.len() ==> (#[trigger] s[i]).0 < (#[trigger] s[j]).0
}

/// Some entry of `s` has the key `k`.
pub open spec fn has_key<V>(s: Seq<(u64, V)>, k: u64) -> bool {
    exists|i: int| 0 <= i < s.len() && (#[trigger] s[i]).0 == k
}

/// A position of `s` that holds the key `k`, if there is one.
pub open spec fn key_pos<V>(s: Seq<(u64, V)>, k: u64) -> int {
    choose|i: int| 0 <= i < s.len() && (#[trigger] s[i]).0 == k
}

/// The map that a sequence of entries stands for.
#[verifier::opaque]
pub open spec fn map_of<V>(s: Seq<(u64, V)>) -> Map<u64, V> {
    Map::new(|k: u64| has_key(s, k), |k: u64| s[key_pos(s, k)].1)
}

/// Each entry of a sorted sequence is found in its map under its own key.
pub proof fn lemma_map_of_entry<V>(s: Seq<(u64, V)>, i: int)
    requires
        keys_sorted(s),
        0 <= i < s.len(),
    ensures
        map_of(s).contains_key(s[i].0),
        map_of(s)[s[i].0] == s[i].1,
{
    reveal(map_of);
    let k = s[i].0;
    assert(has_key(s, k));
    let p = key_pos(s, k);
    assert(p == i) by {
        if p < i {
            assert(s[p].0 < s[i].0);
        } else if i < p {
            assert(s[i].0 < s[p].0);
        }
    }
}

/// A key of the map is the key of the entry at its position.
pub proof fn lemma_key_pos<V>(s: Seq<(u64, V)>, k: u64)
    ensures
        map_of(s).contains_key(k) <==> has_key(s, k),
        map_of(s).contains_key(k) ==> 0 <= key_pos(s, k) < s.len() && s[key_pos(s, k)].0 == k
            && map_of(s)[k] == s[key_pos(s, k)].1,
{
    reveal(map_of);
}

/// Replacing the entry at `i`, which holds `k`, is a map update.
proof fn lemma_map_of_update<V>(s: Seq<(u64, V)>, i: int, k: u64, v: V)
    requires
        keys_sorted(s),
        0 <= i < s.len(),
        s[i].0 == k,
    ensures
        keys_sorted(s.update(i, (k, v))),
        map_of(s.update(i, (k, v))) =~= map_of(s).insert(k, v),
{
    reveal(map_of);
    let t = s.update(i, (k, v));
    assert(keys_sorted(t));
    assert forall|q: u64| #[trigger] map_of(t).contains_key(q) <==> map_of(s).insert(
        k,
        v,
    ).contains_key(q) by {
        if has_key(t, q) {
            let p = key_pos(t, q);
            assert(s[p].0 == q);
        }
        if has_key(s, q) {
            let p = key_pos(s, q);
            assert(t[p].0 == q);
        }
        assert(t[i].0 == k);
    }
    assert forall|q: u64| map_of(t).contains_key(q) implies #[trigger] map_of(t)[q] == map_of(
        s,
    ).insert(k, v)[q] by {
        let p = key_pos(t, q);
        lemma_map_of_entry(t, p);
        if q != k {
            assert(s[p] == t[p]);
            lemma_map_of_entry(s, p);
        } else {
            lemma_map_of_entry(t, i);
        }
    }
}

/// Inserting a new key in its place is a map update.
proof fn lemma_map_of_insert<V>(s: Seq<(u64, V)>, i: int, k: u64, v: V)
    requires
        keys_sorted(s),
        0 <= i <= s.len(),
        forall|j: int| 0 <= j < i ==> (#[trigger] s[j]).0 < k,
        forall|j: int| i <= j < s.len() ==> k < (#[trigger] s[j]).0,
    ensures
        keys_sorted(s.insert(i, (k, v))),
        map_of(s.insert(i, (k, v))) =~= map_of(s).insert(k, v),
{
    reveal(map_of);
    let t = s.insert(i, (k, v));
    assert(keys_sorted(t));
    assert forall|q: u64| #[trigger] map_of(t).contains_key(q) <==> map_of(s).insert(
        k,
        v,
    ).contains_key(q) by {
        if has_key(t, q) && q != k {
            let p = key_pos(t, q);
            if p < i {
                assert(s[p].0 == q);
            } else {
                assert(s[p - 1].0 == q);
            }
        }
        if has_key(s, q) {
            let p = key_pos(s, q);
            if p < i {
                assert(t[p].0 == q);
            } else {
                assert(t[p + 1].0 == q);
            }
        }
        assert(t[i].0 == k);
    }
    assert forall|q: u64| map_of(t).contains_key(q) implies #[trigger] map_of(t)[q] == map_of(
        s,
    ).insert(k, v)[q] by {
        let p = key_pos(t, q);
        lemma_map_of_entry(t, p);
        if p < i {
            assert(s[p] == t[p]);
            lemma_map_of_entry(s, p);
        } else if p > i {
            assert(s[p - 1] == t[p]);
            lemma_map_of_entry(s, p - 1);
        }
    }
}

/// Removing the entry at `i` removes its key from the map.
proof fn lemma_map_of_remove<V>(s: Seq<(u64, V)>, i: int)
    requires
        keys_sorted(s),
        0 <= i < s.len(),
    ensures
        keys_sorted(s.remove(i)),
        map_of(s.remove(i)) =~= map_of(s).remove(s[i].0),
{
    reveal(map_of);
    let t = s.remove(i);
    let k = s[i].0;
    assert(keys_sorted(t));
    assert forall|q: u64| #[trigger] map_of(t).contains_key(q) <==> map_of(s).remove(
        k,
    ).contains_key(q) by {
        if has_key(t, q) {
            let p = key_pos(t, q);
            if p < i {
                assert(s[p].0 == q);
                assert(s[p].0 < s[i].0);
            } else {
                assert(s[p + 1].0 == q);
                assert(s[i].0 < s[p + 1].0);
            }
        }
        if has_key(s, q) && q != k {
            let p = key_pos(s, q);
            if p < i {
                assert(t[p].0 == q);
            } else {
                assert(t[p - 1].0 == q);
            }
        }
    }
    assert forall|q: u64| map_of(t).contains_key(q) implies #[trigger] map_of(t)[q] == map_of(
        s,
    ).remove(k)[q] by {
        let p = key_pos(t, q);
        lemma_map_of_entry(t, p);
        if p < i {
            assert(s[p] == t[p]);
            lemma_map_of_entry(s, p);
        } else {
            assert(s[p + 1] == t[p]);
            lemma_map_of_entry(s, p + 1);
        }
    }
}

/// The map has as many keys as there are entries.
pub proof fn lemma_map_len<V>(s: Seq<(u64, V)>)
    requires
        keys_sorted(s),
    ensures
        map_of(s).dom().finite(),
        map_of(s).dom().len() == s.len(),
    decreases s.len(),
{
    reveal(map_of);
    if s.len() == 0 {
        assert(map_of(s).dom() =~= Set::<u64>::empty());
    } else {
        let t = s.drop_last();
        let (k, v) = s.last();
        lemma_map_len(t);
        lemma_map_of_insert(t, t.len() as int, k, v);
        assert(t.insert(t.len() as int, (k, v)) =~= s);
        assert(!map_of(t).contains_key(k)) by {
            if has_key(t, k) {
                let p = key_pos(t, k);
                assert(s[p].0 < s[s.len() - 1].0);
            }
        }
        assert(map_of(s).dom() =~= map_of(t).dom().insert(k));
    }
}

/// An ordered map.
#[derive(Debug)]
pub struct OrdMap<V> {
    /// The keys and their values, in key order.
    pub entries: Vec<(u64, V)>,
}

impl<V> OrdMap<V> {
    /// The entries, in key order.
    pub open spec fn entries(&self) -> Seq<(u64, V)> {
        self.entries@
    }

    /// The keys are strictly increasing.
    pub open spec fn wf(&self) -> bool {
        keys_sorted(self.entries())
    }

    /// The map that the entries stand for.
    pub open spec fn view(&self) -> Map<u64, V> {
        map_of(self.entries())
    }

    /// An empty map.
    pub fn new() -> (r: Self)
        ensures
            r.wf(),
            r.entries() == Seq::<(u64, V)>::empty(),
            r@ == Map::<u64, V>::empty(),
    {
        proof {
            reveal(map_of);
        }
        let r = OrdMap { entries: Vec::new() };
        assert(r@ =~= Map::<u64, V>::empty());
        r
    }

    /// How many keys the map holds.
    pub fn len(&self) -> (n: usize)
        ensures
            n == self.entries().len(),
    {
        self.entries.len()
    }

    /// Whether the keys are strictly increasing.
    pub fn in_order(&self) -> (r: bool)
        ensures
            r == self.wf(),
    {
        let mut i: usize = 1;
        while i < self.entries.len()
            invariant
                1 <= i,
                i <= self.entries@.len() || self.entries@.len() == 0,
                forall|a: int, b: int|
                    0 <= a < b < i && b < self.entries@.len() ==> (#[trigger] self.entries@[a]).0
                        < (#[trigger] self.entries@[b]).0,
            decreases self.entries@.len() - i,
        {
            if self.entries[i - 1].0 >= self.entries[i].0 {
                assert(!(self.entries()[i - 1].0 < self.entries()[i as int].0));
                return false;
            }
            assert forall|a: int| 0 <= a < i implies (#[trigger] self.entries@[a]).0
                < self.entries@[i as int].0 by {
                if a < i - 1 {
                    assert(self.entries@[a].0 < self.entries@[i - 1].0);
                }
            }
            i = i + 1;
        }
        true
    }

    /// The position of the first key that is not below `key`.
    fn lower_bound(&self, key: u64) -> (p: usize)
        requires
            self.wf(),
        ensures
            p <= self.entries().len(),
            forall|j: int| 0 <= j < p ==> (#[trigger] self.entries()[j]).0 < key,
            forall|j: int| p <= j < self.entries().len() ==> key <= (#[trigger] self.entries()[j]).0,
    {
        let mut lo: usize = 0;
        let mut hi: usize = self.entries.len();
        while lo < hi
            invariant
                self.wf(),
                lo <= hi <= self.entries@.len(),
                forall|j: int| 0 <= j < lo ==> (#[trigger] self.entries@[j]).0 < key,
                forall|j: int| hi <= j < self.entries@.len() ==> key <= (#[trigger] self.entries@[j]).0,
            decreases hi - lo,
        {
            let mid: usize = lo + (hi - lo) / 2;
            if self.entries[mid].0 < key {
                assert forall|j: int| 0 <= j < mid + 1 implies (#[trigger] self.entries@[j]).0
                    < key by {
                    if j < mid {
                        assert(self.entries()[j].0 < self.entries()[mid as int].0);
                    }
                }
                lo = mid + 1;
            } else {
                assert forall|j: int| mid <= j < self.entries@.len() implies key <= (
                #[trigger] self.entries@[j]).0 by {
                    if mid < j {
                        assert(self.entries()[mid as int].0 < self.entries()[j].0);
                    }
                }
                hi = mid;
            }
        }
        lo
    }

    /// The value stored under `key`.
    pub fn get(&self, key: u64) -> (r: Option<&V>)
        requires
            self.wf(),
        ensures
            r is Some <==> self@.contains_key(key),
            r matches Some(v) ==> *v == self@[key],
    {
        proof {
            reveal(map_of);
        }
        let p = self.lower_bound(key);
        if p < self.entries.len() && self.entries[p].0 == key {
            proof {
                lemma_map_of_entry(self.entries(), p as int);
            }
            Some(&self.entries[p].1)
        } else {
            assert(!has_key(self.entries(), key));
            None
        }
    }

    /// Stores `value` under `key`, in place of the value that was there.
    pub fn insert(&mut self, key: u64, value: V)
        requires
            old(self).wf(),
        ensures
            final(self).wf(),
            final(self)@ == old(self)@.insert(key, value),
            !old(self)@.contains_key(key) ==> exists|i: int|
                0 <= i <= old(self).entries().len() && final(self).entries()
                    == #[trigger] old(self).entries().insert(i, (key, value)),
    {
        let p = self.lower_bound(key);
        if p < self.entries.len() && self.entries[p].0 == key {
            proof {
                lemma_map_of_entry(self.entries@, p as int);
                lemma_map_of_update(self.entries@, p as int, key, value);
            }
            self.entries.set(p, (key, value));
        } else {
            proof {
                lemma_map_of_insert(self.entries@, p as int, key, value);
            }
            self.entries.insert(p, (key, value));
        }
    }

    /// Removes `key`; whether it was there.
    pub fn remove(&mut self, key: u64) -> (existed: bool)
        requires
            old(self).wf(),
        ensures
            final(self).wf(),
            existed == old(self)@.contains_key(key),
            final(self)@ == old(self)@.remove(key),
    {
        proof {
            reveal(map_of);
        }
        let p = self.lower_bound(key);
        if p < self.entries.len() && self.entries[p].0 == key {
            proof {
                lemma_map_of_entry(self.entries@, p as int);
                lemma_map_of_remove(self.entries@, p as int);
            }
            self.entries.remove(p);
            true
        } else {
            assert(!has_key(self.entries(), key));
            assert(self@.remove(key) =~= self@);
            false
        }
    }

    /// Takes the value stored under `key` out of the map.
    pub fn take(&mut self, key: u64) -> (r: Option<V>)
        requires
            old(self).wf(),
        ensures
            final(self).wf(),
            final(self)@ == old(self)@.remove(key),
            match r {
                Some(v) => {
                    &&& old(self)@.contains_key(key)
                    &&& v == old(self)@[key]
                    &&& exists|i: int|
                        0 <= i < old(self).entries().len() && old(self).entries()[i] == (key, v)
                            && final(self).entries() == #[trigger] old(self).entries().remove(i)
                },
                None => !old(self)@.contains_key(key) && *final(self) == *old(self),
            },
    {
        proof {
            reveal(map_of);
        }
        let p = self.lower_bound(key);
        if p < self.entries.len() && self.entries[p].0 == key {
            proof {
                lemma_map_of_entry(self.entries@, p as int);
                lemma_map_of_remove(self.entries@, p as int);
            }
            let e = self.entries.remove(p);
            Some(e.1)
        } else {
            assert(!has_key(self.entries(), key));
            assert(self@.remove(key) =~= self@);
            None
        }
    }

    /// The entry at position `i`, in key order.
    pub fn entry(&self, i: usize) -> (r: &(u64, V))
        requires
            i < self.entries().len(),
        ensures
            *r == self.entries()[i as int],
    {
        &self.entries[i]
    }
}

impl<V: Copy> OrdMap<V> {
    /// The value stored under `key`.
    pub fn lookup(&self, key: u64) -> (r: Option<V>)
        requires
            self.wf(),
        ensures
            r == (if self@.contains_key(key) {
                Some(self@[key])
            } else {
                None
            }),
    {
        match self.get(key) {
            Some(v) => Some(*v),
            None => None,
        }
    }

    /// The entry with the greatest key that is not above `key`.
    pub fn lookup_floor(&self, key: u64) -> (r: Option<(u64, V)>)
        requires
            self.wf(),
        ensures
            match r {
                Some((k, v)) => {
                    &&& k <= key
                    &&& self@.contains_key(k)
                    &&& self@[k] == v
                    &&& forall|q: u64| #[trigger] self@.contains_key(q) && q <= key ==> q <= k
                },
                None => forall|q: u64| #[trigger] self@.contains_key(q) ==> key < q,
            },
    {
        proof {
            reveal(map_of);
        }
        let p = self.lower_bound(key);
        if p < self.entries.len() && self.entries[p].0 == key {
            proof {
                lemma_map_of_entry(self.entries(), p as int);
            }
            Some(self.entries[p])
        } else if p > 0 {
            proof {
                lemma_map_of_entry(self.entries(), p - 1);
                assert forall|q: u64| #[trigger] self@.contains_key(q) && q <= key implies q
                    <= self.entries()[p - 1].0 by {
                    let j = key_pos(self.entries(), q);
                    if p <= j {
                        assert(key <= self.entries()[j].0);
                    } else if j < p - 1 {
                        assert(self.entries()[j].0 < self.entries()[p - 1].0);
                    }
                }
            }
            Some(self.entries[p - 1])
        } else {
            proof {
                assert forall|q: u64| #[trigger] self@.contains_key(q) implies key < q by {
                    let j = key_pos(self.entries(), q);
                    assert(key <= self.entries()[j].0);
                }
            }
            None
        }
    }

    /// Every entry, in key order.
    pub fn iter_all(&self) -> (r: Vec<(u64, V)>)
        ensures
            r@ == self.entries(),
    {
        let mut out: Vec<(u64, V)> = Vec::new();
        let mut i: usize = 0;
        while i < self.entries.len()
            invariant
                i <= self.entries@.len(),
                out@ == self.entries@.subrange(0, i as int),
            decreases self.entries@.len() - i,
        {
            out.push(self.entries[i]);
            i = i + 1;
            assert(self.entries@.subrange(0, i as int) =~= self.entries@.subrange(
                0,
                i - 1,
            ).push(self.entries@[i - 1]));
        }
        assert(self.entries@.subrange(0, i as int) =~= self.entries@);
        out
    }
}

} // verus!
