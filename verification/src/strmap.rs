//! An insertion-ordered map from strings to values, indexed by a hash of the
//! key's UTF-8 bytes so that lookups do not scan every key.

use vstd::prelude::*;
use crate::scan::{fnv1a, fnv1a_spec};

verus! {

/// The bucket that a key with characters `k` belongs to among `n` buckets.
pub open spec fn bucket_of(k: Seq<char>, n: nat) -> int {
    (fnv1a_spec(vstd::utf8::encode_utf8(k)) as int) % (n as int)
}

/// The characters of every key in `keys`, in order.
pub open spec fn key_chars(keys: Seq<String>) -> Seq<Seq<char>> {
    Seq::new(keys.len(), |i: int| keys[i]@)
}

/// A map from strings to values that remembers insertion order.
///
/// Its contents are the two parallel sequences [`StrMap::keys_view`] and
/// [`StrMap::vals_view`]; keys never repeat.
pub struct StrMap<V> {
    keys: Vec<String>,
    vals: Vec<V>,
    buckets: Vec<Vec<usize>>,
}

impl<V> StrMap<V> {
    /// The keys, in insertion order.
    pub closed spec fn keys_view(&self) -> Seq<Seq<char>> {
        key_chars(self.keys@)
    }

    /// The values, parallel to [`StrMap::keys_view`].
    pub closed spec fn vals_view(&self) -> Seq<V> {
        self.vals@
    }

    /// The contents as a mathematical map.
    pub open spec fn map_view(&self) -> Map<Seq<char>, V> {
        Map::new(
            |k: Seq<char>| self.keys_view().contains(k),
            |k: Seq<char>| self.vals_view()[self.keys_view().index_of(k)],
        )
    }

    /// The internal consistency of the map: parallel sequences, distinct keys,
    /// and an index whose buckets list exactly the positions of their keys.
    pub closed spec fn wf(&self) -> bool {
        let n = self.buckets@.len();
        let ks = self.keys_view();
        &&& self.keys@.len() == self.vals@.len()
        &&& n > 0
        &&& forall|i: int, j: int| 0 <= i < ks.len() && 0 <= j < ks.len() && i != j ==> ks[i] != ks[j]
        &&& forall|p: usize| p < ks.len() ==> #[trigger] self.buckets@[bucket_of(ks[p as int], n)]@.contains(p)
        &&& forall|b: int, j: int| 0 <= b < n && 0 <= j < self.buckets@[b]@.len() ==> {
            &&& (#[trigger] self.buckets@[b]@[j]) < ks.len()
            &&& bucket_of(ks[self.buckets@[b]@[j] as int], n) == b
        }
    }

    /// An empty map with `bucket_count` index buckets (at least one).
    pub fn with_buckets(bucket_count: usize) -> (m: StrMap<V>)
        ensures
            m.wf(),
            m.keys_view() == Seq::<Seq<char>>::empty(),
            m.vals_view() == Seq::<V>::empty(),
    {
        let n = if bucket_count == 0 { 1 } else { bucket_count };
        let mut buckets: Vec<Vec<usize>> = Vec::new();
        let mut i: usize = 0;
        while i < n
            invariant
                i <= n,
                buckets@.len() == i,
                forall|b: int| 0 <= b < i ==> (#[trigger] buckets@[b])@.len() == 0,
            decreases n - i,
        {
            buckets.push(Vec::new());
            i = i + 1;
        }
        let m = StrMap { keys: Vec::new(), vals: Vec::new(), buckets };
        assert(m.keys_view() =~= Seq::<Seq<char>>::empty());
        m
    }

    /// The number of entries.
    pub fn len(&self) -> (n: usize)
        requires
            self.wf(),
        ensures
            n == self.keys_view().len(),
            n == self.vals_view().len(),
    {
        self.keys.len()
    }

    fn bucket_index(&self, key: &String) -> (b: usize)
        requires
            self.wf(),
        ensures
            b == bucket_of(key@, self.buckets@.len()),
            b < self.buckets@.len(),
    {
        let h = fnv1a(key.as_str().as_bytes());
        (h as usize) % self.buckets.len()
    }

    /// The position of `key`, if present.
    pub fn index_of(&self, key: &String) -> (r: Option<usize>)
        requires
            self.wf(),
        ensures
            match r {
                Some(i) => i < self.keys_view().len() && self.keys_view()[i as int] == key@,
                None => !self.keys_view().contains(key@),
            },
    {
        let b = self.bucket_index(key);
        let klen = self.keys.len();
        let bucket = &self.buckets[b];
        let m = bucket.len();
        let mut j: usize = 0;
        while j < m
            invariant
                self.wf(),
                b < self.buckets@.len(),
                b == bucket_of(key@, self.buckets@.len()),
                *bucket == self.buckets@[b as int],
                klen == self.keys@.len(),
                m == bucket@.len(),
                j <= m,
                forall|t: int| 0 <= t < j ==> self.keys_view()[#[trigger] bucket@[t] as int] != key@,
            decreases m - j,
        {
            let p = bucket[j];
            assert(self.buckets@[b as int]@[j as int] == p);
            if self.keys[p] == *key {
                return Some(p);
            }
            j = j + 1;
        }
        proof {
            if self.keys_view().contains(key@) {
                let pi = choose|pi: int| 0 <= pi < self.keys_view().len() && self.keys_view()[pi] == key@;
                assert(self.keys_view().len() == self.keys@.len());
                let p = pi as usize;
                assert(self.buckets@[bucket_of(self.keys_view()[p as int], self.buckets@.len())]@.contains(p));
                let t = choose|t: int| 0 <= t < bucket@.len() && bucket@[t] == p;
                assert(self.keys_view()[bucket@[t] as int] != key@);
            }
        }
        None
    }

    /// The value at position `i`.
    pub fn value_at(&self, i: usize) -> (v: &V)
        requires
            self.wf(),
            i < self.keys_view().len(),
        ensures
            *v == self.vals_view()[i as int],
    {
        &self.vals[i]
    }

    /// The key at position `i`.
    pub fn key_at(&self, i: usize) -> (k: &String)
        requires
            self.wf(),
            i < self.keys_view().len(),
        ensures
            k@ == self.keys_view()[i as int],
    {
        &self.keys[i]
    }

    /// Replaces the value at position `i`.
    pub fn set_value(&mut self, i: usize, v: V)
        requires
            old(self).wf(),
            i < old(self).keys_view().len(),
        ensures
            final(self).wf(),
            final(self).keys_view() == old(self).keys_view(),
            final(self).vals_view() == old(self).vals_view().update(i as int, v),
    {
        let ghost ks = self.keys_view();
        self.vals.set(i, v);
        assert(self.keys_view() =~= ks);
        assert(self.wf());
    }

    /// Appends a key that is not yet present, with its value.
    pub fn push_new(&mut self, key: String, v: V)
        requires
            old(self).wf(),
            !old(self).keys_view().contains(key@),
        ensures
            final(self).wf(),
            final(self).keys_view() == old(self).keys_view().push(key@),
            final(self).vals_view() == old(self).vals_view().push(v),
    {
        let b = self.bucket_index(&key);
        let p = self.keys.len();
        let ghost old_buckets = self.buckets@;
        let ghost n = self.buckets@.len();
        let ghost ks_old = self.keys_view();
        self.keys.push(key);
        self.vals.push(v);
        self.buckets[b].push(p);
        let ghost ks = self.keys_view();
        assert(ks =~= ks_old.push(key@));
        assert forall|q: usize| q < ks.len() implies #[trigger] self.buckets@[bucket_of(ks[q as int], n)]@.contains(q) by {
            if q < p {
                assert(old_buckets[bucket_of(ks_old[q as int], n)]@.contains(q));
                let t = choose|t: int| 0 <= t < old_buckets[bucket_of(ks_old[q as int], n)]@.len()
                    && old_buckets[bucket_of(ks_old[q as int], n)]@[t] == q;
                assert(self.buckets@[bucket_of(ks[q as int], n)]@[t] == q);
            } else {
                assert(self.buckets@[b as int]@[self.buckets@[b as int]@.len() - 1] == p);
            }
        }
        assert forall|bb: int, j: int| 0 <= bb < n && 0 <= j < self.buckets@[bb]@.len() implies {
            &&& (#[trigger] self.buckets@[bb]@[j]) < ks.len()
            &&& bucket_of(ks[self.buckets@[bb]@[j] as int], n) == bb
        } by {
            if bb == b && j == old_buckets[bb]@.len() {
            } else {
                assert(self.buckets@[bb]@[j] == old_buckets[bb]@[j]);
            }
        }
    }

    /// A consistent map has parallel sequences and distinct keys.
    pub proof fn lemma_wf_facts(&self)
        requires
            self.wf(),
        ensures
            self.keys_view().len() == self.vals_view().len(),
            self.keys_view().no_duplicates(),
    {
    }

    /// In a consistent map the key at `i` maps to the value at `i`.
    pub proof fn lemma_index_of_key(&self, i: int)
        requires
            self.wf(),
            0 <= i < self.keys_view().len(),
        ensures
            self.map_view().contains_key(self.keys_view()[i]),
            self.map_view()[self.keys_view()[i]] == self.vals_view()[i],
            self.keys_view().index_of(self.keys_view()[i]) == i,
    {
        let k = self.keys_view()[i];
        assert(self.keys_view().contains(k));
        let j = self.keys_view().index_of(k);
        assert(0 <= j < self.keys_view().len() && self.keys_view()[j] == k);
    }

    /// A consistent map has as many entries in its map view as keys.
    pub proof fn lemma_map_view_len(&self)
        requires
            self.wf(),
        ensures
            self.map_view().len() == self.keys_view().len(),
            self.map_view().dom() == self.keys_view().to_set(),
    {
        assert(self.map_view().dom() =~= self.keys_view().to_set());
        assert(self.keys_view().no_duplicates());
        self.keys_view().unique_seq_to_set();
    }

    /// Replacing the value at `i` updates the map view at that key.
    pub proof fn lemma_set_value_map(&self, before: StrMap<V>, i: int, v: V)
        requires
            before.wf(),
            0 <= i < before.keys_view().len(),
            self.keys_view() == before.keys_view(),
            self.vals_view() == before.vals_view().update(i, v),
        ensures
            self.map_view() == before.map_view().insert(before.keys_view()[i], v),
    {
        let ks = self.keys_view();
        assert forall|k: Seq<char>| #[trigger] self.map_view().contains_key(k) implies
            self.map_view()[k] == before.map_view().insert(ks[i], v)[k] by {
            let j = ks.index_of(k);
            if k == ks[i] {
                assert(ks[j] == ks[i]);
            } else {
                assert(j != i);
            }
        }
        assert(self.map_view() =~= before.map_view().insert(ks[i], v));
    }

    /// Appending a fresh key inserts it into the map view.
    pub proof fn lemma_push_new_map(&self, before: StrMap<V>, k: Seq<char>, v: V)
        requires
            before.wf(),
            !before.keys_view().contains(k),
            self.keys_view() == before.keys_view().push(k),
            self.vals_view() == before.vals_view().push(v),
        ensures
            self.map_view() == before.map_view().insert(k, v),
    {
        let ks = self.keys_view();
        let n = before.keys_view().len();
        assert forall|q: Seq<char>| #[trigger] self.map_view().contains_key(q) implies
            self.map_view()[q] == before.map_view().insert(k, v)[q] by {
            let j = ks.index_of(q);
            if q == k {
                if j < n {
                    assert(before.keys_view()[j] == k);
                }
            } else {
                assert(j < n);
                assert(before.keys_view().contains(q));
                let j2 = before.keys_view().index_of(q);
                assert(ks[j2] == q);
                if j != j2 {
                    assert(before.keys_view()[j] == q);
                }
                assert(self.vals_view()[j] == before.vals_view()[j]);
            }
        }
        assert forall|q: Seq<char>| before.map_view().insert(k, v).contains_key(q)
            implies #[trigger] self.map_view().contains_key(q) by {
            if q != k {
                let j = before.keys_view().index_of(q);
                assert(ks[j] == q);
            } else {
                assert(ks[n as int] == k);
            }
        }
        assert(self.map_view() =~= before.map_view().insert(k, v));
    }

    /// Puts `v` at position `i` and hands back the value that was there.
    pub fn swap_value(&mut self, i: usize, v: V) -> (prev: V)
        requires
            old(self).wf(),
            i < old(self).keys_view().len(),
        ensures
            final(self).wf(),
            final(self).keys_view() == old(self).keys_view(),
            final(self).vals_view() == old(self).vals_view().update(i as int, v),
            prev == old(self).vals_view()[i as int],
    {
        let ghost ks = self.keys_view();
        let mut v = v;
        std::mem::swap(&mut self.vals[i], &mut v);
        assert(self.keys_view() =~= ks);
        v
    }

    /// The entries, in insertion order.
    pub fn into_entries(self) -> (v: Vec<(String, V)>)
        requires
            self.wf(),
        ensures
            v@.len() == self.keys_view().len(),
            forall|t: int| 0 <= t < v@.len() ==> (#[trigger] v@[t]).0@ == self.keys_view()[t] && v@[t].1
                == self.vals_view()[t],
    {
        let ghost ks = self.keys_view();
        let ghost vs = self.vals_view();
        let mut keys = self.keys;
        let mut vals = self.vals;
        let n = keys.len();
        let mut rev: Vec<(String, V)> = Vec::new();
        while keys.len() > 0
            invariant
                keys@.len() == vals@.len(),
                keys@.len() + rev@.len() == n,
                n == ks.len(),
                forall|t: int| 0 <= t < keys@.len() ==> keys@[t]@ == ks[t] && vals@[t] == vs[t],
                forall|t: int| 0 <= t < rev@.len() ==> (#[trigger] rev@[t]).0@ == ks[n - 1 - t] && rev@[t].1 == vs[n - 1 - t],
            decreases keys@.len(),
        {
            let k = keys.pop().unwrap();
            let x = vals.pop().unwrap();
            rev.push((k, x));
        }
        let mut out: Vec<(String, V)> = Vec::new();
        while rev.len() > 0
            invariant
                rev@.len() + out@.len() == n,
                n == ks.len(),
                forall|t: int| 0 <= t < rev@.len() ==> (#[trigger] rev@[t]).0@ == ks[n - 1 - t] && rev@[t].1 == vs[n - 1 - t],
                forall|t: int| 0 <= t < out@.len() ==> (#[trigger] out@[t]).0@ == ks[t] && out@[t].1 == vs[t],
            decreases rev@.len(),
        {
            let e = rev.pop().unwrap();
            out.push(e);
        }
        out
    }
}

} // verus!
