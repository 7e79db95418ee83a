//! A map keyed by byte strings that remembers the order of its keys.

use vstd::prelude::*;

use crate::seqs::{bytes_equal, copy_bytes};

verus! {

/// FNV-1a over a byte string.
pub open spec fn bytes_hash(s: Seq<u8>) -> u64
    decreases s.len(),
{
    if s.len() == 0 {
        0xCBF2_9CE4_8422_2325
    } else {
        (bytes_hash(s.drop_last()) ^ s.last() as u64).wrapping_mul(0x0000_0100_0000_01B3u64)
    }
}

/// The hash of a byte string.
pub fn hash_bytes(bytes: &[u8]) -> (h: u64)
    ensures
        h == bytes_hash(bytes@),
{
    let mut h: u64 = 0xCBF2_9CE4_8422_2325;
    assert(bytes@.take(0) =~= Seq::empty());
    for i in 0..bytes.len()
        invariant
            h == bytes_hash(bytes@.take(i as int)),
    {
        proof {
            let t = bytes@.take(i as int + 1);
            assert(t.drop_last() =~= bytes@.take(i as int));
        }
        h = (h ^ bytes[i] as u64).wrapping_mul(0x0000_0100_0000_01B3u64);
    }
    assert(bytes@.take(bytes@.len() as int) =~= bytes@);
    h
}

/// The bucket of a key among `n`.
spec fn bucket_of(key: Seq<u8>, n: int) -> int {
    bytes_hash(key) as int % n
}

/// A map from byte strings to `V`. Keys keep the order of their first insert.
pub struct ByteMap<V> {
    entries: Vec<(Vec<u8>, V)>,
    buckets: Vec<Vec<usize>>,
}

/// The keys of a list of entries.
spec fn keys_of<V>(entries: Seq<(Vec<u8>, V)>) -> Seq<Seq<u8>> {
    entries.map_values(|e: (Vec<u8>, V)| e.0@)
}

/// Where the entry with a key is.
spec fn holds<V>(entries: Seq<(Vec<u8>, V)>, key: Seq<u8>, i: int) -> bool {
    0 <= i < entries.len() && entries[i].0@ == key
}

/// The values of a list of entries by key.
spec fn entry_map<V>(entries: Seq<(Vec<u8>, V)>) -> Map<Seq<u8>, V> {
    Map::new(
        |key: Seq<u8>| exists|i: int| holds(entries, key, i),
        |key: Seq<u8>| entries[choose|i: int| holds(entries, key, i)].1,
    )
}

/// No key occurs twice.
spec fn distinct<V>(entries: Seq<(Vec<u8>, V)>) -> bool {
    forall|i: int, j: int|
        0 <= i < j < entries.len() ==> (#[trigger] entries[i]).0@ != (#[trigger] entries[j]).0@
}

/// Every entry is listed in the bucket of its key.
spec fn indexed<V>(entries: Seq<(Vec<u8>, V)>, buckets: Seq<Vec<usize>>) -> bool {
    &&& buckets.len() > 0
    &&& forall|i: int|
        0 <= i < entries.len() ==> buckets[bucket_of(
            (#[trigger] entries[i]).0@,
            buckets.len() as int,
        )]@.contains(i as usize)
    &&& forall|b: int, k: int|
        0 <= b < buckets.len() && 0 <= k < buckets[b]@.len() ==> (#[trigger] buckets[b]@[k])
            < entries.len()
}

proof fn lemma_entry_map_at<V>(entries: Seq<(Vec<u8>, V)>, i: int)
    requires
        distinct(entries),
        0 <= i < entries.len(),
    ensures
        entry_map(entries).contains_key(entries[i].0@),
        entry_map(entries)[entries[i].0@] == entries[i].1,
{
    let key = entries[i].0@;
    assert(holds(entries, key, i));
    let k = choose|k: int| holds(entries, key, k);
    if k < i {
        assert(entries[k].0@ != entries[i].0@);
    } else if i < k {
        assert(entries[i].0@ != entries[k].0@);
    }
}

proof fn lemma_bucket_bounds(key: Seq<u8>, n: int)
    requires
        n > 0,
    ensures
        0 <= bucket_of(key, n) < n,
{
    let m = bytes_hash(key) as int % n;
    assert(0 <= m < n) by (nonlinear_arith)
        requires
            n > 0,
            m == (bytes_hash(key) as int) % n,
    ;
}

impl<V> View for ByteMap<V> {
    type V = Map<Seq<u8>, V>;

    closed spec fn view(&self) -> Map<Seq<u8>, V> {
        entry_map(self.entries@)
    }
}

impl<V: Copy> ByteMap<V> {
    /// Keys are distinct and can be found.
    pub closed spec fn wf(self) -> bool {
        &&& distinct(self.entries@)
        &&& indexed(self.entries@, self.buckets@)
    }

    /// The keys, in the order of their first insert.
    pub closed spec fn order(self) -> Seq<Seq<u8>> {
        keys_of(self.entries@)
    }

    /// An empty map.
    pub fn new() -> (m: Self)
        ensures
            m.wf(),
            m@ == Map::<Seq<u8>, V>::empty(),
            m.order() == Seq::<Seq<u8>>::empty(),
    {
        let entries: Vec<(Vec<u8>, V)> = Vec::new();
        let buckets: Vec<Vec<usize>> = Self::empty_buckets(16);
        let m = ByteMap { entries, buckets };
        assert(m@ =~= Map::<Seq<u8>, V>::empty());
        assert(m.order() =~= Seq::<Seq<u8>>::empty());
        m
    }

    fn empty_buckets(n: usize) -> (b: Vec<Vec<usize>>)
        ensures
            b@.len() == n,
            forall|i: int| 0 <= i < n ==> (#[trigger] b@[i])@.len() == 0,
    {
        let mut b: Vec<Vec<usize>> = Vec::new();
        for i in 0..n
            invariant
                b@.len() == i,
                forall|j: int| 0 <= j < i ==> (#[trigger] b@[j])@.len() == 0,
        {
            b.push(Vec::new());
        }
        b
    }

    /// The number of keys.
    pub fn len(&self) -> (n: usize)
        ensures
            n == self.order().len(),
    {
        self.entries.len()
    }

    /// The keys are those of the map, each listed once.
    pub proof fn lemma_order(self)
        requires
            self.wf(),
        ensures
            forall|k: Seq<u8>| #[trigger] self@.contains_key(k) <==> self.order().contains(k),
            self.order().no_duplicates(),
    {
        let e = self.entries@;
        assert forall|k: Seq<u8>| #[trigger] self@.contains_key(k) <==> self.order().contains(k) by {
            if self@.contains_key(k) {
                let i = choose|i: int| holds(e, k, i);
                assert(self.order()[i] == k);
            }
            if self.order().contains(k) {
                let i = choose|i: int| 0 <= i < self.order().len() && self.order()[i] == k;
                assert(holds(e, k, i));
            }
        }
    }

    /// The key and the value at place `i` of the order.
    pub fn entry(&self, i: usize) -> (r: (&[u8], V))
        requires
            self.wf(),
            i < self.order().len(),
        ensures
            r.0@ == self.order()[i as int],
            self@.contains_key(r.0@),
            self@[r.0@] == r.1,
    {
        proof {
            lemma_entry_map_at(self.entries@, i as int);
        }
        let e: &(Vec<u8>, V) = &self.entries[i];
        (e.0.as_slice(), e.1)
    }

    /// Where the entry with `key` is.
    fn find(&self, key: &[u8]) -> (r: Option<usize>)
        requires
            self.wf(),
        ensures
            match r {
                Some(i) => holds(self.entries@, key@, i as int),
                None => forall|i: int| !#[trigger] holds(self.entries@, key@, i),
            },
    {
        let n: usize = self.buckets.len();
        let total: usize = self.entries.len();
        proof {
            lemma_bucket_bounds(key@, n as int);
        }
        let h: u64 = hash_bytes(key);
        let b: usize = (h % (n as u64)) as usize;
        let bucket: &Vec<usize> = &self.buckets[b];
        for k in 0..bucket.len()
            invariant
                self.wf(),
                bucket == self.buckets@[b as int],
                b == bucket_of(key@, self.buckets@.len() as int),
                b < self.buckets@.len(),
                forall|j: int|
                    0 <= j < k ==> self.entries@[(#[trigger] bucket@[j]) as int].0@ != key@,
        {
            assert(self.buckets@[b as int]@[k as int] < self.entries@.len());
            let i: usize = bucket[k];
            if bytes_equal(self.entries[i].0.as_slice(), key) {
                return Some(i);
            }
        }
        proof {
            assert forall|i: int| !#[trigger] holds(self.entries@, key@, i) by {
                if holds(self.entries@, key@, i) {
                    assert(i < total);
                    assert(self.entries@[i].0@ == key@);
                    assert(bucket@.contains(i as usize));
                    let j = choose|j: int| 0 <= j < bucket@.len() && bucket@[j] == i as usize;
                    assert(self.entries@[bucket@[j] as int].0@ != key@);
                }
            }
        }
        None
    }

    /// The value of `key`.
    pub fn get(&self, key: &[u8]) -> (r: Option<V>)
        requires
            self.wf(),
        ensures
            match r {
                Some(v) => self@.contains_key(key@) && self@[key@] == v,
                None => !self@.contains_key(key@),
            },
    {
        match self.find(key) {
            Some(i) => {
                proof {
                    lemma_entry_map_at(self.entries@, i as int);
                }
                Some(self.entries[i].1)
            },
            None => None,
        }
    }

    /// List every entry in `n` new buckets.
    fn rebuild(&mut self, n: usize)
        requires
            distinct(old(self).entries@),
            n > 0,
        ensures
            final(self).wf(),
            final(self).entries == old(self).entries,
    {
        let mut buckets: Vec<Vec<usize>> = Self::empty_buckets(n);
        for i in 0..self.entries.len()
            invariant
                n > 0,
                self.entries == old(self).entries,
                buckets@.len() == n,
                forall|j: int|
                    0 <= j < i ==> buckets@[bucket_of(
                        (#[trigger] self.entries@[j]).0@,
                        n as int,
                    )]@.contains(j as usize),
                forall|b: int, k: int|
                    0 <= b < n && 0 <= k < buckets@[b]@.len() ==> (#[trigger] buckets@[b]@[k]) < i,
        {
            let ghost key = self.entries@[i as int].0@;
            proof {
                lemma_bucket_bounds(key, n as int);
            }
            let h: u64 = hash_bytes(self.entries[i].0.as_slice());
            let b: usize = (h % (n as u64)) as usize;
            let ghost before = buckets@;
            buckets[b].push(i);
            proof {
                assert(buckets@[b as int]@ == before[b as int]@.push(i));
                assert(buckets@[b as int]@[before[b as int]@.len() as int] == i);
                assert forall|j: int| 0 <= j < i + 1 implies buckets@[bucket_of(
                    (#[trigger] self.entries@[j]).0@,
                    n as int,
                )]@.contains(j as usize) by {
                    if j < i {
                        let c = bucket_of(self.entries@[j].0@, n as int);
                        lemma_bucket_bounds(self.entries@[j].0@, n as int);
                        let k = choose|k: int|
                            0 <= k < before[c]@.len() && before[c]@[k] == j as usize;
                        assert(buckets@[c]@[k] == j as usize);
                    }
                }
                assert forall|c: int, k: int| 0 <= c < n && 0 <= k < buckets@[c]@.len() implies (
                #[trigger] buckets@[c]@[k]) < i + 1 by {
                    if c != b {
                        assert(before[c]@[k] < i);
                    } else if k < before[c]@.len() {
                        assert(before[c]@[k] < i);
                    }
                }
            }
        }
        self.buckets = buckets;
    }

    /// Let `key` map to `v`, in place of what it mapped to before.
    pub fn insert(&mut self, key: &[u8], v: V)
        requires
            old(self).wf(),
        ensures
            final(self).wf(),
            final(self)@ == old(self)@.insert(key@, v),
            final(self).order() == if old(self)@.contains_key(key@) {
                old(self).order()
            } else {
                old(self).order().push(key@)
            },
    {
        let ghost before = self.entries@;
        match self.find(key) {
            Some(i) => {
                let k: Vec<u8> = copy_bytes(key);
                self.entries.set(i, (k, v));
                proof {
                    let after = self.entries@;
                    lemma_entry_map_at(before, i as int);
                    assert forall|j: int| 0 <= j < after.len() implies (#[trigger] after[j]).0@
                        == before[j].0@ by {}
                    assert(distinct(after)) by {
                        assert forall|a: int, b: int| 0 <= a < b < after.len() implies (
                        #[trigger] after[a]).0@ != (#[trigger] after[b]).0@ by {
                            assert(before[a].0@ != before[b].0@);
                        }
                    }
                    assert(indexed(after, self.buckets@)) by {
                        assert forall|j: int| 0 <= j < after.len() implies self.buckets@[bucket_of(
                            (#[trigger] after[j]).0@,
                            self.buckets@.len() as int,
                        )]@.contains(j as usize) by {
                            assert(self.buckets@[bucket_of(
                                before[j].0@,
                                self.buckets@.len() as int,
                            )]@.contains(j as usize));
                        }
                    }
                    lemma_insert_existing(before, after, i as int, key@, v);
                    assert(keys_of(after) =~= keys_of(before));
                }
            },
            None => {
                let k: Vec<u8> = copy_bytes(key);
                let i: usize = self.entries.len();
                let n: usize = self.buckets.len();
                self.entries.push((k, v));
                proof {
                    let after = self.entries@;
                    assert(!entry_map(before).contains_key(key@));
                    assert(distinct(after)) by {
                        assert forall|a: int, b: int| 0 <= a < b < after.len() implies (
                        #[trigger] after[a]).0@ != (#[trigger] after[b]).0@ by {
                            if b == i {
                                assert(!holds(before, key@, a));
                            } else {
                                assert(before[a].0@ != before[b].0@);
                            }
                        }
                    }
                    lemma_insert_new(before, after, key@, v);
                    assert(keys_of(after) =~= keys_of(before).push(key@));
                }
                if i / 2 >= n && n < usize::MAX / 4 {
                    self.rebuild(n * 2);
                } else {
                    proof {
                        lemma_bucket_bounds(key@, n as int);
                    }
                    let h: u64 = hash_bytes(key);
                    let b: usize = (h % (n as u64)) as usize;
                    let ghost buckets0 = self.buckets@;
                    self.buckets[b].push(i);
                    proof {
                        let after = self.entries@;
                        let buckets = self.buckets@;
                        assert(buckets[b as int]@ == buckets0[b as int]@.push(i));
                        assert(buckets[b as int]@[buckets0[b as int]@.len() as int] == i);
                        assert forall|j: int| 0 <= j < after.len() implies buckets[bucket_of(
                            (#[trigger] after[j]).0@,
                            n as int,
                        )]@.contains(j as usize) by {
                            if j < i {
                                let c = bucket_of(before[j].0@, n as int);
                                lemma_bucket_bounds(before[j].0@, n as int);
                                assert(buckets0[c]@.contains(j as usize));
                                let k = choose|k: int|
                                    0 <= k < buckets0[c]@.len() && buckets0[c]@[k] == j as usize;
                                assert(buckets[c]@[k] == j as usize);
                            }
                        }
                        assert forall|c: int, k: int|
                            0 <= c < buckets.len() && 0 <= k < buckets[c]@.len() implies (
                        #[trigger] buckets[c]@[k]) < after.len() by {
                            if c != b {
                                assert(buckets0[c]@[k] < before.len());
                            } else if k < buckets0[c]@.len() {
                                assert(buckets0[c]@[k] < before.len());
                            }
                        }
                    }
                }
            },
        }
    }

    /// A copy with the same contents and order.
    pub fn copy(&self) -> (m: Self)
        requires
            self.wf(),
        ensures
            m.wf(),
            m@ == self@,
            m.order() == self.order(),
    {
        let mut m: ByteMap<V> = ByteMap::new();
        proof {
            self.lemma_order();
        }
        for i in 0..self.entries.len()
            invariant
                self.wf(),
                m.wf(),
                self.order().no_duplicates(),
                m.order() == self.order().take(i as int),
                forall|k: Seq<u8>| #[trigger] m@.contains_key(k) ==> m.order().contains(k),
                forall|j: int|
                    0 <= j < i ==> m@.contains_key(#[trigger] self.order()[j]) && m@[self.order()[j]]
                        == self.entries@[j].1,
        {
            let ghost key = self.order()[i as int];
            let ghost m0 = m@;
            proof {
                m.lemma_order();
                if m@.contains_key(key) {
                    let j = choose|j: int|
                        0 <= j < m.order().len() && m.order()[j] == key;
                    assert(self.order()[j] == self.order()[i as int]);
                }
            }
            let (k, v): (&[u8], V) = self.entry(i);
            m.insert(k, v);
            proof {
                lemma_entry_map_at(self.entries@, i as int);
                m.lemma_order();
                assert(self.order().take(i as int + 1) =~= self.order().take(i as int).push(key));
                assert forall|j: int| 0 <= j < i + 1 implies m@.contains_key(
                    #[trigger] self.order()[j],
                ) && m@[self.order()[j]] == self.entries@[j].1 by {
                    if j < i {
                        assert(self.order()[j] != self.order()[i as int]);
                        assert(m0.contains_key(self.order()[j]));
                    }
                }
            }
        }
        proof {
            let n = self.order().len() as int;
            assert(self.order().take(n) =~= self.order());
            m.lemma_order();
            assert forall|k: Seq<u8>| m@.contains_key(k) <==> self@.contains_key(k) by {}
            assert forall|k: Seq<u8>| m@.contains_key(k) implies m@[k] == self@[k] by {
                let j = choose|j: int| 0 <= j < self.order().len() && self.order()[j] == k;
                assert(self.order().contains(k));
                lemma_entry_map_at(self.entries@, j);
                assert(m@[self.order()[j]] == self.entries@[j].1);
            }
            assert(m@ =~= self@);
        }
        m
    }
}

proof fn lemma_insert_existing<V>(
    before: Seq<(Vec<u8>, V)>,
    after: Seq<(Vec<u8>, V)>,
    i: int,
    key: Seq<u8>,
    v: V,
)
    requires
        distinct(before),
        distinct(after),
        after.len() == before.len(),
        holds(before, key, i),
        holds(after, key, i),
        after[i].1 == v,
        forall|j: int| 0 <= j < before.len() && j != i ==> #[trigger] after[j] == before[j],
    ensures
        entry_map(after) == entry_map(before).insert(key, v),
{
    let want = entry_map(before).insert(key, v);
    assert forall|k: Seq<u8>| entry_map(after).contains_key(k) <==> want.contains_key(k) by {
        if entry_map(after).contains_key(k) {
            let j = choose|j: int| holds(after, k, j);
            assert(j == i || holds(before, k, j));
        }
        if entry_map(before).contains_key(k) {
            let j = choose|j: int| holds(before, k, j);
            if j != i {
                assert(after[j] == before[j]);
                assert(holds(after, k, j));
            }
        }
        if k == key {
            assert(holds(after, key, i));
        }
    }
    assert forall|k: Seq<u8>| entry_map(after).contains_key(k) implies entry_map(after)[k]
        == want[k] by {
        let j = choose|j: int| holds(after, k, j);
        lemma_entry_map_at(after, j);
        if k == key {
            lemma_entry_map_at(after, i);
        } else {
            assert(after[j] == before[j]);
            lemma_entry_map_at(before, j);
        }
    }
    assert(entry_map(after) =~= want);
}

proof fn lemma_insert_new<V>(
    before: Seq<(Vec<u8>, V)>,
    after: Seq<(Vec<u8>, V)>,
    key: Seq<u8>,
    v: V,
)
    requires
        distinct(before),
        distinct(after),
        after.len() == before.len() + 1,
        holds(after, key, before.len() as int),
        after[before.len() as int].1 == v,
        forall|j: int| 0 <= j < before.len() ==> #[trigger] after[j] == before[j],
        !entry_map(before).contains_key(key),
    ensures
        entry_map(after) == entry_map(before).insert(key, v),
{
    let n = before.len() as int;
    let want = entry_map(before).insert(key, v);
    assert forall|k: Seq<u8>| entry_map(after).contains_key(k) <==> want.contains_key(k) by {
        if entry_map(after).contains_key(k) {
            let j = choose|j: int| holds(after, k, j);
            assert(j == n || holds(before, k, j));
        }
        if entry_map(before).contains_key(k) {
            let j = choose|j: int| holds(before, k, j);
            assert(after[j] == before[j]);
            assert(holds(after, k, j));
        }
        if k == key {
            assert(holds(after, key, n));
        }
    }
    assert forall|k: Seq<u8>| entry_map(after).contains_key(k) implies entry_map(after)[k]
        == want[k] by {
        let j = choose|j: int| holds(after, k, j);
        lemma_entry_map_at(after, j);
        if k == key {
            lemma_entry_map_at(after, n);
        } else {
            assert(j < n);
            assert(after[j] == before[j]);
            lemma_entry_map_at(before, j);
        }
    }
    assert(entry_map(after) =~= want);
}

} // verus!
