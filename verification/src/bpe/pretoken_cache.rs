//! Open-addressing cache for short (at most 15 byte) pretoken encodings.
//!
//! Linear probing over aligned pairs: a bucket is two adjacent slots, the first
//! at an even index. Inserts fill the first empty slot of the walk over the
//! pairs; growth doubles at 3/4 load. Key 0 marks empty slots.

use vstd::prelude::*;

use crate::pretokenize::keys::{key_hash, pretoken_key_hash};

verus! {

/// One slot: the packed pretoken key plus its packed encoding.
#[derive(Clone, Copy)]
pub struct Entry {
    pub key: u128,
    pub val: u64,
    pub ext: u64,
}

/// The least number of slots of a table.
pub const MIN_SLOTS: usize = 65536;

/// Tables of more slots than this do not grow.
pub const MAX_SLOTS: usize = usize::MAX / 16;

/// The home pair of a key, in a table of `pairs` pairs.
spec fn home(key: u128, pairs: int) -> int {
    (key_hash(key) as int % (2 * pairs)) / 2
}

/// The pair that a walk from `from` comes to after `i` steps.
spec fn walk(from: int, i: int, pairs: int) -> int {
    if from + i < pairs {
        from + i
    } else {
        from + i - pairs
    }
}

/// How many steps a walk from `from` takes to pair `q`.
spec fn steps(from: int, q: int, pairs: int) -> int {
    if q >= from {
        q - from
    } else {
        q - from + pairs
    }
}

/// Whether both slots of pair `q` are taken.
spec fn full(slots: Seq<Entry>, q: int) -> bool {
    slots[2 * q].key != 0 && slots[2 * q + 1].key != 0
}

/// How many of the first `n` slots are taken.
spec fn taken(slots: Seq<Entry>, n: int) -> int
    decreases n,
{
    if n <= 0 {
        0
    } else {
        taken(slots, n - 1) + if slots[n - 1].key != 0 {
            1int
        } else {
            0
        }
    }
}

/// Every key can be found from its home pair, and none is stored twice.
spec fn placed(slots: Seq<Entry>, pairs: int) -> bool {
    &&& pairs > 0
    &&& slots.len() == 2 * pairs
    &&& forall|j: int, i: int|
        #![trigger slots[j], walk(home(slots[j].key, pairs), i, pairs)]
        0 <= j < slots.len() && slots[j].key != 0 && 0 <= i < steps(
            home(slots[j].key, pairs),
            j / 2,
            pairs,
        ) ==> full(slots, walk(home(slots[j].key, pairs), i, pairs))
    &&& forall|j: int, k: int|
        0 <= j < k < slots.len() && (#[trigger] slots[j]).key != 0 ==> slots[j].key != (
        #[trigger] slots[k]).key
}

/// The values stored by key.
spec fn contents(slots: Seq<Entry>) -> Map<u128, (u64, u64)> {
    Map::new(
        |key: u128| key != 0 && exists|j: int| 0 <= j < slots.len() && (#[trigger] slots[j]).key == key,
        |key: u128|
            {
                let j = choose|j: int| 0 <= j < slots.len() && (#[trigger] slots[j]).key == key;
                (slots[j].val, slots[j].ext)
            },
    )
}

proof fn lemma_home_bounds(key: u128, pairs: int)
    requires
        pairs > 0,
    ensures
        0 <= home(key, pairs) < pairs,
{
    let m = key_hash(key) as int % (2 * pairs);
    assert(0 <= m < 2 * pairs) by (nonlinear_arith)
        requires
            m == (key_hash(key) as int) % (2 * pairs),
            pairs > 0,
    ;
}

proof fn lemma_taken_bounds(slots: Seq<Entry>, n: int)
    requires
        0 <= n <= slots.len(),
    ensures
        0 <= taken(slots, n) <= n,
    decreases n,
{
    if n > 0 {
        lemma_taken_bounds(slots, n - 1);
    }
}

proof fn lemma_taken_all(slots: Seq<Entry>, n: int)
    requires
        0 <= n <= slots.len(),
        forall|j: int| 0 <= j < n ==> (#[trigger] slots[j]).key != 0,
    ensures
        taken(slots, n) == n,
    decreases n,
{
    if n > 0 {
        lemma_taken_all(slots, n - 1);
    }
}

proof fn lemma_taken_none(slots: Seq<Entry>, n: int)
    requires
        0 <= n <= slots.len(),
        forall|j: int| 0 <= j < n ==> (#[trigger] slots[j]).key == 0,
    ensures
        taken(slots, n) == 0,
    decreases n,
{
    if n > 0 {
        lemma_taken_none(slots, n - 1);
    }
}

proof fn lemma_taken_update(slots: Seq<Entry>, at: int, e: Entry, n: int)
    requires
        0 <= at < slots.len(),
        0 <= n <= slots.len(),
        e.key != 0,
    ensures
        taken(slots.update(at, e), n) == taken(slots, n) + if at < n && slots[at].key == 0 {
            1int
        } else {
            0
        },
    decreases n,
{
    if n > 0 {
        lemma_taken_update(slots, at, e, n - 1);
    }
}

/// After as many steps as there are pairs, a walk has been everywhere.
proof fn lemma_walk_covers(slots: Seq<Entry>, from: int, pairs: int)
    requires
        0 <= from < pairs,
        slots.len() == 2 * pairs,
        forall|i: int| 0 <= i < pairs ==> full(slots, #[trigger] walk(from, i, pairs)),
    ensures
        taken(slots, 2 * pairs) == 2 * pairs,
{
    assert forall|j: int| 0 <= j < 2 * pairs implies (#[trigger] slots[j]).key != 0 by {
        let q = j / 2;
        let i = steps(from, q, pairs);
        assert(walk(from, i, pairs) == q);
        assert(full(slots, q));
        assert(j == 2 * q || j == 2 * q + 1);
    }
    lemma_taken_all(slots, 2 * pairs);
}

/// What a slot holds is in the contents.
proof fn lemma_contents_at(slots: Seq<Entry>, pairs: int, j: int)
    requires
        placed(slots, pairs),
        0 <= j < slots.len(),
        slots[j].key != 0,
    ensures
        contents(slots).contains_key(slots[j].key),
        contents(slots)[slots[j].key] == (slots[j].val, slots[j].ext),
{
    let key = slots[j].key;
    let k = choose|k: int| 0 <= k < slots.len() && (#[trigger] slots[k]).key == key;
    assert(slots[k].key == key);
    if j < k {
        assert(slots[j].key != slots[k].key);
    } else if k < j {
        assert(slots[k].key != slots[j].key);
    }
}

/// A walk that met only full pairs without the key, and then a pair with an
/// empty slot and without the key, shows that the key is absent.
proof fn lemma_absent(slots: Seq<Entry>, pairs: int, key: u128, n: int)
    requires
        placed(slots, pairs),
        key != 0,
        0 <= n < pairs,
        forall|i: int|
            #![trigger walk(home(key, pairs), i, pairs)]
            0 <= i <= n ==> slots[2 * walk(home(key, pairs), i, pairs)].key != key && slots[2 * walk(
                home(key, pairs),
                i,
                pairs,
            ) + 1].key != key,
        !full(slots, walk(home(key, pairs), n, pairs)),
    ensures
        !contents(slots).contains_key(key),
{
    lemma_home_bounds(key, pairs);
    if contents(slots).contains_key(key) {
        let j = choose|j: int| 0 <= j < slots.len() && (#[trigger] slots[j]).key == key;
        let from = home(key, pairs);
        let q = j / 2;
        let d = steps(from, q, pairs);
        assert(walk(from, d, pairs) == q);
        if d <= n {
            assert(j == 2 * q || j == 2 * q + 1);
        } else {
            assert(full(slots, walk(home(slots[j].key, pairs), n, pairs)));
        }
    }
}

/// Cache of packed pretoken encodings by packed key.
pub struct ShortPretokenCache {
    slots: Vec<Entry>,
    len: usize,
}

impl View for ShortPretokenCache {
    type V = Map<u128, (u64, u64)>;

    closed spec fn view(&self) -> Map<u128, (u64, u64)> {
        contents(self.slots@)
    }
}

impl ShortPretokenCache {
    /// The table is in order, and has an empty slot.
    pub closed spec fn wf(self) -> bool {
        &&& self.slots@.len() % 2 == 0
        &&& placed(self.slots@, self.slots@.len() as int / 2)
        &&& self.len == taken(self.slots@, self.slots@.len() as int)
        &&& self.len < self.slots@.len()
    }

    /// The number of entries.
    pub closed spec fn entries(self) -> usize {
        self.len
    }

    /// The number of slots.
    pub closed spec fn slot_count(self) -> int {
        self.slots@.len() as int
    }

    /// Whether the table neither has room for one more entry nor grows.
    pub open spec fn at_limit(self) -> bool {
        (self.entries() + 1) * 4 > self.slot_count() * 3 && self.slot_count() > MAX_SLOTS
    }

    /// A table of the least size.
    pub fn new() -> (c: Self)
        ensures
            c.wf(),
            c@ == Map::<u128, (u64, u64)>::empty(),
            c.entries() == 0,
            c.slot_count() == MIN_SLOTS,
    {
        Self::with_slots(MIN_SLOTS)
    }

    fn with_slots(cap: usize) -> (c: Self)
        requires
            cap >= 2,
            cap % 2 == 0,
        ensures
            c.wf(),
            c@ == Map::<u128, (u64, u64)>::empty(),
            c.entries() == 0,
            c.slot_count() == cap,
    {
        let mut slots: Vec<Entry> = Vec::with_capacity(cap);
        for i in 0..cap
            invariant
                slots@.len() == i,
                forall|j: int| 0 <= j < i ==> (#[trigger] slots@[j]).key == 0,
        {
            slots.push(Entry { key: 0, val: 0, ext: 0 });
        }
        proof {
            lemma_taken_none(slots@, cap as int);
            assert(contents(slots@) =~= Map::<u128, (u64, u64)>::empty());
        }
        ShortPretokenCache { slots, len: 0 }
    }

    /// A table sized to hold at least `n` entries without growing, and of at
    /// least `min_slots` slots.
    pub fn with_at_least(n: usize, min_slots: usize) -> (c: Self)
        ensures
            c.wf(),
            c@ == Map::<u128, (u64, u64)>::empty(),
            c.entries() == 0,
            c.slot_count() >= MIN_SLOTS,
            c.slot_count() > MAX_SLOTS || ((n + 1) * 4 <= c.slot_count() * 3 && min_slots
                <= c.slot_count()),
    {
        let mut cap: usize = MIN_SLOTS;
        while cap <= MAX_SLOTS && ((n as u128 + 1) * 4 > cap as u128 * 3 || cap < min_slots)
            invariant
                cap >= MIN_SLOTS,
                cap % 2 == 0,
            decreases 2 * MAX_SLOTS - cap,
        {
            cap = cap * 2;
        }
        Self::with_slots(cap)
    }

    /// The number of entries.
    pub fn len(&self) -> (n: usize)
        ensures
            n == self.entries(),
    {
        self.len
    }

    /// The number of slots.
    pub fn capacity(&self) -> (n: usize)
        ensures
            n == self.slot_count(),
    {
        self.slots.len()
    }

    /// The home pair of a hash.
    fn home_of(&self, key: Ghost<u128>, h: u64) -> (q: usize)
        requires
            self.wf(),
            h == key_hash(key@),
        ensures
            q == home(key@, self.slots@.len() as int / 2),
            2 * q + 1 < self.slots@.len(),
            2 * q + 1 <= usize::MAX,
    {
        proof {
            lemma_home_bounds(key@, self.slots@.len() as int / 2);
        }
        let cap: u64 = self.slots.len() as u64;
        assert(2 * (self.slots@.len() as int / 2) == cap);
        ((h % cap) / 2) as usize
    }

    /// Whether `key` is in its home pair.
    pub closed spec fn at_home(self, key: u128) -> bool {
        let q = home(key, self.slots@.len() as int / 2);
        self.slots@[2 * q].key == key || self.slots@[2 * q + 1].key == key
    }

    /// The value in the second slot of the home pair of `key`.
    pub closed spec fn second_at_home(self, key: u128) -> (u64, u64) {
        let e = self.slots@[2 * home(key, self.slots@.len() as int / 2) + 1];
        (e.val, e.ext)
    }

    /// Look up `key` in its home pair: its value, and whether it is there. Where
    /// it is not, the key may still be further on, and the value is that of the
    /// pair's second slot.
    #[inline(always)]
    pub fn probe_pair(&self, key: u128, h: u64) -> (r: (u64, u64, bool))
        requires
            self.wf(),
            key != 0,
            h == key_hash(key),
        ensures
            r.2 == self.at_home(key),
            r.2 ==> self@.contains_key(key) && self@[key] == (r.0, r.1),
            !r.2 ==> (r.0, r.1) == self.second_at_home(key),
            !self@.contains_key(key) ==> !r.2,
    {
        let q: usize = self.home_of(Ghost(key), h);
        let e0: Entry = self.slots[2 * q];
        let e1: Entry = self.slots[2 * q + 1];
        proof {
            if e0.key == key {
                lemma_contents_at(self.slots@, self.slots@.len() as int / 2, 2 * q);
            }
            if e1.key == key {
                lemma_contents_at(self.slots@, self.slots@.len() as int / 2, 2 * q + 1);
            }
        }
        if e0.key == key {
            (e0.val, e0.ext, true)
        } else {
            (e1.val, e1.ext, e1.key == key)
        }
    }

    /// Look up `key`, walking pairs from its home bucket. Inserts fill the
    /// first empty slot of the walk, so any pair holding an empty slot
    /// terminates it.
    pub fn get(&self, key: u128, h: u64) -> (r: Option<(u64, u64)>)
        requires
            self.wf(),
            key != 0,
            h == key_hash(key),
        ensures
            match r {
                Some(v) => self@.contains_key(key) && self@[key] == v,
                None => !self@.contains_key(key),
            },
    {
        let ghost slots = self.slots@;
        let pairs: usize = self.slots.len() / 2;
        let ghost from = home(key, pairs as int);
        let mut q: usize = self.home_of(Ghost(key), h);
        let ghost mut n: int = 0;
        proof {
            lemma_home_bounds(key, pairs as int);
        }
        loop
            invariant
                self.wf(),
                key != 0,
                slots == self.slots@,
                pairs == slots.len() as int / 2,
                slots.len() == 2 * pairs,
                2 * pairs <= usize::MAX,
                from == home(key, pairs as int),
                0 <= from < pairs,
                0 <= n < pairs,
                q == walk(from, n, pairs as int),
                q < pairs,
                forall|i: int|
                    #![trigger walk(from, i, pairs as int)]
                    0 <= i < n ==> full(slots, walk(from, i, pairs as int)) && slots[2 * walk(
                        from,
                        i,
                        pairs as int,
                    )].key != key && slots[2 * walk(from, i, pairs as int) + 1].key != key,
            decreases pairs - n,
        {
            let e0: Entry = self.slots[2 * q];
            let e1: Entry = self.slots[2 * q + 1];
            if e0.key == key {
                proof {
                    lemma_contents_at(slots, pairs as int, 2 * q);
                }
                return Some((e0.val, e0.ext));
            }
            if e1.key == key {
                proof {
                    lemma_contents_at(slots, pairs as int, 2 * q + 1);
                }
                return Some((e1.val, e1.ext));
            }
            if e0.key == 0 || e1.key == 0 {
                proof {
                    lemma_absent(slots, pairs as int, key, n);
                }
                return None;
            }
            proof {
                if n + 1 == pairs {
                    assert forall|i: int| 0 <= i < pairs implies full(
                        slots,
                        #[trigger] walk(from, i, pairs as int),
                    ) by {}
                    lemma_walk_covers(slots, from, pairs as int);
                    assert(false);
                }
                n = n + 1;
            }
            q = if q + 1 < pairs {
                q + 1
            } else {
                0
            };
        }
    }

    /// First empty slot of a key's pair walk.
    fn first_empty(&self, key: Ghost<u128>, h: u64) -> (j: usize)
        requires
            self.wf(),
            key@ != 0,
            h == key_hash(key@),
        ensures
            j < self.slots@.len(),
            self.slots@[j as int].key == 0,
            forall|i: int|
                0 <= i < steps(
                    home(key@, self.slots@.len() as int / 2),
                    j as int / 2,
                    self.slots@.len() as int / 2,
                ) ==> full(
                    self.slots@,
                    #[trigger] walk(
                        home(key@, self.slots@.len() as int / 2),
                        i,
                        self.slots@.len() as int / 2,
                    ),
                ),
    {
        let ghost slots = self.slots@;
        let pairs: usize = self.slots.len() / 2;
        let ghost from = home(key@, pairs as int);
        let mut q: usize = self.home_of(key, h);
        let ghost mut n: int = 0;
        proof {
            lemma_home_bounds(key@, pairs as int);
        }
        loop
            invariant
                self.wf(),
                slots == self.slots@,
                pairs == slots.len() as int / 2,
                slots.len() == 2 * pairs,
                2 * pairs <= usize::MAX,
                from == home(key@, pairs as int),
                0 <= from < pairs,
                0 <= n < pairs,
                q == walk(from, n, pairs as int),
                q < pairs,
                forall|i: int|
                    0 <= i < n ==> full(slots, #[trigger] walk(from, i, pairs as int)),
            decreases pairs - n,
        {
            assert(steps(from, q as int, pairs as int) == n);
            if self.slots[2 * q].key == 0 {
                return 2 * q;
            }
            if self.slots[2 * q + 1].key == 0 {
                return 2 * q + 1;
            }
            proof {
                if n + 1 == pairs {
                    assert forall|i: int| 0 <= i < pairs implies full(
                        slots,
                        #[trigger] walk(from, i, pairs as int),
                    ) by {}
                    lemma_walk_covers(slots, from, pairs as int);
                    assert(false);
                }
                n = n + 1;
            }
            q = if q + 1 < pairs {
                q + 1
            } else {
                0
            };
        }
    }

    /// Store an entry whose key is absent, where there is room.
    fn place(&mut self, e: Entry)
        requires
            old(self).wf(),
            e.key != 0,
            !old(self)@.contains_key(e.key),
            old(self).entries() + 1 < old(self).slot_count(),
        ensures
            final(self).wf(),
            final(self)@ == old(self)@.insert(e.key, (e.val, e.ext)),
            final(self).entries() == old(self).entries() + 1,
            final(self).slot_count() == old(self).slot_count(),
    {
        let h: u64 = pretoken_key_hash(e.key);
        let cap: usize = self.slots.len();
        assert(self.len + 1 < cap);
        let at: usize = self.first_empty(Ghost(e.key), h);
        let ghost slots = self.slots@;
        let ghost pairs = slots.len() as int / 2;
        self.slots.set(at, e);
        self.len = self.len + 1;
        proof {
            let new = self.slots@;
            lemma_taken_update(slots, at as int, e, slots.len() as int);
            assert forall|q: int| 0 <= q < pairs && full(slots, q) implies full(new, q) by {}
            assert forall|j: int, i: int|
                #![trigger new[j], walk(home(new[j].key, pairs), i, pairs)]
                0 <= j < new.len() && new[j].key != 0 && 0 <= i < steps(
                    home(new[j].key, pairs),
                    j / 2,
                    pairs,
                ) implies full(new, walk(home(new[j].key, pairs), i, pairs)) by {
                lemma_home_bounds(new[j].key, pairs);
                let w = walk(home(new[j].key, pairs), i, pairs);
                if j != at {
                    assert(new[j] == slots[j]);
                    assert(full(slots, w));
                } else {
                    assert(full(slots, w));
                }
            }
            assert forall|j: int, k: int|
                0 <= j < k < new.len() && (#[trigger] new[j]).key != 0 implies new[j].key != (
            #[trigger] new[k]).key by {
                if j == at {
                    if slots[k].key == e.key {
                        lemma_contents_at(slots, pairs, k);
                    }
                } else if k == at {
                    if slots[j].key == e.key {
                        lemma_contents_at(slots, pairs, j);
                    }
                } else {
                    assert(slots[j].key != slots[k].key);
                }
            }
            assert(placed(new, pairs));
            let before = contents(slots);
            let after = contents(new);
            let want = before.insert(e.key, (e.val, e.ext));
            assert forall|key: u128| after.contains_key(key) <==> want.contains_key(key) by {
                if after.contains_key(key) {
                    let j = choose|j: int| 0 <= j < new.len() && (#[trigger] new[j]).key == key;
                    if j != at {
                        assert(slots[j].key == key);
                    }
                }
                if before.contains_key(key) {
                    let j = choose|j: int| 0 <= j < slots.len() && (#[trigger] slots[j]).key == key;
                    assert(new[j].key == key);
                }
                if key == e.key {
                    assert(new[at as int].key == key);
                }
            }
            assert forall|key: u128| after.contains_key(key) implies after[key] == want[key] by {
                if key == e.key {
                    lemma_contents_at(new, pairs, at as int);
                } else {
                    let j = choose|j: int| 0 <= j < slots.len() && (#[trigger] slots[j]).key == key;
                    assert(before.contains_key(key));
                    assert(slots[j].key == key);
                    assert(new[j] == slots[j]);
                    lemma_contents_at(new, pairs, j);
                    lemma_contents_at(slots, pairs, j);
                }
            }
            assert(after =~= want);
        }
    }

    /// Double the table.
    fn grow(&mut self)
        requires
            old(self).wf(),
            old(self).slot_count() <= MAX_SLOTS,
        ensures
            final(self).wf(),
            final(self)@ == old(self)@,
            final(self).entries() == old(self).entries(),
            final(self).slot_count() == 2 * old(self).slot_count(),
    {
        let cap: usize = self.slots.len();
        let ghost slots = self.slots@;
        let ghost pairs = slots.len() as int / 2;
        let mut bigger: ShortPretokenCache = Self::with_slots(2 * cap);
        for i in 0..cap
            invariant
                cap == slots.len(),
                slots == self.slots@,
                pairs == slots.len() as int / 2,
                placed(slots, pairs),
                bigger.wf(),
                bigger.slot_count() == 2 * cap,
                bigger.entries() == taken(slots, i as int),
                forall|key: u128| #[trigger]
                    bigger@.contains_key(key) ==> exists|j: int|
                        0 <= j < i && (#[trigger] slots[j]).key == key && bigger@[key] == (
                            slots[j].val,
                            slots[j].ext,
                        ),
                forall|j: int|
                    0 <= j < i && (#[trigger] slots[j]).key != 0 ==> bigger@.contains_key(
                        slots[j].key,
                    ),
        {
            let e: Entry = self.slots[i];
            let ghost before = bigger@;
            proof {
                lemma_taken_bounds(slots, i as int);
                if e.key != 0 && before.contains_key(e.key) {
                    let j = choose|j: int|
                        0 <= j < i && (#[trigger] slots[j]).key == e.key && before[e.key] == (
                            slots[j].val,
                            slots[j].ext,
                        );
                    assert(slots[j].key != slots[i as int].key);
                }
            }
            if e.key != 0 {
                bigger.place(e);
                proof {
                    assert forall|key: u128| #[trigger] bigger@.contains_key(key) implies exists|
                        j: int,
                    |
                        0 <= j < i + 1 && (#[trigger] slots[j]).key == key && bigger@[key] == (
                            slots[j].val,
                            slots[j].ext,
                        ) by {
                        if key == e.key {
                            assert(slots[i as int].key == key);
                        } else {
                            assert(before.contains_key(key));
                            let j = choose|j: int|
                                0 <= j < i && (#[trigger] slots[j]).key == key && before[key] == (
                                    slots[j].val,
                                    slots[j].ext,
                                );
                            assert(slots[j].key == key);
                        }
                    }
                }
            } else {
                assert forall|key: u128| #[trigger] bigger@.contains_key(key) implies exists|j: int|
                    0 <= j < i + 1 && (#[trigger] slots[j]).key == key && bigger@[key] == (
                        slots[j].val,
                        slots[j].ext,
                    ) by {
                    let j = choose|j: int|
                        0 <= j < i && (#[trigger] slots[j]).key == key && bigger@[key] == (
                            slots[j].val,
                            slots[j].ext,
                        );
                    assert(slots[j].key == key);
                }
            }
        }
        proof {
            let c = contents(slots);
            assert forall|key: u128| bigger@.contains_key(key) <==> c.contains_key(key) by {
                if bigger@.contains_key(key) {
                    let j = choose|j: int|
                        0 <= j < cap && (#[trigger] slots[j]).key == key && bigger@[key] == (
                            slots[j].val,
                            slots[j].ext,
                        );
                    assert(slots[j].key == key);
                    assert(key != 0) by {
                        assert(contents(bigger.slots@).contains_key(key));
                    }
                }
                if c.contains_key(key) {
                    let j = choose|j: int| 0 <= j < slots.len() && (#[trigger] slots[j]).key == key;
                    assert(slots[j].key == key);
                }
            }
            assert forall|key: u128| bigger@.contains_key(key) implies bigger@[key] == c[key] by {
                let j = choose|j: int|
                    0 <= j < cap && (#[trigger] slots[j]).key == key && bigger@[key] == (
                        slots[j].val,
                        slots[j].ext,
                    );
                assert(contents(bigger.slots@).contains_key(key));
                lemma_contents_at(slots, pairs, j);
            }
            assert(bigger@ =~= c);
        }
        *self = bigger;
    }

    /// Insert a key known to be absent. A table that does not grow any more is
    /// left as it is.
    pub fn insert(&mut self, key: u128, val: u64, ext: u64)
        requires
            old(self).wf(),
            key != 0,
            !old(self)@.contains_key(key),
        ensures
            final(self).wf(),
            old(self).at_limit() ==> *final(self) == *old(self),
            !old(self).at_limit() ==> {
                &&& final(self)@ == old(self)@.insert(key, (val, ext))
                &&& final(self).entries() == old(self).entries() + 1
                &&& final(self).slot_count() == if (old(self).entries() + 1) * 4
                    > old(self).slot_count() * 3 {
                    2 * old(self).slot_count()
                } else {
                    old(self).slot_count()
                }
            },
    {
        let cap: usize = self.slots.len();
        let crowded: bool = (self.len as u128 + 1) * 4 > cap as u128 * 3;
        if crowded {
            if cap > MAX_SLOTS {
                return ;
            }
            self.grow();
        }
        self.place(Entry { key, val, ext });
    }

    /// Set the value of `key`, whether it is present or not. A table that does
    /// not grow any more takes no new key.
    pub fn replace(&mut self, key: u128, h: u64, val: u64, ext: u64)
        requires
            old(self).wf(),
            key != 0,
            h == key_hash(key),
        ensures
            final(self).wf(),
            old(self)@.contains_key(key) || !old(self).at_limit() ==> final(self)@ == old(
                self,
            )@.insert(key, (val, ext)),
            !old(self)@.contains_key(key) && old(self).at_limit() ==> *final(self) == *old(self),
    {
        let pairs: usize = self.slots.len() / 2;
        let ghost slots = self.slots@;
        let ghost from = home(key, pairs as int);
        let mut q: usize = self.home_of(Ghost(key), h);
        let ghost mut n: int = 0;
        proof {
            lemma_home_bounds(key, pairs as int);
        }
        loop
            invariant_except_break
                self.wf(),
                key != 0,
                *self == *old(self),
                slots == self.slots@,
                pairs == slots.len() as int / 2,
                slots.len() == 2 * pairs,
                2 * pairs <= usize::MAX,
                from == home(key, pairs as int),
                0 <= from < pairs,
                0 <= n < pairs,
                q == walk(from, n, pairs as int),
                q < pairs,
                forall|i: int|
                    #![trigger walk(from, i, pairs as int)]
                    0 <= i < n ==> full(slots, walk(from, i, pairs as int)) && slots[2 * walk(
                        from,
                        i,
                        pairs as int,
                    )].key != key && slots[2 * walk(from, i, pairs as int) + 1].key != key,
            ensures
                *self == *old(self),
                self.wf(),
                !self@.contains_key(key),
            decreases pairs - n,
        {
            if self.slots[2 * q].key == key {
                self.overwrite(2 * q, Entry { key, val, ext });
                return ;
            }
            if self.slots[2 * q + 1].key == key {
                self.overwrite(2 * q + 1, Entry { key, val, ext });
                return ;
            }
            if self.slots[2 * q].key == 0 || self.slots[2 * q + 1].key == 0 {
                proof {
                    lemma_absent(slots, pairs as int, key, n);
                }
                break ;
            }
            proof {
                if n + 1 == pairs {
                    assert forall|i: int| 0 <= i < pairs implies full(
                        slots,
                        #[trigger] walk(from, i, pairs as int),
                    ) by {}
                    lemma_walk_covers(slots, from, pairs as int);
                    assert(false);
                }
                n = n + 1;
            }
            q = if q + 1 < pairs {
                q + 1
            } else {
                0
            };
        }
        self.insert(key, val, ext);
    }

    /// Put a new value beside the key at slot `at`.
    fn overwrite(&mut self, at: usize, e: Entry)
        requires
            old(self).wf(),
            at < old(self).slots@.len(),
            e.key != 0,
            old(self).slots@[at as int].key == e.key,
        ensures
            final(self).wf(),
            old(self)@.contains_key(e.key),
            final(self)@ == old(self)@.insert(e.key, (e.val, e.ext)),
    {
        let ghost slots = self.slots@;
        let ghost pairs = slots.len() as int / 2;
        self.slots.set(at, e);
        proof {
            let new = self.slots@;
            lemma_taken_update(slots, at as int, e, slots.len() as int);
            lemma_contents_at(slots, pairs, at as int);
            assert forall|j: int| 0 <= j < new.len() implies (#[trigger] new[j]).key == slots[j].key by {}
            assert forall|j: int, i: int|
                #![trigger new[j], walk(home(new[j].key, pairs), i, pairs)]
                0 <= j < new.len() && new[j].key != 0 && 0 <= i < steps(
                    home(new[j].key, pairs),
                    j / 2,
                    pairs,
                ) implies full(new, walk(home(new[j].key, pairs), i, pairs)) by {
                lemma_home_bounds(new[j].key, pairs);
                let w = walk(home(slots[j].key, pairs), i, pairs);
                assert(full(slots, w));
            }
            assert forall|j: int, k: int|
                0 <= j < k < new.len() && (#[trigger] new[j]).key != 0 implies new[j].key != (
            #[trigger] new[k]).key by {
                assert(slots[j].key != slots[k].key);
            }
            assert(placed(new, pairs));
            let before = contents(slots);
            let after = contents(new);
            let want = before.insert(e.key, (e.val, e.ext));
            assert forall|key: u128| after.contains_key(key) <==> want.contains_key(key) by {
                if after.contains_key(key) {
                    let j = choose|j: int| 0 <= j < new.len() && (#[trigger] new[j]).key == key;
                    assert(slots[j].key == key);
                }
                if before.contains_key(key) {
                    let j = choose|j: int| 0 <= j < slots.len() && (#[trigger] slots[j]).key == key;
                    assert(new[j].key == key);
                }
            }
            assert forall|key: u128| after.contains_key(key) implies after[key] == want[key] by {
                if key == e.key {
                    lemma_contents_at(new, pairs, at as int);
                } else {
                    let j = choose|j: int| 0 <= j < slots.len() && (#[trigger] slots[j]).key == key;
                    assert(before.contains_key(key));
                    assert(slots[j].key == key);
                    assert(new[j] == slots[j]);
                    lemma_contents_at(new, pairs, j);
                    lemma_contents_at(slots, pairs, j);
                }
            }
            assert(after =~= want);
        }
    }
}

} // verus!
