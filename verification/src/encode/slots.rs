//! A table of encoded pretokens: open addressing over slots that hold a packed
//! prefix, which verifies short pretokens by itself.

use vstd::prelude::*;

use crate::bpe::values::append_tokens;
use crate::pretokenize::keys::{le_value, lemma_le_value_bound, lemma_le_value_injective, pow256};
use crate::seqs::bytes_equal;
use crate::token::TokenId;

verus! {

/// The packed prefix of a pretoken: its first 8 bytes, or all of a shorter one,
/// read as two words that may overlap.
pub open spec fn packed(s: Seq<u8>) -> int {
    if s.len() >= 8 {
        le_value(s.take(8)) as int
    } else if s.len() >= 4 {
        (le_value(s.take(4)) + 0x1_0000_0000 * le_value(s.skip(s.len() - 4))) as int
    } else if s.len() >= 2 {
        le_value(s.take(2)) + 0x1_0000 * s.last()
    } else {
        s[0] as int
    }
}

proof fn lemma_pow256_values()
    ensures
        pow256(2) == 0x1_0000,
        pow256(4) == 0x1_0000_0000,
        pow256(8) == 0x1_0000_0000_0000_0000,
{
    reveal_with_fuel(pow256, 9);
}

/// A packed prefix fits in 64 bits.
pub proof fn lemma_packed_bound(s: Seq<u8>)
    requires
        s.len() > 0,
    ensures
        0 <= packed(s) <= u64::MAX,
{
    lemma_pow256_values();
    if s.len() >= 8 {
        lemma_le_value_bound(s.take(8));
    } else if s.len() >= 4 {
        lemma_le_value_bound(s.take(4));
        lemma_le_value_bound(s.skip(s.len() - 4));
    } else if s.len() >= 2 {
        lemma_le_value_bound(s.take(2));
    }
}

/// Pretokens of one length and one packed prefix agree on their first 8 bytes.
pub proof fn lemma_packed_injective(a: Seq<u8>, b: Seq<u8>)
    requires
        a.len() == b.len(),
        a.len() > 0,
        packed(a) == packed(b),
    ensures
        a.len() <= 8 ==> a == b,
        a.len() > 8 ==> a.take(8) == b.take(8),
{
    lemma_pow256_values();
    let n = a.len() as int;
    if n >= 8 {
        lemma_le_value_injective(a.take(8), b.take(8));
        if n == 8 {
            assert(a.take(8) =~= a && b.take(8) =~= b);
        }
    } else if n >= 4 {
        lemma_le_value_bound(a.take(4));
        lemma_le_value_bound(b.take(4));
        lemma_le_value_injective(a.take(4), b.take(4));
        lemma_le_value_injective(a.skip(n - 4), b.skip(n - 4));
        assert forall|i: int| 0 <= i < n implies a[i] == b[i] by {
            if i < 4 {
                assert(a.take(4)[i] == b.take(4)[i]);
            } else {
                assert(a.skip(n - 4)[i - (n - 4)] == b.skip(n - 4)[i - (n - 4)]);
            }
        }
        assert(a =~= b);
    } else if n >= 2 {
        lemma_le_value_bound(a.take(2));
        lemma_le_value_bound(b.take(2));
        lemma_le_value_injective(a.take(2), b.take(2));
        assert forall|i: int| 0 <= i < n implies a[i] == b[i] by {
            if i < 2 {
                assert(a.take(2)[i] == b.take(2)[i]);
            }
        }
        assert(a =~= b);
    } else {
        assert(a =~= b);
    }
}

/// The word of up to 8 bytes from `at` on, the first byte lowest.
fn word(bytes: &[u8], at: usize, n: usize) -> (w: u64)
    requires
        n <= 8,
        at + n <= bytes@.len(),
    ensures
        w == le_value(bytes@.subrange(at as int, at + n)),
{
    let ghost part = bytes@.subrange(at as int, at + n);
    let len: usize = bytes.len();
    let mut w: u64 = 0;
    let mut i: usize = n;
    assert(part.skip(n as int) =~= Seq::<u8>::empty());
    while i > 0
        invariant
            n <= 8,
            len == bytes@.len(),
            at + n <= len,
            part == bytes@.subrange(at as int, at + n),
            i <= n,
            w == le_value(part.skip(i as int)),
        decreases i,
    {
        i = i - 1;
        proof {
            let t = part.skip(i as int);
            assert(t.drop_first() =~= part.skip(i as int + 1));
            assert(t[0] == bytes@[at + i]);
            lemma_le_value_bound(part.skip(i as int + 1));
            lemma_word_fits((n - i - 1) as nat);
        }
        w = w * 256 + bytes[at + i] as u64;
    }
    assert(part.skip(0) =~= part);
    w
}

proof fn lemma_word_fits(k: nat)
    requires
        k <= 7,
    ensures
        pow256(k) <= 0x100_0000_0000_0000,
{
    reveal_with_fuel(pow256, 8);
}

/// Pack pretoken bytes into a word, reading parts that may overlap.
pub fn pack8(bytes: &[u8]) -> (w: u64)
    requires
        bytes@.len() > 0,
    ensures
        w == packed(bytes@),
{
    let len: usize = bytes.len();
    proof {
        lemma_packed_bound(bytes@);
    }
    if len >= 8 {
        assert(bytes@.subrange(0, 8) =~= bytes@.take(8));
        word(bytes, 0, 8)
    } else if len >= 4 {
        let lo: u64 = word(bytes, 0, 4);
        let hi: u64 = word(bytes, len - 4, 4);
        proof {
            assert(bytes@.subrange(0, 4) =~= bytes@.take(4));
            assert(bytes@.subrange(len - 4, len as int) =~= bytes@.skip(len - 4));
        }
        lo + hi * 0x1_0000_0000
    } else if len >= 2 {
        let lo: u64 = word(bytes, 0, 2);
        let hi: u64 = bytes[len - 1] as u64;
        assert(bytes@.subrange(0, 2) =~= bytes@.take(2));
        lo + hi * 0x1_0000
    } else {
        bytes[0] as u64
    }
}

/// The two halves of a product, mixed.
pub open spec fn folded(a: u64, b: u64) -> u64 {
    let r = (a * b) as u128;
    ((r & 0xFFFF_FFFF_FFFF_FFFF) as u64) ^ ((r >> 64) as u64)
}

fn fold(a: u64, b: u64) -> (h: u64)
    ensures
        h == folded(a, b),
{
    assert(0 <= a * b <= 0xFFFF_FFFF_FFFF_FFFF * 0xFFFF_FFFF_FFFF_FFFF) by (nonlinear_arith)
        requires
            0 <= a <= 0xFFFF_FFFF_FFFF_FFFF,
            0 <= b <= 0xFFFF_FFFF_FFFF_FFFF,
    ;
    let r: u128 = a as u128 * b as u128;
    ((r & 0xFFFF_FFFF_FFFF_FFFF) as u64) ^ ((r >> 64) as u64)
}

/// The hash of a packed prefix and a length.
pub open spec fn prefix_hashed(w: u64, len: u16) -> u64 {
    folded(w, len as u64 ^ 0xe703_7ed1_a0b4_28dbu64) | 1u64
}

/// Hash from packed prefix and length via 128-bit multiply. It is never 0.
pub fn prefix_hash(w: u64, len: u16) -> (h: u64)
    ensures
        h == prefix_hashed(w, len),
        h != 0,
{
    let f: u64 = fold(w, len as u64 ^ 0xe703_7ed1_a0b4_28db);
    assert(f | 1u64 != 0) by (bit_vector);
    f | 1
}

/// The state of the hash of all bytes once the words from `i` on are mixed in.
pub open spec fn words_hashed(s: Seq<u8>, i: int, h: u64) -> u64
    decreases s.len() - i,
{
    if i + 8 <= s.len() && 0 <= i {
        let w = le_value(s.subrange(i, i + 8)) as u64;
        words_hashed(s, i + 8, folded(h ^ w, 0xe703_7ed1_a0b4_28dbu64))
    } else if i < s.len() && s.len() >= 8 {
        let w = le_value(s.subrange(s.len() - 8, s.len() as int)) as u64;
        folded(h ^ w, 0x8a5c_d789_635d_2dffu64)
    } else {
        h
    }
}

/// The hash of all bytes.
pub open spec fn full_hashed(s: Seq<u8>) -> u64 {
    words_hashed(s, 0, s.len() as u64 ^ 0xa076_1d64_78bd_642fu64) | 1u64
}

/// Full hash for long byte slices. Reads all bytes. It is never 0.
pub fn full_hash(bytes: &[u8]) -> (r: u64)
    requires
        bytes@.len() >= 8,
    ensures
        r == full_hashed(bytes@),
        r != 0,
{
    let len: usize = bytes.len();
    let mut h: u64 = len as u64 ^ 0xa076_1d64_78bd_642f;
    let ghost want = words_hashed(bytes@, 0, h);
    let mut i: usize = 0;
    while len - i >= 8
        invariant
            len == bytes@.len(),
            len >= 8,
            i <= len,
            words_hashed(bytes@, i as int, h) == want,
        decreases len - i,
    {
        h = fold(h ^ word(bytes, i, 8), 0xe703_7ed1_a0b4_28db);
        i = i + 8;
    }
    if i < len {
        h = fold(h ^ word(bytes, len - 8, 8), 0x8a5c_d789_635d_2dff);
    }
    assert(h | 1u64 != 0) by (bit_vector);
    h | 1
}

/// What a slot holds of an encoded pretoken.
#[derive(Clone, Copy)]
pub struct Slot {
    /// The packed prefix.
    pub prefix8: u64,
    /// The hash; 0 where the slot is empty.
    pub fp: u64,
    /// The token, where there is one; else where the tokens start in the store.
    pub tok_or_idx: usize,
    /// Where the pretoken stands in the entries, if it is longer than 8 bytes.
    pub entry_idx: usize,
    pub pt_len: usize,
    pub n_tok: usize,
}

/// How a pretoken becomes tokens.
pub type Coder = spec_fn(Seq<u8>) -> Seq<TokenId>;

/// Whether a slot holds what it must of a pretoken.
pub open spec fn stands_for(slot: Slot, entries: Seq<&[u8]>, p: Seq<u8>) -> bool {
    &&& slot.pt_len == p.len()
    &&& p.len() > 0
    &&& slot.prefix8 == packed(p)
    &&& p.len() > 8 ==> slot.entry_idx < entries.len() && entries[slot.entry_idx as int]@ == p
}

/// Whether the tokens of a slot lie in the store.
pub open spec fn in_store(slot: Slot, store: Seq<TokenId>) -> bool {
    if slot.n_tok == 1 {
        slot.tok_or_idx <= u32::MAX
    } else {
        slot.tok_or_idx + slot.n_tok <= store.len()
    }
}

/// The tokens of a slot.
pub open spec fn slot_tokens(slot: Slot, store: Seq<TokenId>) -> Seq<TokenId> {
    if slot.n_tok == 1 {
        seq![TokenId(slot.tok_or_idx as u32)]
    } else {
        store.subrange(slot.tok_or_idx as int, slot.tok_or_idx + slot.n_tok)
    }
}

/// The hash of a pretoken.
pub open spec fn hashed(p: Seq<u8>) -> u64 {
    if p.len() <= 8 {
        prefix_hashed(packed(p) as u64, p.len() as u16)
    } else {
        full_hashed(p)
    }
}

/// Whether a filled slot is one of the pretoken `p`.
spec fn slot_of(slot: Slot, entries: Seq<&[u8]>, store: Seq<TokenId>, p: Seq<u8>) -> bool {
    &&& slot.fp == hashed(p)
    &&& stands_for(slot, entries, p)
    &&& in_store(slot, store)
}

/// The slot `k` steps on from the home of a hash, of `n` in a ring.
spec fn walk(fp: u64, k: int, n: int) -> int {
    let home = fp as int % n;
    if home + k < n {
        home + k
    } else {
        home + k - n
    }
}

/// Whether the first `k` slots from the home of a hash on are filled.
spec fn path(slots: Seq<Slot>, fp: u64, k: int) -> bool {
    forall|j: int| 0 <= j < k ==> slots[#[trigger] walk(fp, j, slots.len() as int)].fp != 0
}

/// Whether a walk from the home of a hash over filled slots comes to slot `i`.
spec fn reaches(slots: Seq<Slot>, fp: u64, i: int) -> bool {
    exists|k: int| #[trigger]
        path(slots, fp, k) && 0 <= k < slots.len() && walk(fp, k, slots.len() as int) == i
}

/// Whether slot `i` is filled and is that of `p`.
spec fn holds_at(slots: Seq<Slot>, keys: Seq<Seq<u8>>, i: int, p: Seq<u8>) -> bool {
    0 <= i < slots.len() && slots[i].fp != 0 && keys[i] == p
}

/// Whether no pretoken has two slots.
spec fn distinct(slots: Seq<Slot>, keys: Seq<Seq<u8>>) -> bool {
    forall|i: int, j: int, p: Seq<u8>| #[trigger]
        holds_at(slots, keys, i, p) && #[trigger] holds_at(slots, keys, j, p) ==> i == j
}

/// Whether each filled slot is that of its pretoken, and where it is looked for.
spec fn placed(
    slots: Seq<Slot>,
    keys: Seq<Seq<u8>>,
    entries: Seq<&[u8]>,
    store: Seq<TokenId>,
) -> bool {
    &&& keys.len() == slots.len()
    &&& distinct(slots, keys)
    &&& forall|i: int|
        0 <= i < slots.len() && (#[trigger] slots[i]).fp != 0 ==> slot_of(
            slots[i],
            entries,
            store,
            keys[i],
        ) && reaches(slots, slots[i].fp, i)
}

/// The tokens of the pretokens that have a slot.
spec fn contents(slots: Seq<Slot>, keys: Seq<Seq<u8>>, store: Seq<TokenId>) -> Map<
    Seq<u8>,
    Seq<TokenId>,
> {
    Map::new(
        |p: Seq<u8>| exists|i: int| holds_at(slots, keys, i, p),
        |p: Seq<u8>| slot_tokens(slots[choose|i: int| holds_at(slots, keys, i, p)], store),
    )
}

/// What a filled slot says of its pretoken.
proof fn lemma_contents_at(
    slots: Seq<Slot>,
    keys: Seq<Seq<u8>>,
    store: Seq<TokenId>,
    i: int,
    p: Seq<u8>,
)
    requires
        distinct(slots, keys),
        holds_at(slots, keys, i, p),
    ensures
        contents(slots, keys, store).contains_key(p),
        contents(slots, keys, store)[p] == slot_tokens(slots[i], store),
{
    let c = choose|c: int| holds_at(slots, keys, c, p);
    assert(c == i);
}

/// A pretoken has no slot if a walk from its home meets an empty one first.
proof fn lemma_absent(
    slots: Seq<Slot>,
    keys: Seq<Seq<u8>>,
    entries: Seq<&[u8]>,
    store: Seq<TokenId>,
    p: Seq<u8>,
    k: int,
)
    requires
        placed(slots, keys, entries, store),
        0 <= k < slots.len(),
        slots[walk(hashed(p), k, slots.len() as int)].fp == 0,
        forall|j: int|
            0 <= j < k ==> keys[#[trigger] walk(hashed(p), j, slots.len() as int)] != p,
    ensures
        forall|i: int| !#[trigger] holds_at(slots, keys, i, p),
{
    let n = slots.len() as int;
    assert forall|i: int| !#[trigger] holds_at(slots, keys, i, p) by {
        if holds_at(slots, keys, i, p) {
            assert(slot_of(slots[i], entries, store, keys[i]));
            let fp = slots[i].fp;
            let d = choose|d: int| #[trigger]
                path(slots, fp, d) && 0 <= d < slots.len() && walk(fp, d, slots.len() as int) == i;
            assert(path(slots, fp, d) && walk(fp, d, n) == i);
            if d > k {
                assert(slots[walk(fp, k, n)].fp != 0);
            }
        }
    }
}

/// A pretoken without a slot gets one, where it is looked for.
proof fn lemma_place(
    slots: Seq<Slot>,
    keys: Seq<Seq<u8>>,
    entries: Seq<&[u8]>,
    store: Seq<TokenId>,
    at: int,
    slot: Slot,
    p: Seq<u8>,
)
    requires
        placed(slots, keys, entries, store),
        0 <= at < slots.len(),
        slots[at].fp == 0,
        slot.fp != 0,
        slot_of(slot, entries, store, p),
        reaches(slots, slot.fp, at),
        forall|i: int| !#[trigger] holds_at(slots, keys, i, p),
    ensures
        placed(slots.update(at, slot), keys.update(at, p), entries, store),
        contents(slots.update(at, slot), keys.update(at, p), store) == contents(
            slots,
            keys,
            store,
        ).insert(p, slot_tokens(slot, store)),
{
    let n = slots.len() as int;
    let slots1 = slots.update(at, slot);
    let keys1 = keys.update(at, p);
    assert forall|i: int, q: Seq<u8>| #[trigger] holds_at(slots1, keys1, i, q) implies if i == at {
        q == p
    } else {
        holds_at(slots, keys, i, q) && q != p
    } by {
        if i != at {
            assert(holds_at(slots, keys, i, q));
        }
    }
    assert(distinct(slots1, keys1));
    assert forall|fp: u64, i: int| #[trigger] reaches(slots, fp, i) implies reaches(
        slots1,
        fp,
        i,
    ) by {
        let k = choose|k: int| #[trigger]
            path(slots, fp, k) && 0 <= k < slots.len() && walk(fp, k, slots.len() as int) == i;
        assert(path(slots1, fp, k)) by {
            assert forall|j: int| 0 <= j < k implies slots1[#[trigger] walk(fp, j, n)].fp != 0 by {
                assert(slots[walk(fp, j, n)].fp != 0);
                lemma_walk_in(fp, j, n);
            }
        }
    }
    assert forall|i: int| 0 <= i < n && (#[trigger] slots1[i]).fp != 0 implies slot_of(
        slots1[i],
        entries,
        store,
        keys1[i],
    ) && reaches(slots1, slots1[i].fp, i) by {
        if i != at {
            assert(slots1[i] == slots[i]);
            assert(reaches(slots, slots[i].fp, i));
        }
    }
    let c0 = contents(slots, keys, store).insert(p, slot_tokens(slot, store));
    let c1 = contents(slots1, keys1, store);
    assert(holds_at(slots1, keys1, at, p));
    lemma_contents_at(slots1, keys1, store, at, p);
    assert forall|q: Seq<u8>| #[trigger] c1.dom().contains(q) == c0.dom().contains(q) by {
        if q != p {
            if c1.contains_key(q) {
                let i = choose|i: int| holds_at(slots1, keys1, i, q);
                assert(holds_at(slots, keys, i, q));
            }
            if c0.contains_key(q) {
                let i = choose|i: int| holds_at(slots, keys, i, q);
                assert(holds_at(slots1, keys1, i, q));
            }
        }
    }
    assert forall|q: Seq<u8>| #[trigger] c1.dom().contains(q) implies c1[q] == c0[q] by {
        if q != p {
            let i = choose|i: int| holds_at(slots1, keys1, i, q);
            assert(holds_at(slots, keys, i, q));
            lemma_contents_at(slots, keys, store, i, q);
            lemma_contents_at(slots1, keys1, store, i, q);
        }
    }
    assert(c1 =~= c0);
}

/// A walk stays in the ring for one round.
proof fn lemma_walk_in(fp: u64, k: int, n: int)
    requires
        0 <= k < n,
    ensures
        0 <= walk(fp, k, n) < n,
{
}

/// A walk of one round comes by every slot.
proof fn lemma_walk_all(slots: Seq<Slot>, fp: u64)
    requires
        slots.len() > 0,
        path(slots, fp, slots.len() as int),
    ensures
        forall|i: int| 0 <= i < slots.len() ==> (#[trigger] slots[i]).fp != 0,
{
    let n = slots.len() as int;
    let home = fp as int % n;
    assert forall|i: int| 0 <= i < n implies (#[trigger] slots[i]).fp != 0 by {
        let k = if i >= home {
            i - home
        } else {
            i - home + n
        };
        assert(walk(fp, k, n) == i);
    }
}

/// Slots stay what they were as the lists behind them grow.
proof fn lemma_lists_grow(
    slots: Seq<Slot>,
    keys: Seq<Seq<u8>>,
    entries: Seq<&[u8]>,
    more_entries: Seq<&[u8]>,
    store: Seq<TokenId>,
    more_store: Seq<TokenId>,
)
    requires
        placed(slots, keys, entries, store),
        entries.is_prefix_of(more_entries),
        store.is_prefix_of(more_store),
    ensures
        placed(slots, keys, more_entries, more_store),
        contents(slots, keys, more_store) == contents(slots, keys, store),
{
    assert forall|i: int| 0 <= i < slots.len() && (#[trigger] slots[i]).fp != 0 implies slot_of(
        slots[i],
        more_entries,
        more_store,
        keys[i],
    ) && slot_tokens(slots[i], more_store) == slot_tokens(slots[i], store) by {
        assert(slot_of(slots[i], entries, store, keys[i]));
        assert(slot_tokens(slots[i], more_store) =~= slot_tokens(slots[i], store));
    }
    let c0 = contents(slots, keys, store);
    let c1 = contents(slots, keys, more_store);
    assert forall|p: Seq<u8>| #[trigger] c0.contains_key(p) implies c1[p] == c0[p] by {
        let i = choose|i: int| holds_at(slots, keys, i, p);
        lemma_contents_at(slots, keys, store, i, p);
        lemma_contents_at(slots, keys, more_store, i, p);
    }
    assert(c1 =~= c0);
}

/// What one more slot adds to the contents of the first `i`.
proof fn lemma_contents_take(slots: Seq<Slot>, keys: Seq<Seq<u8>>, store: Seq<TokenId>, i: int)
    requires
        distinct(slots, keys),
        keys.len() == slots.len(),
        0 <= i < slots.len(),
    ensures
        slots[i].fp == 0 ==> contents(slots.take(i + 1), keys.take(i + 1), store) == contents(
            slots.take(i),
            keys.take(i),
            store,
        ),
        slots[i].fp != 0 ==> {
            &&& !contents(slots.take(i), keys.take(i), store).contains_key(keys[i])
            &&& contents(slots.take(i + 1), keys.take(i + 1), store) == contents(
                slots.take(i),
                keys.take(i),
                store,
            ).insert(keys[i], slot_tokens(slots[i], store))
        },
{
    let (s0, k0) = (slots.take(i), keys.take(i));
    let (s1, k1) = (slots.take(i + 1), keys.take(i + 1));
    assert forall|j: int, p: Seq<u8>| #[trigger] holds_at(s1, k1, j, p) implies holds_at(
        slots,
        keys,
        j,
        p,
    ) && (j < i ==> holds_at(s0, k0, j, p)) by {}
    assert forall|j: int, p: Seq<u8>| #[trigger] holds_at(s0, k0, j, p) implies holds_at(
        s1,
        k1,
        j,
        p,
    ) by {}
    assert(distinct(s1, k1));
    assert(distinct(s0, k0));
    let c0 = contents(s0, k0, store);
    let c1 = contents(s1, k1, store);
    let filled_here = slots[i].fp != 0;
    let want = if filled_here {
        c0.insert(keys[i], slot_tokens(slots[i], store))
    } else {
        c0
    };
    if filled_here {
        assert(holds_at(s1, k1, i, keys[i]));
        lemma_contents_at(s1, k1, store, i, keys[i]);
        if c0.contains_key(keys[i]) {
            let j = choose|j: int| holds_at(s0, k0, j, keys[i]);
            assert(holds_at(s1, k1, j, keys[i]));
        }
    }
    assert forall|p: Seq<u8>| c1.contains_key(p) == want.contains_key(p) && (want.contains_key(p)
        ==> c1[p] == want[p]) by {
        if c1.contains_key(p) {
            let j = choose|j: int| holds_at(s1, k1, j, p);
            if j < i {
                assert(holds_at(s0, k0, j, p));
            }
        }
        if c0.contains_key(p) {
            let j = choose|j: int| holds_at(s0, k0, j, p);
            assert(holds_at(s1, k1, j, p));
            lemma_contents_at(s0, k0, store, j, p);
            lemma_contents_at(s1, k1, store, j, p);
        }
    }
    assert(c1 =~= want);
}

/// How many slots are filled.
spec fn filled(slots: Seq<Slot>) -> int
    decreases slots.len(),
{
    if slots.len() == 0 {
        0
    } else {
        filled(slots.drop_last()) + if slots.last().fp != 0 {
            1int
        } else {
            0
        }
    }
}

proof fn lemma_filled_set(slots: Seq<Slot>, i: int, slot: Slot)
    requires
        0 <= i < slots.len(),
        slots[i].fp == 0,
        slot.fp != 0,
    ensures
        filled(slots.update(i, slot)) == filled(slots) + 1,
    decreases slots.len(),
{
    let t = slots.update(i, slot);
    if i == slots.len() - 1 {
        assert(t.drop_last() =~= slots.drop_last());
    } else {
        assert(t.drop_last() =~= slots.drop_last().update(i, slot));
        lemma_filled_set(slots.drop_last(), i, slot);
    }
}

proof fn lemma_filled_all(slots: Seq<Slot>)
    ensures
        0 <= filled(slots) <= slots.len(),
        (forall|i: int| 0 <= i < slots.len() ==> (#[trigger] slots[i]).fp != 0) ==> filled(slots)
            == slots.len(),
        (forall|i: int| 0 <= i < slots.len() ==> (#[trigger] slots[i]).fp == 0) ==> filled(slots)
            == 0,
    decreases slots.len(),
{
    if slots.len() > 0 {
        let init = slots.drop_last();
        lemma_filled_all(init);
        assert(slots[slots.len() - 1] == slots.last());
        if forall|i: int| 0 <= i < slots.len() ==> (#[trigger] slots[i]).fp != 0 {
            assert forall|i: int| 0 <= i < init.len() implies (#[trigger] init[i]).fp != 0 by {
                assert(init[i] == slots[i]);
            }
        }
        if forall|i: int| 0 <= i < slots.len() ==> (#[trigger] slots[i]).fp == 0 {
            assert forall|i: int| 0 <= i < init.len() implies (#[trigger] init[i]).fp == 0 by {
                assert(init[i] == slots[i]);
            }
        }
    }
}

/// A slot that matches a pretoken is the slot of no other.
proof fn lemma_match_is_right(slot: Slot, entries: Seq<&[u8]>, p: Seq<u8>, q: Seq<u8>)
    requires
        stands_for(slot, entries, p),
        slot.pt_len == q.len(),
        slot.prefix8 == packed(q),
        q.len() > 8 ==> entries[slot.entry_idx as int]@.skip(8) == q.skip(8),
    ensures
        p == q,
{
    lemma_packed_injective(p, q);
    if p.len() > 8 {
        assert(p =~= p.take(8) + p.skip(8));
        assert(q =~= q.take(8) + q.skip(8));
    }
}

/// Encoded pretokens by their bytes.
pub struct SlotTable<'a> {
    slots: Vec<Slot>,
    n_entries: usize,
    /// The pretokens that are longer than 8 bytes.
    entries: Vec<&'a [u8]>,
    tok_store: Vec<TokenId>,
    /// The pretoken of each filled slot.
    keys: Ghost<Seq<Seq<u8>>>,
}

impl<'a> View for SlotTable<'a> {
    type V = Map<Seq<u8>, Seq<TokenId>>;

    /// The tokens of each pretoken that the table has.
    closed spec fn view(&self) -> Map<Seq<u8>, Seq<TokenId>> {
        contents(self.slots@, self.keys@, self.tok_store@)
    }
}

impl<'a> SlotTable<'a> {
    /// Each pretoken is where it is looked for, and there is an empty slot. No
    /// more than half of the slots are filled, but where there are too many to
    /// double them.
    pub closed spec fn wf(self) -> bool {
        &&& self.slots@.len() >= 2
        &&& self.n_entries == filled(self.slots@)
        &&& self.n_entries < self.slots@.len()
        &&& 2 * self.n_entries <= self.slots@.len() || self.slots@.len() > usize::MAX / 2
        &&& placed(self.slots@, self.keys@, self.entries@, self.tok_store@)
    }

    /// Every pretoken of the table is with its tokens.
    pub open spec fn sound(self, code: Coder) -> bool {
        forall|p: Seq<u8>| #[trigger] self@.contains_key(p) ==> self@[p] == code(p)
    }

    /// Whether the table neither has room for one more pretoken nor grows.
    pub closed spec fn at_limit(self) -> bool {
        self.n_entries + 1 >= self.slots@.len() && self.slots@.len() > usize::MAX / 2
    }

    /// A table for `total_bytes` of text.
    pub fn for_text(total_bytes: usize) -> (t: Self)
        ensures
            t.wf(),
            t@ == Map::<Seq<u8>, Seq<TokenId>>::empty(),
            forall|code: Coder| #[trigger] t.sound(code),
    {
        let share: usize = total_bytes / 300;
        let est_unique: usize = if share < 4096 {
            4096
        } else {
            share
        };
        let mut cap: usize = 4096;
        while cap < est_unique * 2
            invariant
                4096 <= cap,
                est_unique == 4096 || est_unique * 300 <= usize::MAX,
            decreases
                    if cap < est_unique * 2 {
                        est_unique * 2 - cap
                    } else {
                        0
                    },
        {
            cap = cap * 2;
        }
        let slots: Vec<Slot> = empty_slots(cap);
        let ghost keys = Seq::new(cap as nat, |i: int| Seq::<u8>::empty());
        proof {
            lemma_filled_all(slots@);
            assert forall|i: int, p: Seq<u8>| !#[trigger] holds_at(slots@, keys, i, p) by {}
        }
        let t = SlotTable {
            slots,
            n_entries: 0,
            entries: Vec::new(),
            tok_store: Vec::new(),
            keys: Ghost(keys),
        };
        assert(t@ =~= Map::<Seq<u8>, Seq<TokenId>>::empty());
        t
    }

    /// The slot of a pretoken, or the empty slot where it would go.
    fn probe(&self, bytes: &[u8], w: u64, fp: u64) -> (r: (usize, bool))
        requires
            self.wf(),
            bytes@.len() > 0,
            w == packed(bytes@),
            fp == hashed(bytes@),
        ensures
            r.0 < self.slots@.len(),
            r.1 == self@.contains_key(bytes@),
            r.1 ==> {
                let slot = self.slots@[r.0 as int];
                &&& in_store(slot, self.tok_store@)
                &&& slot_tokens(slot, self.tok_store@) == self@[bytes@]
            },
            !r.1 ==> {
                &&& self.slots@[r.0 as int].fp == 0
                &&& reaches(self.slots@, fp, r.0 as int)
                &&& forall|i: int| !#[trigger] holds_at(self.slots@, self.keys@, i, bytes@)
            },
    {
        let n: usize = self.slots.len();
        let start: usize = (fp % (n as u64)) as usize;
        let blen: usize = bytes.len();
        let mut si: usize = start;
        let mut steps: usize = 0;
        assert(fp % (n as u64) < n);
        while steps < n
            invariant
                self.wf(),
                n == self.slots@.len(),
                bytes@.len() > 0,
                blen == bytes@.len(),
                w == packed(bytes@),
                fp == hashed(bytes@),
                si < n,
                steps <= n,
                steps < n ==> si == walk(fp, steps as int, n as int),
                path(self.slots@, fp, steps as int),
                forall|j: int|
                    0 <= j < steps ==> self.keys@[#[trigger] walk(fp, j, n as int)] != bytes@,
            decreases n - steps,
        {
            let slot: Slot = self.slots[si];
            if slot.fp == 0 {
                proof {
                    lemma_absent(
                        self.slots@,
                        self.keys@,
                        self.entries@,
                        self.tok_store@,
                        bytes@,
                        steps as int,
                    );
                }
                return (si, false);
            }
            let ghost p = self.keys@[si as int];
            assert(slot_of(slot, self.entries@, self.tok_store@, p));
            if slot.fp == fp && slot.pt_len == blen && slot.prefix8 == w {
                let verified: bool = blen <= 8 || same_tail(self.entries[slot.entry_idx], bytes);
                if verified {
                    proof {
                        lemma_match_is_right(slot, self.entries@, p, bytes@);
                        lemma_contents_at(
                            self.slots@,
                            self.keys@,
                            self.tok_store@,
                            si as int,
                            bytes@,
                        );
                    }
                    return (si, true);
                }
            }
            steps = steps + 1;
            si = if si + 1 < n {
                si + 1
            } else {
                0
            };
        }
        proof {
            lemma_walk_all(self.slots@, fp);
            lemma_filled_all(self.slots@);
            assert(false);
        }
        (0, false)
    }

    /// Append the tokens of a pretoken to `out`, where the table has them.
    pub fn emit(&self, bytes: &[u8], out: &mut Vec<TokenId>) -> (r: bool)
        requires
            self.wf(),
            bytes@.len() > 0,
        ensures
            r == self@.contains_key(bytes@),
            r ==> final(out)@ == old(out)@ + self@[bytes@],
            !r ==> final(out)@ == old(out)@,
    {
        let ghost before = out@;
        let w: u64 = pack8(bytes);
        let (at, found): (usize, bool) = self.probe(bytes, w, hash_of(bytes, w));
        if !found {
            return false;
        }
        let slot: Slot = self.slots[at];
        if slot.n_tok == 1 {
            let t: TokenId = TokenId(slot.tok_or_idx as u32);
            out.push(t);
            assert(out@ =~= before + seq![t]);
        } else {
            assert(slot.tok_or_idx + slot.n_tok <= self.tok_store.len());
            let end: usize = slot.tok_or_idx + slot.n_tok;
            append_tokens(out, &self.tok_store[slot.tok_or_idx..end]);
        }
        true
    }

    /// How many tokens a pretoken has, where the table has them.
    pub fn count(&self, bytes: &[u8]) -> (r: Option<usize>)
        requires
            self.wf(),
            bytes@.len() > 0,
        ensures
            match r {
                Some(n) => self@.contains_key(bytes@) && n == self@[bytes@].len(),
                None => !self@.contains_key(bytes@),
            },
    {
        let w: u64 = pack8(bytes);
        let (at, found): (usize, bool) = self.probe(bytes, w, hash_of(bytes, w));
        if found {
            Some(self.slots[at].n_tok)
        } else {
            None
        }
    }

    /// Store the tokens of a pretoken that the table does not have. A table that
    /// does not grow any more is left as it is.
    pub(crate) fn store(&mut self, bytes: &'a [u8], tokens: &[TokenId])
        requires
            old(self).wf(),
            bytes@.len() > 0,
        ensures
            final(self).wf(),
            final(self)@ == if old(self)@.contains_key(bytes@) || old(self).at_limit() {
                old(self)@
            } else {
                old(self)@.insert(bytes@, tokens@)
            },
    {
        let cap: usize = self.slots.len();
        if self.n_entries >= cap - 1 && cap > usize::MAX / 2 {
            return;
        }
        let w: u64 = pack8(bytes);
        let fp: u64 = hash_of(bytes, w);
        let (at, found): (usize, bool) = self.probe(bytes, w, fp);
        if found {
            return;
        }
        let ghost slots0 = self.slots@;
        let ghost keys0 = self.keys@;
        let ghost entries0 = self.entries@;
        let ghost store0 = self.tok_store@;
        let entry_idx: usize = self.entries.len();
        if bytes.len() > 8 {
            self.entries.push(bytes);
        }
        let n_tok: usize = tokens.len();
        let tok_or_idx: usize = if n_tok == 1 {
            tokens[0].0 as usize
        } else {
            let start: usize = self.tok_store.len();
            append_tokens(&mut self.tok_store, tokens);
            start
        };
        let slot = Slot { prefix8: w, fp, tok_or_idx, entry_idx, pt_len: bytes.len(), n_tok };
        proof {
            assert(stands_for(slot, self.entries@, bytes@));
            assert(slot_tokens(slot, self.tok_store@) =~= tokens@);
            lemma_filled_set(slots0, at as int, slot);
            lemma_lists_grow(
                slots0,
                keys0,
                entries0,
                self.entries@,
                store0,
                self.tok_store@,
            );
            lemma_place(
                slots0,
                keys0,
                self.entries@,
                self.tok_store@,
                at as int,
                slot,
                bytes@,
            );
        }
        self.slots.set(at, slot);
        self.keys = Ghost(keys0.update(at as int, bytes@));
        self.n_entries = self.n_entries + 1;
        if self.n_entries > cap / 2 && cap <= usize::MAX / 2 {
            self.grow();
        }
    }

    /// Twice as many slots, with the same contents.
    fn grow(&mut self)
        requires
            2 <= old(self).slots@.len() <= usize::MAX / 2,
            old(self).n_entries == filled(old(self).slots@),
            old(self).n_entries <= old(self).slots@.len(),
            placed(
                old(self).slots@,
                old(self).keys@,
                old(self).entries@,
                old(self).tok_store@,
            ),
        ensures
            final(self).wf(),
            final(self)@ == old(self)@,
            final(self).slots@.len() == 2 * old(self).slots@.len(),
    {
        let n: usize = self.slots.len();
        let new_cap: usize = n * 2;
        let mut slots: Vec<Slot> = empty_slots(new_cap);
        let ghost mut keys = Seq::new(new_cap as nat, |i: int| Seq::<u8>::empty());
        proof {
            lemma_filled_all(slots@);
            assert(self.slots@.take(0) =~= Seq::<Slot>::empty());
            assert forall|i: int, p: Seq<u8>| !#[trigger] holds_at(slots@, keys, i, p) by {}
            assert forall|i: int, p: Seq<u8>|
                !#[trigger] holds_at(self.slots@.take(0), self.keys@.take(0), i, p) by {}
            assert(contents(slots@, keys, self.tok_store@) =~= contents(
                self.slots@.take(0),
                self.keys@.take(0),
                self.tok_store@,
            ));
        }
        for i in 0..n
            invariant
                n == self.slots@.len(),
                n >= 2,
                new_cap == 2 * n,
                new_cap == slots@.len(),
                placed(self.slots@, self.keys@, self.entries@, self.tok_store@),
                filled(slots@) == filled(self.slots@.take(i as int)),
                placed(slots@, keys, self.entries@, self.tok_store@),
                contents(slots@, keys, self.tok_store@) == contents(
                    self.slots@.take(i as int),
                    self.keys@.take(i as int),
                    self.tok_store@,
                ),
        {
            let s: Slot = self.slots[i];
            let ghost p = self.keys@[i as int];
            proof {
                let t = self.slots@.take(i as int + 1);
                assert(t.drop_last() =~= self.slots@.take(i as int));
                assert(t.last() == self.slots@[i as int]);
                lemma_filled_all(self.slots@.take(i as int));
                lemma_contents_take(self.slots@, self.keys@, self.tok_store@, i as int);
            }
            if s.fp != 0 {
                let at: usize = free_slot(&slots, s.fp);
                proof {
                    assert(slot_of(self.slots@[i as int], self.entries@, self.tok_store@, p));
                    assert forall|k: int| !#[trigger] holds_at(slots@, keys, k, p) by {
                        if holds_at(slots@, keys, k, p) {
                            lemma_contents_at(slots@, keys, self.tok_store@, k, p);
                        }
                    }
                    lemma_filled_set(slots@, at as int, s);
                    lemma_place(slots@, keys, self.entries@, self.tok_store@, at as int, s, p);
                    keys = keys.update(at as int, p);
                }
                slots.set(at, s);
            }
        }
        proof {
            assert(self.slots@.take(n as int) =~= self.slots@);
            assert(self.keys@.take(n as int) =~= self.keys@);
        }
        self.slots = slots;
        self.keys = Ghost(keys);
    }
}

fn empty_slots(n: usize) -> (slots: Vec<Slot>)
    ensures
        slots@.len() == n,
        forall|i: int| 0 <= i < n ==> (#[trigger] slots@[i]).fp == 0,
{
    let mut slots: Vec<Slot> = Vec::with_capacity(n);
    let empty = Slot { prefix8: 0, fp: 0, tok_or_idx: 0, entry_idx: 0, pt_len: 0, n_tok: 0 };
    for i in 0..n
        invariant
            slots@.len() == i,
            empty.fp == 0,
            forall|k: int| 0 <= k < i ==> (#[trigger] slots@[k]).fp == 0,
    {
        slots.push(empty);
    }
    slots
}

/// The first empty slot from the home of a hash on.
fn free_slot(slots: &Vec<Slot>, fp: u64) -> (at: usize)
    requires
        slots@.len() > 0,
        filled(slots@) < slots@.len(),
    ensures
        at < slots@.len(),
        slots@[at as int].fp == 0,
        reaches(slots@, fp, at as int),
{
    let n: usize = slots.len();
    let start: usize = (fp % (n as u64)) as usize;
    assert(fp % (n as u64) < n);
    let mut at: usize = start;
    let mut steps: usize = 0;
    while steps < n
        invariant
            n == slots@.len(),
            at < n,
            steps <= n,
            steps < n ==> at == walk(fp, steps as int, n as int),
            path(slots@, fp, steps as int),
        decreases n - steps,
    {
        if slots[at].fp == 0 {
            return at;
        }
        steps = steps + 1;
        at = if at + 1 < n {
            at + 1
        } else {
            0
        };
    }
    proof {
        lemma_walk_all(slots@, fp);
        lemma_filled_all(slots@);
        assert(false);
    }
    0
}

/// The hash of a pretoken with its packed prefix.
fn hash_of(bytes: &[u8], w: u64) -> (fp: u64)
    requires
        bytes@.len() > 0,
        w == packed(bytes@),
    ensures
        fp == hashed(bytes@),
        fp != 0,
{
    if bytes.len() <= 8 {
        prefix_hash(w, bytes.len() as u16)
    } else {
        full_hash(bytes)
    }
}

/// Whether two pretokens are of one length and agree behind their first 8 bytes.
fn same_tail(a: &[u8], b: &[u8]) -> (r: bool)
    requires
        b@.len() >= 8,
    ensures
        r == (a@.len() == b@.len() && a@.skip(8) == b@.skip(8)),
{
    let n: usize = b.len();
    if a.len() != n {
        return false;
    }
    let x: &[u8] = &a[8..n];
    let y: &[u8] = &b[8..n];
    assert(x@ =~= a@.skip(8));
    assert(y@ =~= b@.skip(8));
    bytes_equal(x, y)
}

} // verus!
