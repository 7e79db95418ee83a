//! Pretoken cache keys.

use vstd::prelude::*;

verus! {

/// Bytes as a number, the first byte lowest.
pub open spec fn le_value(s: Seq<u8>) -> nat
    decreases s.len(),
{
    if s.len() == 0 {
        0
    } else {
        s[0] as nat + 256 * le_value(s.drop_first())
    }
}

/// 256 to the power `n`.
pub open spec fn pow256(n: nat) -> nat
    decreases n,
{
    if n == 0 {
        1
    } else {
        256 * pow256((n - 1) as nat)
    }
}

/// The unit of the length tag: the value of the sixteenth byte.
pub const LENGTH_TAG: u128 = 0x0100_0000_0000_0000_0000_0000_0000_0000;

/// The cache key of a pretoken of at most 15 bytes: its bytes in the low 15
/// lanes, its length in the top byte.
pub open spec fn pretoken_key(s: Seq<u8>) -> u128 {
    (le_value(s) + s.len() * LENGTH_TAG) as u128
}

pub proof fn lemma_le_value_bound(s: Seq<u8>)
    ensures
        le_value(s) < pow256(s.len()),
    decreases s.len(),
{
    if s.len() > 0 {
        lemma_le_value_bound(s.drop_first());
    }
}

proof fn lemma_pow256_grows(a: nat, b: nat)
    requires
        a <= b,
    ensures
        1 <= pow256(a) <= pow256(b),
    decreases b,
{
    if a < b {
        lemma_pow256_grows(a, (b - 1) as nat);
    } else if a > 0 {
        lemma_pow256_grows((a - 1) as nat, (b - 1) as nat);
    }
}

proof fn lemma_tag_is_power()
    ensures
        pow256(15) == LENGTH_TAG,
{
    reveal_with_fuel(pow256, 16);
}

/// The key of a short pretoken, before it is cast.
pub proof fn lemma_pretoken_key_value(s: Seq<u8>)
    requires
        s.len() <= 15,
    ensures
        le_value(s) < LENGTH_TAG,
        pretoken_key(s) == le_value(s) + s.len() * LENGTH_TAG,
        s.len() > 0 ==> pretoken_key(s) != 0,
        s.len() == 0 ==> pretoken_key(s) == 0,
{
    lemma_le_value_bound(s);
    lemma_pow256_grows(s.len(), 15);
    lemma_tag_is_power();
}

/// Byte strings of one length are told apart by their values.
pub proof fn lemma_le_value_injective(a: Seq<u8>, b: Seq<u8>)
    requires
        a.len() == b.len(),
        le_value(a) == le_value(b),
    ensures
        a == b,
    decreases a.len(),
{
    if a.len() > 0 {
        let (x, y) = (le_value(a.drop_first()), le_value(b.drop_first()));
        assert(a[0] as nat + 256 * x == b[0] as nat + 256 * y);
        assert(a[0] == b[0] && x == y);
        lemma_le_value_injective(a.drop_first(), b.drop_first());
        assert(a =~= seq![a[0]] + a.drop_first());
        assert(b =~= seq![b[0]] + b.drop_first());
    } else {
        assert(a =~= b);
    }
}

/// Different pretokens have different keys.
pub proof fn lemma_pretoken_key_injective(a: Seq<u8>, b: Seq<u8>)
    requires
        a.len() <= 15,
        b.len() <= 15,
        pretoken_key(a) == pretoken_key(b),
    ensures
        a == b,
{
    lemma_pretoken_key_value(a);
    lemma_pretoken_key_value(b);
    assert(a.len() == b.len()) by {
        if a.len() < b.len() {
            assert(a.len() * LENGTH_TAG + LENGTH_TAG <= b.len() * LENGTH_TAG);
        }
        if b.len() < a.len() {
            assert(b.len() * LENGTH_TAG + LENGTH_TAG <= a.len() * LENGTH_TAG);
        }
    }
    lemma_le_value_injective(a, b);
}

/// Pack a pretoken of at most 15 bytes into a `u128` cache key: bytes in the low
/// 15 lanes, length in the top byte (so keys of different lengths never
/// collide, and the key of a pretoken that is not empty is never 0). Returns
/// `None` for longer pretokens.
#[inline(always)]
pub fn pack_pretoken_key(bytes: &[u8]) -> (r: Option<u128>)
    ensures
        match r {
            Some(key) => bytes@.len() <= 15 && key == pretoken_key(bytes@),
            None => bytes@.len() > 15,
        },
{
    let n: usize = bytes.len();
    if n > 15 {
        return None;
    }
    let mut v: u128 = 0;
    let mut i: usize = n;
    proof {
        lemma_tag_is_power();
        assert(bytes@.skip(n as int) =~= Seq::empty());
    }
    while i > 0
        invariant
            n == bytes@.len(),
            n <= 15,
            i <= n,
            v == le_value(bytes@.skip(i as int)),
            pow256(15) == LENGTH_TAG,
        decreases i,
    {
        i = i - 1;
        proof {
            let t = bytes@.skip(i as int);
            assert(t.drop_first() =~= bytes@.skip(i as int + 1));
            lemma_le_value_bound(t);
            lemma_pow256_grows(t.len(), 15);
        }
        v = v * 256 + bytes[i] as u128;
    }
    proof {
        assert(bytes@.skip(0) =~= bytes@);
        lemma_pretoken_key_value(bytes@);
    }
    Some(v + n as u128 * LENGTH_TAG)
}

/// The hash of a packed key: one folded multiply.
pub open spec fn key_hash(key: u128) -> u64 {
    let lo = (key & 0xFFFF_FFFF_FFFF_FFFF) as u64;
    let hi = (key >> 64) as u64;
    let h = (lo ^ ((hi >> 25) | (hi << 39))).wrapping_mul(0x9E37_79B9_7F4A_7C15u64);
    h ^ (h >> 32)
}

/// Hash of a packed pretoken key: one folded multiply, the cheapest mix
/// whose low bits (the table index) still see every key bit.
#[inline(always)]
pub fn pretoken_key_hash(key: u128) -> (h: u64)
    ensures
        h == key_hash(key),
{
    let lo: u64 = (key & 0xFFFF_FFFF_FFFF_FFFF) as u64;
    let hi: u64 = (key >> 64) as u64;
    let h: u64 = (lo ^ ((hi >> 25) | (hi << 39))).wrapping_mul(0x9E37_79B9_7F4A_7C15u64);
    h ^ (h >> 32)
}

} // verus!
