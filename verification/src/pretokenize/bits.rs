//! Bits of 64-bit masks.

use vstd::prelude::*;
use vstd::std_specs::bits::axiom_u64_trailing_zeros;

verus! {

/// Whether bit `k` of a mask is set.
pub open spec fn bit(m: u64, k: int) -> bool {
    0 <= k < 64 && (m >> (k as u64)) & 1 == 1
}

/// Bits of unions, intersections and complements.
pub proof fn lemma_bit_ops(a: u64, b: u64, k: int)
    requires
        0 <= k < 64,
    ensures
        bit(a | b, k) == (bit(a, k) || bit(b, k)),
        bit(a & b, k) == (bit(a, k) && bit(b, k)),
        bit(!a, k) == !bit(a, k),
{
    let j = k as u64;
    assert(j < 64 ==> {
        &&& ((((a | b) >> j) & 1 == 1) == ((a >> j) & 1 == 1 || (b >> j) & 1 == 1))
        &&& ((((a & b) >> j) & 1 == 1) == ((a >> j) & 1 == 1 && (b >> j) & 1 == 1))
        &&& ((((!a) >> j) & 1 == 1) == !((a >> j) & 1 == 1))
    }) by (bit_vector);
}

/// Bits of a mask that is shifted up.
pub proof fn lemma_bit_shl(a: u64, sh: u64, k: int)
    requires
        0 <= k < 64,
        sh < 64,
    ensures
        bit(a << sh, k) == (k >= sh && bit(a, k - sh)),
{
    let j = k as u64;
    assert(j < 64 && sh < 64 ==> (((a << sh) >> j) & 1 == 1) == (j >= sh && (a >> ((j - sh) as u64)) & 1
        == 1)) by (bit_vector);
}

/// Bits of a mask that is shifted down.
pub proof fn lemma_bit_shr(a: u64, sh: u64, k: int)
    requires
        0 <= k < 64,
        sh < 64,
    ensures
        bit(a >> sh, k) == (k + sh < 64 && bit(a, k + sh)),
{
    let j = k as u64;
    assert(j < 64 && sh < 64 ==> (((a >> sh) >> j) & 1 == 1) == (j + sh < 64 && (a >> ((j + sh) as u64))
        & 1 == 1)) by (bit_vector);
}

/// The one bit of a power of two, and none of zero.
pub proof fn lemma_bit_one(i: u64, k: int)
    requires
        0 <= k < 64,
        i < 64,
    ensures
        bit(1u64 << i, k) == (k == i),
        !bit(0, k),
        bit(u64::MAX, k),
{
    let j = k as u64;
    assert(j < 64 && i < 64 ==> {
        &&& ((((1u64 << i) >> j) & 1 == 1) == (j == i))
        &&& ((0u64 >> j) & 1 != 1)
        &&& ((0xFFFF_FFFF_FFFF_FFFFu64 >> j) & 1 == 1)
    }) by (bit_vector);
}

/// The bits of `n` ones from bit `i` on.
pub proof fn lemma_bit_span(n: u64, i: u64, k: int)
    requires
        0 <= k < 64,
        i < 64,
        n < 64,
    ensures
        (1u64 << n) >= 1,
        bit(((1u64 << n) - 1) as u64, k) == (k < n),
        bit((((1u64 << n) - 1) as u64) << i, k) == (i <= k < i + n),
{
    let j = k as u64;
    assert(j < 64 && n < 64 ==> (1u64 << n) >= 1 && (((((1u64 << n) - 1) as u64) >> j) & 1 == 1) == (j
        < n)) by (bit_vector);
    let m = ((1u64 << n) - 1) as u64;
    lemma_bit_shl(m, i, k);
    if k >= i {
        let d = (k - i) as u64;
        assert(d < 64 && n < 64 ==> (((((1u64 << n) - 1) as u64) >> d) & 1 == 1) == (d < n))
            by (bit_vector);
    }
}

/// The lowest set bit of a mask.
pub fn lowest_bit(m: u64) -> (k: u32)
    requires
        m != 0,
    ensures
        k < 64,
        bit(m, k as int),
        forall|j: int| 0 <= j < k ==> !bit(m, j),
{
    proof {
        axiom_u64_trailing_zeros(m);
    }
    let k: u32 = m.trailing_zeros();
    assert(bit(m, k as int));
    k
}

/// A mask with a bit set is not zero.
pub proof fn lemma_nonzero(m: u64, k: int)
    requires
        bit(m, k),
    ensures
        m != 0,
{
    lemma_bit_one(0, k);
}

} // verus!
