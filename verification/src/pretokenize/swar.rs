//! Eight bytes at a time in one word, the high bit of each lane a flag.

use vstd::prelude::*;

use crate::pretokenize::scan::{digit_byte, letter_byte, ws_byte};

verus! {

/// The high bit of every lane.
pub const HI: u64 = 0x8080_8080_8080_8080;

/// Lane `k` of a word.
pub open spec fn lane(w: u64, k: int) -> u8 {
    if k == 0 {
        (w & 0xFF) as u8
    } else if k == 1 {
        ((w >> 8) & 0xFF) as u8
    } else if k == 2 {
        ((w >> 16) & 0xFF) as u8
    } else if k == 3 {
        ((w >> 24) & 0xFF) as u8
    } else if k == 4 {
        ((w >> 32) & 0xFF) as u8
    } else if k == 5 {
        ((w >> 40) & 0xFF) as u8
    } else if k == 6 {
        ((w >> 48) & 0xFF) as u8
    } else {
        ((w >> 56) & 0xFF) as u8
    }
}

/// The flag of lane `k`.
pub open spec fn flag(m: u64, k: int) -> bool {
    if k == 0 {
        (m >> 7) & 1 == 1
    } else if k == 1 {
        (m >> 15) & 1 == 1
    } else if k == 2 {
        (m >> 23) & 1 == 1
    } else if k == 3 {
        (m >> 31) & 1 == 1
    } else if k == 4 {
        (m >> 39) & 1 == 1
    } else if k == 5 {
        (m >> 47) & 1 == 1
    } else if k == 6 {
        (m >> 55) & 1 == 1
    } else {
        (m >> 63) & 1 == 1
    }
}

/// Eight bytes from `pos` on, the first in the lowest lane.
#[inline(always)]
pub fn load_word(bytes: &[u8], pos: usize) -> (w: u64)
    requires
        pos + 8 <= bytes@.len(),
    ensures
        forall|k: int| 0 <= k < 8 ==> #[trigger] lane(w, k) == bytes@[pos + k],
{
    let b0: u8 = bytes[pos];
    let b1: u8 = bytes[pos + 1];
    let b2: u8 = bytes[pos + 2];
    let b3: u8 = bytes[pos + 3];
    let b4: u8 = bytes[pos + 4];
    let b5: u8 = bytes[pos + 5];
    let b6: u8 = bytes[pos + 6];
    let b7: u8 = bytes[pos + 7];
    let w: u64 = (b0 as u64) | ((b1 as u64) << 8) | ((b2 as u64) << 16) | ((b3 as u64) << 24) | ((
    b4 as u64) << 32) | ((b5 as u64) << 40) | ((b6 as u64) << 48) | ((b7 as u64) << 56);
    proof {
        assert((w & 0xFF) as u8 == b0 && ((w >> 8) & 0xFF) as u8 == b1 && ((w >> 16) & 0xFF) as u8
            == b2 && ((w >> 24) & 0xFF) as u8 == b3 && ((w >> 32) & 0xFF) as u8 == b4 && ((w >> 40)
            & 0xFF) as u8 == b5 && ((w >> 48) & 0xFF) as u8 == b6 && ((w >> 56) & 0xFF) as u8 == b7)
            by (bit_vector)
            requires
                w == (b0 as u64) | ((b1 as u64) << 8) | ((b2 as u64) << 16) | ((b3 as u64) << 24) | ((
                b4 as u64) << 32) | ((b5 as u64) << 40) | ((b6 as u64) << 48) | ((b7 as u64) << 56),
        ;
        assert forall|k: int| 0 <= k < 8 implies #[trigger] lane(w, k) == bytes@[pos + k] by {
            assert(k == 0 || k == 1 || k == 2 || k == 3 || k == 4 || k == 5 || k == 6 || k == 7);
        }
    }
    w
}

/// Whether every lane is ASCII.
pub fn all_ascii(w: u64) -> (r: bool)
    ensures
        r ==> w & HI == 0,
        r == forall|k: int| 0 <= k < 8 ==> #[trigger] lane(w, k) < 0x80,
{
    let r: bool = w & HI == 0;
    proof {
        assert((w & 0x8080_8080_8080_8080 == 0) <==> (((w & 0xFF) as u8) < 0x80 && (((w >> 8)
            & 0xFF) as u8) < 0x80 && (((w >> 16) & 0xFF) as u8) < 0x80 && (((w >> 24) & 0xFF) as u8)
            < 0x80 && (((w >> 32) & 0xFF) as u8) < 0x80 && (((w >> 40) & 0xFF) as u8) < 0x80 && (((w
            >> 48) & 0xFF) as u8) < 0x80 && (((w >> 56) & 0xFF) as u8) < 0x80)) by (bit_vector);
        if r {
            assert forall|k: int| 0 <= k < 8 implies #[trigger] lane(w, k) < 0x80 by {
                assert(k == 0 || k == 1 || k == 2 || k == 3 || k == 4 || k == 5 || k == 6 || k == 7);
            }
        } else {
            assert(lane(w, 0) >= 0x80 || lane(w, 1) >= 0x80 || lane(w, 2) >= 0x80 || lane(w, 3)
                >= 0x80 || lane(w, 4) >= 0x80 || lane(w, 5) >= 0x80 || lane(w, 6) >= 0x80 || lane(
                w,
                7,
            ) >= 0x80);
        }
    }
    r
}

proof fn lemma_range_lanes(w: u64, lo: u8, hi: u8, l: u64, h: u64, m: u64)
    by (bit_vector)
    requires
        w & 0x8080_8080_8080_8080 == 0,
        lo < 0x80,
        hi < 0x80,
        l == lo * 0x0101_0101_0101_0101,
        h == (hi + 0x80) * 0x0101_0101_0101_0101,
        m == (((w | 0x8080_8080_8080_8080) - l) as u64) & ((h - w) as u64) & 0x8080_8080_8080_8080,
    ensures
        l <= w | 0x8080_8080_8080_8080,
        w <= h,
        ((m >> 7) & 1 == 1) == (((w & 0xFF) as u8) >= lo && ((w & 0xFF) as u8) <= hi),
        ((m >> 15) & 1 == 1) == ((((w >> 8) & 0xFF) as u8) >= lo && (((w >> 8) & 0xFF) as u8) <= hi),
        ((m >> 23) & 1 == 1) == ((((w >> 16) & 0xFF) as u8) >= lo && (((w >> 16) & 0xFF) as u8) <= hi),
        ((m >> 31) & 1 == 1) == ((((w >> 24) & 0xFF) as u8) >= lo && (((w >> 24) & 0xFF) as u8) <= hi),
        ((m >> 39) & 1 == 1) == ((((w >> 32) & 0xFF) as u8) >= lo && (((w >> 32) & 0xFF) as u8) <= hi),
        ((m >> 47) & 1 == 1) == ((((w >> 40) & 0xFF) as u8) >= lo && (((w >> 40) & 0xFF) as u8) <= hi),
        ((m >> 55) & 1 == 1) == ((((w >> 48) & 0xFF) as u8) >= lo && (((w >> 48) & 0xFF) as u8) <= hi),
        ((m >> 63) & 1 == 1) == ((((w >> 56) & 0xFF) as u8) >= lo && (((w >> 56) & 0xFF) as u8) <= hi),
{
}

/// Flags the lanes of an all-ASCII word whose byte lies between `lo` and `hi`.
#[inline(always)]
pub fn range_flags(w: u64, lo: u8, hi: u8) -> (m: u64)
    requires
        w & HI == 0,
        lo < 0x80,
        hi < 0x80,
    ensures
        forall|k: int| 0 <= k < 8 ==> (#[trigger] flag(m, k) <==> lo <= lane(w, k) <= hi),
{
    let l: u64 = lo as u64 * 0x0101_0101_0101_0101;
    let h: u64 = (hi as u64 + 0x80) * 0x0101_0101_0101_0101;
    proof {
        let m = (((w | 0x8080_8080_8080_8080) - l) as u64) & ((h - w) as u64)
            & 0x8080_8080_8080_8080;
        lemma_range_lanes(w, lo, hi, l, h, m);
    }
    let m: u64 = ((w | HI) - l) & (h - w) & HI;
    proof {
        assert forall|k: int| 0 <= k < 8 implies (#[trigger] flag(m, k) <==> lo <= lane(w, k) <= hi) by {
            assert(k == 0 || k == 1 || k == 2 || k == 3 || k == 4 || k == 5 || k == 6 || k == 7);
        }
    }
    m
}

proof fn lemma_fold_lanes(w: u64, f: u64)
    by (bit_vector)
    requires
        f == w | 0x2020_2020_2020_2020,
    ensures
        w & 0x8080_8080_8080_8080 == 0 ==> f & 0x8080_8080_8080_8080 == 0,
        ((f & 0xFF) as u8) == ((w & 0xFF) as u8) | 0x20,
        (((f >> 8) & 0xFF) as u8) == (((w >> 8) & 0xFF) as u8) | 0x20,
        (((f >> 16) & 0xFF) as u8) == (((w >> 16) & 0xFF) as u8) | 0x20,
        (((f >> 24) & 0xFF) as u8) == (((w >> 24) & 0xFF) as u8) | 0x20,
        (((f >> 32) & 0xFF) as u8) == (((w >> 32) & 0xFF) as u8) | 0x20,
        (((f >> 40) & 0xFF) as u8) == (((w >> 40) & 0xFF) as u8) | 0x20,
        (((f >> 48) & 0xFF) as u8) == (((w >> 48) & 0xFF) as u8) | 0x20,
        (((f >> 56) & 0xFF) as u8) == (((w >> 56) & 0xFF) as u8) | 0x20,
{
}

/// Flags the ASCII letters of an all-ASCII word.
#[inline(always)]
pub fn swar64_letter_mask(w: u64) -> (m: u64)
    requires
        w & HI == 0,
    ensures
        forall|k: int| 0 <= k < 8 ==> (#[trigger] flag(m, k) <==> letter_byte(lane(w, k))),
{
    let folded: u64 = w | 0x2020_2020_2020_2020;
    proof {
        lemma_fold_lanes(w, folded);
    }
    let m: u64 = range_flags(folded, 0x61, 0x7A);
    proof {
        assert forall|k: int| 0 <= k < 8 implies (#[trigger] flag(m, k) <==> letter_byte(lane(w, k))) by {
            assert(k == 0 || k == 1 || k == 2 || k == 3 || k == 4 || k == 5 || k == 6 || k == 7);
            let b = lane(w, k);
            assert(lane(folded, k) == b | 0x20);
            assert((0x61 <= (b | 0x20) && (b | 0x20) <= 0x7A) <==> (0x41 <= b && b <= 0x5A || 0x61
                <= b && b <= 0x7A)) by (bit_vector);
        }
    }
    m
}

/// Flags the ASCII digits of an all-ASCII word.
#[inline(always)]
pub fn swar_digit_mask(w: u64) -> (m: u64)
    requires
        w & HI == 0,
    ensures
        forall|k: int| 0 <= k < 8 ==> (#[trigger] flag(m, k) <==> digit_byte(lane(w, k))),
{
    range_flags(w, 0x30, 0x39)
}

proof fn lemma_combine_lanes(a: u64, b: u64)
    by (bit_vector)
    ensures
        (((a & b) >> 7) & 1 == 1) == (((a >> 7) & 1 == 1) && ((b >> 7) & 1 == 1)),
        (((a | b) >> 7) & 1 == 1) == (((a >> 7) & 1 == 1) || ((b >> 7) & 1 == 1)),
        (((!a & 0x8080_8080_8080_8080) >> 7) & 1 == 1) == !((a >> 7) & 1 == 1),
        (((a & b) >> 15) & 1 == 1) == (((a >> 15) & 1 == 1) && ((b >> 15) & 1 == 1)),
        (((a | b) >> 15) & 1 == 1) == (((a >> 15) & 1 == 1) || ((b >> 15) & 1 == 1)),
        (((!a & 0x8080_8080_8080_8080) >> 15) & 1 == 1) == !((a >> 15) & 1 == 1),
        (((a & b) >> 23) & 1 == 1) == (((a >> 23) & 1 == 1) && ((b >> 23) & 1 == 1)),
        (((a | b) >> 23) & 1 == 1) == (((a >> 23) & 1 == 1) || ((b >> 23) & 1 == 1)),
        (((!a & 0x8080_8080_8080_8080) >> 23) & 1 == 1) == !((a >> 23) & 1 == 1),
        (((a & b) >> 31) & 1 == 1) == (((a >> 31) & 1 == 1) && ((b >> 31) & 1 == 1)),
        (((a | b) >> 31) & 1 == 1) == (((a >> 31) & 1 == 1) || ((b >> 31) & 1 == 1)),
        (((!a & 0x8080_8080_8080_8080) >> 31) & 1 == 1) == !((a >> 31) & 1 == 1),
        (((a & b) >> 39) & 1 == 1) == (((a >> 39) & 1 == 1) && ((b >> 39) & 1 == 1)),
        (((a | b) >> 39) & 1 == 1) == (((a >> 39) & 1 == 1) || ((b >> 39) & 1 == 1)),
        (((!a & 0x8080_8080_8080_8080) >> 39) & 1 == 1) == !((a >> 39) & 1 == 1),
        (((a & b) >> 47) & 1 == 1) == (((a >> 47) & 1 == 1) && ((b >> 47) & 1 == 1)),
        (((a | b) >> 47) & 1 == 1) == (((a >> 47) & 1 == 1) || ((b >> 47) & 1 == 1)),
        (((!a & 0x8080_8080_8080_8080) >> 47) & 1 == 1) == !((a >> 47) & 1 == 1),
        (((a & b) >> 55) & 1 == 1) == (((a >> 55) & 1 == 1) && ((b >> 55) & 1 == 1)),
        (((a | b) >> 55) & 1 == 1) == (((a >> 55) & 1 == 1) || ((b >> 55) & 1 == 1)),
        (((!a & 0x8080_8080_8080_8080) >> 55) & 1 == 1) == !((a >> 55) & 1 == 1),
        (((a & b) >> 63) & 1 == 1) == (((a >> 63) & 1 == 1) && ((b >> 63) & 1 == 1)),
        (((a | b) >> 63) & 1 == 1) == (((a >> 63) & 1 == 1) || ((b >> 63) & 1 == 1)),
        (((!a & 0x8080_8080_8080_8080) >> 63) & 1 == 1) == !((a >> 63) & 1 == 1),
{
}

/// Flags combine lane by lane.
pub proof fn lemma_flags(a: u64, b: u64, k: int)
    requires
        0 <= k < 8,
    ensures
        flag(a & b, k) == (flag(a, k) && flag(b, k)),
        flag(a | b, k) == (flag(a, k) || flag(b, k)),
        flag(!a & HI, k) == !flag(a, k),
{
    lemma_combine_lanes(a, b);
    assert(k == 0 || k == 1 || k == 2 || k == 3 || k == 4 || k == 5 || k == 6 || k == 7);
}

/// Flags the lanes of an all-ASCII word that hold `b`.
#[inline(always)]
pub fn swar_cmpeq(w: u64, b: u8) -> (m: u64)
    requires
        w & HI == 0,
        b < 0x80,
    ensures
        forall|k: int| 0 <= k < 8 ==> (#[trigger] flag(m, k) <==> lane(w, k) == b),
{
    range_flags(w, b, b)
}

/// Flags the ASCII whitespace (space or TAB to CR) of an all-ASCII word.
#[inline(always)]
pub fn swar_ws_mask(w: u64) -> (m: u64)
    requires
        w & HI == 0,
    ensures
        forall|k: int| 0 <= k < 8 ==> (#[trigger] flag(m, k) <==> ws_byte(lane(w, k))),
{
    let space: u64 = swar_cmpeq(w, 0x20);
    let control: u64 = range_flags(w, 9, 13);
    proof {
        assert forall|k: int| 0 <= k < 8 implies (#[trigger] flag(space | control, k) <==> ws_byte(
            lane(w, k),
        )) by {
            lemma_flags(space, control, k);
        }
    }
    space | control
}

/// How many of the first `n` lanes are flagged.
pub open spec fn flags_below(m: u64, n: int) -> int
    decreases n,
{
    if n <= 0 {
        0
    } else {
        flags_below(m, n - 1) + if flag(m, n - 1) {
            1int
        } else {
            0
        }
    }
}

/// How many lanes are flagged.
#[inline(always)]
pub fn count_flags(m: u64) -> (n: usize)
    ensures
        n == flags_below(m, 8),
        n <= 8,
{
    proof {
        reveal_with_fuel(flags_below, 9);
        assert((m >> 7) & 1 <= 1 && (m >> 15) & 1 <= 1 && (m >> 23) & 1 <= 1 && (m >> 31) & 1 <= 1
            && (m >> 39) & 1 <= 1 && (m >> 47) & 1 <= 1 && (m >> 55) & 1 <= 1 && (m >> 63) & 1 <= 1)
            by (bit_vector);
    }
    let n: u64 = ((m >> 7) & 1) + ((m >> 15) & 1) + ((m >> 23) & 1) + ((m >> 31) & 1) + ((m >> 39)
        & 1) + ((m >> 47) & 1) + ((m >> 55) & 1) + ((m >> 63) & 1);
    n as usize
}

} // verus!
