//! Packed cache values: the tokens of a pretoken in two words.

use vstd::prelude::*;

use crate::token::TokenId;

verus! {

/// Flags a value whose tokens are in the arena. The low byte of a value holds
/// the token count in bits 0-6 and this flag in bit 7. Inline values (1-4
/// tokens, the first below 2^24) carry tokens 1-2 in bits 8-31 and 32-63, and
/// tokens 3-4 in the two halves of the extension word; spilled values carry the
/// arena offset in their high half.
pub const VAL_SPILL: u64 = 0x80;

/// The four token lanes of an inline value.
pub open spec fn val_lanes(val: u64, ext: u64) -> Seq<TokenId> {
    seq![
        TokenId(((val >> 8) & 0xFF_FFFF) as u32),
        TokenId((val >> 32) as u32),
        TokenId((ext & 0xFFFF_FFFF) as u32),
        TokenId((ext >> 32) as u32),
    ]
}

/// How many tokens a value has.
pub open spec fn val_count(val: u64) -> int {
    (val & 0x7F) as int
}

/// Whether the tokens of a value are there.
pub open spec fn val_valid(val: u64, arena: Seq<TokenId>) -> bool {
    if val & VAL_SPILL == 0 {
        val_count(val) <= 4
    } else {
        (val >> 32) as int + val_count(val) <= arena.len()
    }
}

/// The tokens of a value.
pub open spec fn val_tokens(val: u64, ext: u64, arena: Seq<TokenId>) -> Seq<TokenId> {
    if val & VAL_SPILL == 0 {
        val_lanes(val, ext).take(val_count(val))
    } else {
        arena.subrange((val >> 32) as int, (val >> 32) as int + val_count(val))
    }
}

/// Values stay what they were as the arena grows.
pub proof fn lemma_val_arena_grows(
    val: u64,
    ext: u64,
    arena: Seq<TokenId>,
    more: Seq<TokenId>,
)
    requires
        val_valid(val, arena),
    ensures
        val_valid(val, arena + more),
        val_tokens(val, ext, arena + more) == val_tokens(val, ext, arena),
{
    if val & VAL_SPILL != 0 {
        let a = (val >> 32) as int;
        let b = a + val_count(val);
        assert((arena + more).subrange(a, b) =~= arena.subrange(a, b));
    }
}

proof fn lemma_pack_bits(n: u64, a: u32, b: u32, c: u32, d: u32, val: u64, ext: u64)
    by (bit_vector)
    requires
        n < 0x80,
        a < 0x100_0000,
        val == n | ((a as u64) << 8) | ((b as u64) << 32),
        ext == (c as u64) | ((d as u64) << 32),
    ensures
        val & 0x7F == n,
        val & 0x80 == 0,
        ((val >> 8) & 0xFF_FFFF) as u32 == a,
        (val >> 32) as u32 == b,
        (ext & 0xFFFF_FFFF) as u32 == c,
        (ext >> 32) as u32 == d,
{
}

proof fn lemma_spill_bits(n: u64, offset: u64, val: u64)
    by (bit_vector)
    requires
        n < 0x80,
        offset < 0x1_0000_0000,
        val == 0x80 | n | (offset << 32),
    ensures
        val & 0x7F == n,
        val & 0x80 != 0,
        (val >> 32) == offset,
{
}

/// Whether tokens fit inline.
pub open spec fn fits_inline(symbols: Seq<TokenId>) -> bool {
    1 <= symbols.len() <= 4 && symbols[0].0 < 0x100_0000
}

/// Pack 1-4 tokens, the first below 2^24, into a value and its extension.
#[inline(always)]
pub fn pack_val_inline(symbols: &[TokenId]) -> (r: Option<(u64, u64)>)
    ensures
        match r {
            Some((val, ext)) => {
                &&& fits_inline(symbols@)
                &&& val & VAL_SPILL == 0
                &&& val_count(val) == symbols@.len()
                &&& val_lanes(val, ext).take(val_count(val)) == symbols@
            },
            None => !fits_inline(symbols@),
        },
{
    let n: usize = symbols.len();
    if n < 1 || n > 4 || symbols[0].0 >= 0x100_0000 {
        return None;
    }
    let a: u32 = symbols[0].0;
    let b: u32 = if n > 1 {
        symbols[1].0
    } else {
        0
    };
    let c: u32 = if n > 2 {
        symbols[2].0
    } else {
        0
    };
    let d: u32 = if n > 3 {
        symbols[3].0
    } else {
        0
    };
    let val: u64 = (n as u64) | ((a as u64) << 8) | ((b as u64) << 32);
    let ext: u64 = (c as u64) | ((d as u64) << 32);
    proof {
        lemma_pack_bits(n as u64, a, b, c, d, val, ext);
        assert(val_lanes(val, ext).take(n as int) =~= symbols@);
    }
    Some((val, ext))
}

/// Pack a cache value: inline when possible, else spilled to the arena. `None`,
/// with the arena as it was, when there are too many tokens for the count, or
/// the arena is too long for the offset.
pub fn pack_val(symbols: &[TokenId], arena: &mut Vec<TokenId>) -> (r: Option<(u64, u64)>)
    ensures
        match r {
            Some((val, ext)) => {
                &&& final(arena)@ == old(arena)@ + (if fits_inline(symbols@) {
                    Seq::<TokenId>::empty()
                } else {
                    symbols@
                })
                &&& val_valid(val, final(arena)@)
                &&& val_tokens(val, ext, final(arena)@) == symbols@
            },
            None => {
                &&& final(arena)@ == old(arena)@
                &&& !fits_inline(symbols@)
                &&& symbols@.len() >= 0x80 || old(arena)@.len() > u32::MAX
            },
        },
{
    let ghost before = arena@;
    match pack_val_inline(symbols) {
        Some(v) => {
            assert(arena@ =~= before + Seq::<TokenId>::empty());
            Some(v)
        },
        None => {
            let n: usize = symbols.len();
            let offset: usize = arena.len();
            if n >= 0x80 || offset as u64 > u32::MAX as u64 {
                return None;
            }
            append_tokens(arena, symbols);
            let val: u64 = 0x80u64 | (n as u64) | ((offset as u64) << 32);
            proof {
                lemma_spill_bits(n as u64, offset as u64, val);
                assert(arena@.subrange(offset as int, offset + n) =~= symbols@);
            }
            Some((val, 0))
        },
    }
}

/// Append tokens.
pub fn append_tokens(out: &mut Vec<TokenId>, tokens: &[TokenId])
    ensures
        final(out)@ == old(out)@ + tokens@,
{
    let ghost before = out@;
    for i in 0..tokens.len()
        invariant
            out@ == before + tokens@.take(i as int),
    {
        out.push(tokens[i]);
        assert(tokens@.take(i as int + 1) =~= tokens@.take(i as int).push(tokens@[i as int]));
    }
    assert(tokens@.take(tokens@.len() as int) =~= tokens@);
}

/// Append the tokens of a value.
pub fn append_val(out: &mut Vec<TokenId>, val: u64, ext: u64, arena: &[TokenId])
    requires
        val_valid(val, arena@),
    ensures
        final(out)@ == old(out)@ + val_tokens(val, ext, arena@),
{
    assert(val & 0x7F <= 0x7F) by (bit_vector);
    let n: usize = (val & 0x7F) as usize;
    let ghost before = out@;
    if val & VAL_SPILL == 0 {
        let lanes: [TokenId; 4] = unpack_val_lanes(val, ext);
        for i in 0..n
            invariant
                n <= 4,
                lanes@ == val_lanes(val, ext),
                out@ == before + val_lanes(val, ext).take(i as int),
        {
            out.push(lanes[i]);
            assert(val_lanes(val, ext).take(i as int + 1) =~= val_lanes(val, ext).take(
                i as int,
            ).push(lanes@[i as int]));
        }
    } else {
        assert(val >> 32 <= 0xFFFF_FFFF) by (bit_vector);
        let start: usize = (val >> 32) as usize;
        let total: usize = arena.len();
        assert(start + n <= total);
        let end: usize = start + n;
        append_tokens(out, &arena[start..end]);
    }
}

/// Unpack an inline value's four token lanes. Lanes past the count are unused.
#[inline(always)]
pub fn unpack_val_lanes(val: u64, ext: u64) -> (lanes: [TokenId; 4])
    ensures
        lanes@ == val_lanes(val, ext),
{
    let lanes: [TokenId; 4] = [
        TokenId(((val >> 8) & 0xFF_FFFF) as u32),
        TokenId((val >> 32) as u32),
        TokenId((ext & 0xFFFF_FFFF) as u32),
        TokenId((ext >> 32) as u32),
    ];
    assert(lanes@ =~= val_lanes(val, ext));
    lanes
}

} // verus!
