//! Encoding with a SentencePiece BPE model.

use std::collections::HashMap;

use vstd::prelude::*;
use vstd::utf8::encode_utf8;

use crate::bpe::model::{joined, lemma_joined_concat, lemma_joined_one};
use crate::bpe::values::append_tokens;
use crate::byte_map::ByteMap;
use crate::pretokenize::keys::{
    lemma_pretoken_key_injective, lemma_pretoken_key_value, pack_pretoken_key, pretoken_key,
};
use crate::pretokenize::scan::width_at;
use crate::sentencepiece::bpe::{is_mark_char, SentencePieceBPE};
use crate::sentencepiece::matching::SpecBytes;
use crate::sentencepiece::model::{RawPrepend, SpModel, WordSplit};
use crate::seqs::append_bytes;
use crate::strings::{ink_len, skip_spaces};
use crate::token::TokenId;

verus! {

/// The size of the direct-mapped front cache.
const FRONT_SIZE: usize = 0x10_0000;

/// The place of `key` in the front cache: multiplicative hash, top bits.
spec fn front_slot(key: u128) -> u64 {
    ((((key & 0xFFFF_FFFF_FFFF_FFFF) as u64) ^ ((key >> 64) as u64)).wrapping_mul(
        0x9E37_79B9_7F4A_7C15u64,
    )) >> 44
}

/// Index of `key` in the front cache.
#[inline(always)]
fn front_index(key: u128) -> (i: usize)
    ensures
        i == front_slot(key),
        i < FRONT_SIZE,
{
    let folded: u64 = ((key & 0xFFFF_FFFF_FFFF_FFFF) as u64) ^ ((key >> 64) as u64);
    let h: u64 = folded.wrapping_mul(0x9E37_79B9_7F4A_7C15u64);
    assert(h >> 44 < 0x10_0000) by (bit_vector);
    (h >> 44) as usize
}

/// Per-thread mutable encoding context: the unit caches. Units repeat heavily
/// in natural text, so the ranked merge only runs on cache misses.
pub struct EncodeState {
    /// Append-only arena of encoded token IDs; cache entries are ranges of it.
    arena: Vec<TokenId>,
    /// Direct-mapped front cache in front of `short`. Key 0 = empty.
    front_keys: Vec<u128>,
    front_vals: Vec<(usize, usize)>,
    /// Cache for units of at most 15 key bytes.
    short: HashMap<u128, (usize, usize)>,
    /// Fallback cache for longer units.
    long: ByteMap<(usize, usize)>,
}

/// Whether a range of the arena holds the tokens of a unit.
spec fn range_ok(arena: Seq<TokenId>, range: (usize, usize), m: SpModel, unit: Seq<u8>) -> bool {
    &&& range.0 <= range.1 <= arena.len()
    &&& arena.subrange(range.0 as int, range.1 as int) == m.unit_tokens(unit, true)
}

/// Whether the caches say of `unit` what the model says.
spec fn unit_cached_ok(state: EncodeState, m: SpModel, unit: Seq<u8>) -> bool {
    &&& 1 <= unit.len() <= 15 && state.short@.contains_key(pretoken_key(unit)) ==> range_ok(
        state.arena@,
        state.short@[pretoken_key(unit)],
        m,
        unit,
    )
    &&& unit.len() > 15 && state.long@.contains_key(unit) ==> range_ok(
        state.arena@,
        state.long@[unit],
        m,
        unit,
    )
}

/// Whether a front key is at its place and says what the cache behind it says.
spec fn front_ok(state: EncodeState, i: int) -> bool {
    let key = state.front_keys@[i];
    key != 0 ==> {
        &&& front_slot(key) == i
        &&& state.short@.contains_key(key)
        &&& state.short@[key] == state.front_vals@[i]
    }
}

impl EncodeState {
    /// The caches say what the model says.
    pub closed spec fn fits(self, m: SpModel) -> bool {
        &&& self.front_keys@.len() == FRONT_SIZE
        &&& self.front_vals@.len() == FRONT_SIZE
        &&& self.long.wf()
        &&& forall|unit: Seq<u8>| #[trigger] unit_cached_ok(self, m, unit)
        &&& forall|i: int| 0 <= i < FRONT_SIZE ==> #[trigger] front_ok(self, i)
    }

    /// Whether the caches hold a unit.
    pub closed spec fn holds(self, unit: Seq<u8>) -> bool {
        if unit.len() <= 15 {
            self.short@.contains_key(pretoken_key(unit))
        } else {
            self.long@.contains_key(unit)
        }
    }

    /// Whether `after` differs from this state in the front cache alone, and there
    /// only in that `key` has `range` at its place.
    spec fn front_set(self, after: EncodeState, key: u128, range: (usize, usize)) -> bool {
        let at = front_slot(key) as int;
        &&& after.arena == self.arena
        &&& after.short == self.short
        &&& after.long == self.long
        &&& after.front_keys@ == self.front_keys@.update(at, key)
        &&& after.front_vals@ == self.front_vals@.update(at, range)
    }

    /// Empty caches, which fit any model.
    pub fn new() -> (s: Self)
        ensures
            forall|m: SpModel| #[trigger] s.fits(m),
    {
        broadcast use vstd::std_specs::hash::group_hash_axioms;

        let mut front_keys: Vec<u128> = Vec::with_capacity(FRONT_SIZE);
        let mut front_vals: Vec<(usize, usize)> = Vec::with_capacity(FRONT_SIZE);
        for i in 0..FRONT_SIZE
            invariant
                front_keys@.len() == i,
                front_vals@.len() == i,
                forall|j: int| 0 <= j < i ==> #[trigger] front_keys@[j] == 0,
        {
            front_keys.push(0);
            front_vals.push((0, 0));
        }
        let s = EncodeState {
            arena: Vec::new(),
            front_keys,
            front_vals,
            short: HashMap::new(),
            long: ByteMap::new(),
        };
        assert forall|m: SpModel| #[trigger] s.fits(m) by {
            assert forall|i: int| 0 <= i < FRONT_SIZE implies #[trigger] front_ok(s, i) by {
                assert(s.front_keys@[i] == 0);
            }
        }
        s
    }

    /// How many units the caches hold.
    pub closed spec fn cached_units(self) -> int {
        self.short@.len() as int + self.long.order().len()
    }

    /// Number of cached units (for diagnostics), up to `usize::MAX`.
    pub fn cache_size(&self) -> (n: usize)
        ensures
            n == if self.cached_units() <= usize::MAX {
                self.cached_units()
            } else {
                usize::MAX as int
            },
    {
        broadcast use vstd::std_specs::hash::group_hash_axioms;

        self.short.len().saturating_add(self.long.len())
    }

    /// Append the tokens of a cached unit; `false` where it is not cached. A short
    /// unit then stands in the front cache.
    fn append_cached(&mut self, key_bytes: &[u8], m: Ghost<SpModel>, out: &mut Vec<TokenId>) -> (r: bool)
        requires
            old(self).fits(m@),
            key_bytes@.len() > 0,
        ensures
            final(self).fits(m@),
            r == old(self).holds(key_bytes@),
            r ==> final(out)@ == old(out)@ + m@.unit_tokens(key_bytes@, true),
            !r ==> final(out)@ == old(out)@,
            if r && key_bytes@.len() <= 15 {
                old(self).front_set(
                    *final(self),
                    pretoken_key(key_bytes@),
                    old(self).short@[pretoken_key(key_bytes@)],
                )
            } else {
                *final(self) == *old(self)
            },
    {
        broadcast use vstd::std_specs::hash::group_hash_axioms;

        assert(unit_cached_ok(*self, m@, key_bytes@));
        match pack_pretoken_key(key_bytes) {
            Some(key) => {
                proof {
                    lemma_pretoken_key_value(key_bytes@);
                }
                let at: usize = front_index(key);
                assert(front_ok(*self, at as int));
                if self.front_keys[at] == key {
                    let (start, end): (usize, usize) = self.front_vals[at];
                    append_tokens(out, &self.arena[start..end]);
                    assert(self.front_keys@ =~= self.front_keys@.update(at as int, key));
                    assert(self.front_vals@ =~= self.front_vals@.update(at as int, (start, end)));
                    return true;
                }
                let found: Option<(usize, usize)> = match self.short.get(&key) {
                    Some(v) => Some(*v),
                    None => None,
                };
                match found {
                    Some((start, end)) => {
                        append_tokens(out, &self.arena[start..end]);
                        self.set_front(at, key, (start, end));
                        proof {
                            lemma_front_set(*old(self), *self, key, (start, end), m@);
                        }
                        true
                    },
                    None => false,
                }
            },
            None => match self.long.get(key_bytes) {
                Some((start, end)) => {
                    append_tokens(out, &self.arena[start..end]);
                    true
                },
                None => false,
            },
        }
    }

    /// Put a range in the front cache.
    fn set_front(&mut self, at: usize, key: u128, range: (usize, usize))
        requires
            old(self).front_keys@.len() == FRONT_SIZE,
            old(self).front_vals@.len() == FRONT_SIZE,
            at < FRONT_SIZE,
        ensures
            final(self).front_keys@ == old(self).front_keys@.update(at as int, key),
            final(self).front_vals@ == old(self).front_vals@.update(at as int, range),
            final(self).arena == old(self).arena,
            final(self).short == old(self).short,
            final(self).long == old(self).long,
    {
        self.front_keys.set(at, key);
        self.front_vals.set(at, range);
    }

    /// Record the tokens of a unit: they are appended to the arena, and the unit
    /// is cached with their range.
    fn record(&mut self, key_bytes: &[u8], symbols: &[TokenId], m: Ghost<SpModel>)
        requires
            old(self).fits(m@),
            key_bytes@.len() > 0,
            symbols@ == m@.unit_tokens(key_bytes@, true),
        ensures
            final(self).fits(m@),
            final(self).arena@ == old(self).arena@ + symbols@,
            forall|u: Seq<u8>| #[trigger]
                final(self).holds(u) <==> old(self).holds(u) || u == key_bytes@,
            ({
                let range = (
                    old(self).arena@.len() as usize,
                    (old(self).arena@.len() + symbols@.len()) as usize,
                );
                let key = pretoken_key(key_bytes@);
                let at = front_slot(key) as int;
                if key_bytes@.len() <= 15 {
                    &&& final(self).short@ == old(self).short@.insert(key, range)
                    &&& final(self).long == old(self).long
                    &&& final(self).front_keys@ == old(self).front_keys@.update(at, key)
                    &&& final(self).front_vals@ == old(self).front_vals@.update(at, range)
                } else {
                    &&& final(self).long@ == old(self).long@.insert(key_bytes@, range)
                    &&& final(self).short == old(self).short
                    &&& final(self).front_keys == old(self).front_keys
                    &&& final(self).front_vals == old(self).front_vals
                }
            }),
    {
        broadcast use vstd::std_specs::hash::group_hash_axioms;

        let ghost before = *self;
        let start: usize = self.arena.len();
        append_tokens(&mut self.arena, symbols);
        let end: usize = self.arena.len();
        let ghost grown = *self;
        proof {
            assert(self.arena@.subrange(start as int, end as int) =~= symbols@);
            assert(range_ok(self.arena@, (start, end), m@, key_bytes@));
            assert forall|u: Seq<u8>| #[trigger] unit_cached_ok(grown, m@, u) by {
                assert(unit_cached_ok(before, m@, u));
                lemma_range_grows(before, grown, m@, u, symbols@);
            }
        }
        match pack_pretoken_key(key_bytes) {
            Some(key) => {
                self.short.insert(key, (start, end));
                let at: usize = front_index(key);
                self.set_front(at, key, (start, end));
                proof {
                    lemma_pretoken_key_value(key_bytes@);
                    assert forall|u: Seq<u8>| #[trigger] unit_cached_ok(*self, m@, u) by {
                        assert(unit_cached_ok(grown, m@, u));
                        if 1 <= u.len() <= 15 && pretoken_key(u) == key {
                            lemma_pretoken_key_injective(u, key_bytes@);
                        }
                    }
                    assert forall|i: int| 0 <= i < FRONT_SIZE implies #[trigger] front_ok(
                        *self,
                        i,
                    ) by {
                        assert(front_ok(before, i));
                    }
                    assert forall|u: Seq<u8>| #[trigger]
                        self.holds(u) <==> before.holds(u) || u == key_bytes@ by {
                        if u.len() <= 15 && pretoken_key(u) == key {
                            lemma_pretoken_key_injective(u, key_bytes@);
                        }
                    }
                }
            },
            None => {
                self.long.insert(key_bytes, (start, end));
                proof {
                    assert forall|u: Seq<u8>| #[trigger] unit_cached_ok(*self, m@, u) by {
                        assert(unit_cached_ok(grown, m@, u));
                    }
                    assert forall|i: int| 0 <= i < FRONT_SIZE implies #[trigger] front_ok(
                        *self,
                        i,
                    ) by {
                        assert(front_ok(before, i));
                    }
                }
            },
        }
    }
}

/// The caches still fit once a cached unit is put in the front cache.
proof fn lemma_front_set(
    before: EncodeState,
    after: EncodeState,
    key: u128,
    range: (usize, usize),
    m: SpModel,
)
    requires
        before.fits(m),
        before.front_set(after, key, range),
        front_slot(key) < FRONT_SIZE,
        before.short@.contains_key(key),
        before.short@[key] == range,
    ensures
        after.fits(m),
{
    assert forall|u: Seq<u8>| #[trigger] unit_cached_ok(after, m, u) by {
        assert(unit_cached_ok(before, m, u));
    }
    assert forall|i: int| 0 <= i < FRONT_SIZE implies #[trigger] front_ok(after, i) by {
        assert(front_ok(before, i));
    }
}

/// Ranges stay what they were as the arena grows.
proof fn lemma_range_grows(
    before: EncodeState,
    after: EncodeState,
    m: SpModel,
    unit: Seq<u8>,
    more: Seq<TokenId>,
)
    requires
        unit_cached_ok(before, m, unit),
        after.arena@ == before.arena@ + more,
        after.short@ == before.short@,
        after.long@ == before.long@,
    ensures
        unit_cached_ok(after, m, unit),
{
    assert forall|range: (usize, usize)| #[trigger]
        range_ok(before.arena@, range, m, unit) implies range_ok(after.arena@, range, m, unit) by {
        assert(after.arena@.subrange(range.0 as int, range.1 as int) =~= before.arena@.subrange(
            range.0 as int,
            range.1 as int,
        ));
    }
}

/// Without spaces, a unit's symbols are the same in both modes.
proof fn lemma_modes_agree(m: SpModel, s: Seq<u8>, pos: int)
    requires
        0 <= pos,
        forall|i: int| 0 <= i < s.len() ==> #[trigger] s[i] != 0x20,
    ensures
        m.symbols_from(s, pos, true) == m.symbols_from(s, pos, false),
    decreases s.len() - pos,
{
    if pos < s.len() && width_at(s, pos) >= 1 {
        assert(s[pos] != 0x20);
        lemma_modes_agree(m, s, pos + width_at(s, pos));
    }
}

/// Whether a text has a space.
fn has_space(s: &[u8]) -> (r: bool)
    ensures
        r == exists|i: int| 0 <= i < s@.len() && #[trigger] s@[i] == 0x20,
{
    for i in 0..s.len()
        invariant
            forall|j: int| 0 <= j < i ==> #[trigger] s@[j] != 0x20,
    {
        if s[i] == 0x20 {
            return true;
        }
    }
    false
}

impl SentencePieceBPE {
    /// Encode one unit through the cache; run the ranked merge only on a miss.
    /// The cache key is the unit's bytes, with a space before them for the
    /// virtual leading space.
    pub fn encode_unit(
        &self,
        state: &mut EncodeState,
        unit: &[u8],
        virtual_prefix: bool,
        raw: bool,
        out: &mut Vec<TokenId>,
    )
        requires
            self.wf(),
            old(state).fits(self@),
            unit@.len() > 0,
            virtual_prefix ==> raw,
        ensures
            final(state).fits(self@),
            final(out)@ == old(out)@ + self@.unit_tokens(
                if virtual_prefix {
                    seq![0x20u8] + unit@
                } else {
                    unit@
                },
                raw,
            ),
    {
        let ghost m = self@;
        if !raw {
            if has_space(unit) {
                let symbols: Vec<TokenId> = self.merge_unit(unit, false);
                append_tokens(out, symbols.as_slice());
                return;
            }
            proof {
                lemma_modes_agree(m, unit@, 0);
            }
        }
        let mut key_bytes: Vec<u8> = Vec::new();
        if virtual_prefix {
            key_bytes.push(0x20);
        }
        append_bytes(&mut key_bytes, unit);
        assert(key_bytes@ =~= if virtual_prefix {
            seq![0x20u8] + unit@
        } else {
            unit@
        });
        if state.append_cached(key_bytes.as_slice(), Ghost(m), out) {
            return;
        }
        let symbols: Vec<TokenId> = self.merge_unit(key_bytes.as_slice(), true);
        state.record(key_bytes.as_slice(), symbols.as_slice(), Ghost(m));
        append_tokens(out, symbols.as_slice());
    }

    /// Split a chunk into word units and encode each through the cache.
    ///
    /// `raw` selects raw-mode marks (space or space marker) or normalized-mode
    /// marks (space marker only); `virtual_prefix` logically prepends one space
    /// to the first unit.
    pub fn encode_units(
        &self,
        state: &mut EncodeState,
        bytes: &[u8],
        virtual_prefix: bool,
        raw: bool,
        out: &mut Vec<TokenId>,
    )
        requires
            self.wf(),
            old(state).fits(self@),
            virtual_prefix ==> raw,
        ensures
            final(state).fits(self@),
            final(out)@ == old(out)@ + joined(self@.chunk_pieces(bytes@, virtual_prefix, raw)),
    {
        let ghost m = self@;
        let ghost s = bytes@;
        let ghost before = out@;
        let ghost all = m.units_from(s, 0, 0, raw);
        let ghost pieces = m.chunk_pieces(s, virtual_prefix, raw);
        let n: usize = bytes.len();
        let mut unit_start: usize = 0;
        let mut first_unit: bool = true;
        let mut p: usize = 0;
        let ghost mut done: int = 0;
        proof {
            assert(pieces.take(0) =~= Seq::<Seq<TokenId>>::empty());
            assert(all.skip(0) =~= all);
            assert(out@ =~= before + joined(pieces.take(0)));
        }
        while p < n
            invariant
                self.wf(),
                state.fits(m),
                m == self@,
                s == bytes@,
                n == s.len(),
                all == m.units_from(s, 0, 0, raw),
                pieces == m.chunk_pieces(s, virtual_prefix, raw),
                pieces.len() == all.len(),
                virtual_prefix ==> raw,
                unit_start <= p <= n,
                unit_start == p ==> p == 0,
                0 <= done <= all.len(),
                first_unit == (done == 0),
                all.skip(done) == m.units_from(s, unit_start as int, p as int, raw),
                out@ == before + joined(pieces.take(done)),
            decreases n - p,
        {
            if self.ends_unit(bytes, p, raw) {
                let ghost rest = m.units_from(s, p as int, p + 1, raw);
                let ghost unit = s.subrange(unit_start as int, p as int);
                proof {
                    assert(all.skip(done) == seq![unit] + rest);
                    assert(all.skip(done).len() == all.len() - done);
                    assert(all[done] == all.skip(done)[0]);
                    assert((seq![unit] + rest).skip(1) =~= rest);
                    assert(all.skip(done).skip(1) =~= all.skip(done + 1));
                    lemma_pieces_step(m, s, virtual_prefix, raw, done);
                }
                self.encode_unit(
                    state,
                    &bytes[unit_start..p],
                    virtual_prefix && first_unit,
                    raw,
                    out,
                );
                first_unit = false;
                unit_start = p;
                proof {
                    done = done + 1;
                }
            }
            p = p + 1;
        }
        if unit_start < n {
            proof {
                assert(all.skip(done) == seq![s.skip(unit_start as int)]);
                assert(all[done] == all.skip(done)[0]);
                assert(all.len() == done + 1);
                assert(s.skip(unit_start as int) =~= s.subrange(unit_start as int, n as int));
                lemma_pieces_step(m, s, virtual_prefix, raw, done);
                assert(pieces.take(done + 1) =~= pieces);
            }
            self.encode_unit(
                state,
                &bytes[unit_start..n],
                virtual_prefix && first_unit,
                raw,
                out,
            );
        } else {
            assert(all.skip(done) == Seq::<Seq<u8>>::empty());
            assert(all.skip(done).len() == all.len() - done);
            assert(pieces.take(done) =~= pieces);
        }
    }

    /// Encode already-normalized text: unit split with the cache, or a
    /// whole-chunk merge when units aren't safe.
    pub fn encode_normalized(&self, state: &mut EncodeState, input: &[u8], out: &mut Vec<TokenId>)
        requires
            self.wf(),
            old(state).fits(self@),
        ensures
            final(state).fits(self@),
            final(out)@ == old(out)@ + self@.normalized_tokens(input@),
    {
        if self.word_split() == WordSplit::Whole {
            let symbols: Vec<TokenId> = self.merge_unit(input, false);
            append_tokens(out, symbols.as_slice());
        } else {
            self.encode_units(state, input, false, false, out);
        }
    }

    /// Raw fast path: split un-normalized text into units directly, mapping
    /// spaces to marks on the fly. The dummy-prefix mark becomes a virtual
    /// leading space on the first unit, which keys and encodes identically.
    fn encode_chunk_raw(
        &self,
        state: &mut EncodeState,
        chunk: &[u8],
        first_chunk: bool,
        prepend: RawPrepend,
        out: &mut Vec<TokenId>,
    )
        requires
            self.wf(),
            old(state).fits(self@),
        ensures
            final(state).fits(self@),
            final(out)@ == old(out)@ + if chunk@.len() == 0 {
                Seq::<TokenId>::empty()
            } else {
                joined(
                    self@.chunk_pieces(
                        chunk@,
                        self@.prefixes(prepend, chunk@, first_chunk),
                        true,
                    ),
                )
            },
    {
        if chunk.len() == 0 {
            assert(out@ + Seq::<TokenId>::empty() =~= out@);
            return;
        }
        let starts_with_mark: bool = chunk[0] == 0x20 || is_mark_char(chunk, 0);
        let virtual_prefix: bool = match prepend {
            RawPrepend::Unguarded => true,
            RawPrepend::GuardedAlways => !starts_with_mark,
            RawPrepend::GuardedFirst => first_chunk && !starts_with_mark,
            RawPrepend::Never => false,
        };
        self.encode_units(state, chunk, virtual_prefix, true, out);
    }

    /// Encode one raw section: the raw fast path when eligible, otherwise
    /// normalizer ops, normalized added-token splitting, Metaspace and BPE. The
    /// parts around a normalized added-token match are not normalized again.
    pub fn encode_section(
        &self,
        state: &mut EncodeState,
        text: &[u8],
        first_chunk: bool,
        out: &mut Vec<TokenId>,
    )
        requires
            self.wf(),
            old(state).fits(self@),
        ensures
            final(state).fits(self@),
            final(out)@ == old(out)@ + self@.section_tokens(text@, first_chunk),
    {
        if let Some(prepend) = self.raw_prepend() {
            self.encode_chunk_raw(state, text, first_chunk, prepend, out);
            return;
        }
        let normed: Vec<u8> = self.apply_norm_ops(text);
        if self.norm_added_tokens().len() == 0 {
            let final_text: Vec<u8> = self.apply_metaspace(normed.as_slice(), first_chunk);
            self.encode_normalized(state, final_text.as_slice(), out);
            return;
        }
        self.encode_normed(state, normed.as_slice(), first_chunk, out);
    }

    /// Encode normalizer output with normalized added tokens split out.
    #[verifier::spinoff_prover]
    #[verifier::rlimit(30)]
    fn encode_normed(
        &self,
        state: &mut EncodeState,
        normed: &[u8],
        first_chunk: bool,
        out: &mut Vec<TokenId>,
    )
        requires
            self.wf(),
            old(state).fits(self@),
        ensures
            final(state).fits(self@),
            final(out)@ == old(out)@ + self@.section_from(normed@, first_chunk),
    {
        let ghost m = self@;
        let ghost before = out@;
        let n: usize = normed.len();
        let mut at: usize = 0;
        let mut first: bool = first_chunk;
        assert(normed@.skip(0) =~= normed@);
        while at < n
            invariant
                self.wf(),
                m == self@,
                state.fits(m),
                n == normed@.len(),
                at <= n,
                out@ + m.section_from(normed@.skip(at as int), first) =~= before + m.section_from(
                    normed@,
                    first_chunk,
                ),
            decreases n - at,
        {
            let remaining: &[u8] = &normed[at..n];
            let ghost rem = remaining@;
            assert(rem =~= normed@.skip(at as int));
            match self.norm_added_tokens().find(remaining, 0, false) {
                Some((start, end, k)) => {
                    let spec: &SpecBytes = self.norm_added_tokens().token(k);
                    let len: usize = if spec.lstrip {
                        ink_len(&remaining[0..start])
                    } else {
                        start
                    };
                    proof {
                        assert(rem.subrange(0, start as int) =~= rem.take(start as int));
                        assert(rem.take(start as int).take(start as int) =~= rem.take(
                            start as int,
                        ));
                        assert(rem.subrange(0, len as int) =~= rem.take(start as int).take(
                            len as int,
                        ));
                    }
                    let ghost prior = out@;
                    let part: &[u8] = &remaining[0..len];
                    if len > 0 {
                        let final_text: Vec<u8> = self.apply_metaspace(part, first);
                        self.encode_normalized(state, final_text.as_slice(), out);
                    } else {
                        assert(out@ =~= prior + Seq::<TokenId>::empty());
                    }
                    let ghost mid = out@;
                    out.push(spec.id);
                    assert(out@ =~= mid + seq![spec.id]);
                    let total: usize = remaining.len();
                    let rest: &[u8] = &remaining[end..total];
                    assert(rest@ =~= rem.skip(end as int));
                    let skip: usize = if spec.rstrip {
                        skip_spaces(rest, 0)
                    } else {
                        0
                    };
                    proof {
                        assert(normed@.skip(at + end + skip) =~= rem.skip(end as int).skip(
                            skip as int,
                        ));
                        assert(rem.skip(end as int).skip(0) =~= rem.skip(end as int));
                    }
                    first = false;
                    if end + skip == 0 {
                        assert(rem.skip(0) =~= rem);
                        assert(normed@.skip(n as int) =~= Seq::<u8>::empty());
                        at = n;
                    } else {
                        at = at + end + skip;
                    }
                },
                None => {
                    let final_text: Vec<u8> = self.apply_metaspace(remaining, first);
                    self.encode_normalized(state, final_text.as_slice(), out);
                    at = n;
                    proof {
                        assert(normed@.skip(n as int) =~= Seq::<u8>::empty());
                        assert(m.section_from(normed@.skip(n as int), first) =~= Seq::<
                            TokenId,
                        >::empty());
                    }
                },
            }
        }
        proof {
            assert(normed@.skip(n as int) =~= Seq::<u8>::empty());
        }
    }

    /// Encode raw (un-normalized) text with added-token splitting: first the
    /// raw-matched tokens, then, per remaining section, the normalizer ops, the
    /// normalized-matched tokens, and Metaspace and BPE.
    #[verifier::spinoff_prover]
    #[verifier::rlimit(40)]
    pub fn encode_raw_with(&self, state: &mut EncodeState, input: &[u8], out: &mut Vec<TokenId>)
        requires
            self.wf(),
            old(state).fits(self@),
        ensures
            final(state).fits(self@),
            final(out)@ == old(out)@ + self@.tokens(input@),
    {
        let ghost m = self@;
        let ghost s = input@;
        if self.added_tokens().len() == 0 {
            self.encode_section(state, input, true, out);
            return;
        }
        let ghost before = out@;
        let n: usize = input.len();
        let mut from: usize = 0;
        let mut behind: bool = false;
        let mut chunk_start: usize = 0;
        let mut first_chunk: bool = true;
        let mut more: bool = true;
        while more
            invariant
                self.wf(),
                m == self@,
                state.fits(m),
                s == input@,
                n == s.len(),
                from <= n,
                chunk_start <= n,
                more ==> out@ + m.tokens_from(
                    s,
                    from as int,
                    behind,
                    chunk_start as int,
                    first_chunk,
                ) =~= before + m.tokens_from(s, 0, false, 0, true),
                !more ==> out@ == before + m.tokens_from(s, 0, false, 0, true),
            decreases n - from, (if behind { 0int } else { 1int }) + if more { 1int } else { 0 },
        {
            match self.added_tokens().find(input, from, behind) {
                None => {
                    if chunk_start < n {
                        assert(s.subrange(chunk_start as int, n as int) =~= s.skip(
                            chunk_start as int,
                        ));
                        self.encode_section(state, &input[chunk_start..n], first_chunk, out);
                    } else {
                        assert(out@ + Seq::<TokenId>::empty() =~= out@);
                    }
                    more = false;
                },
                Some((start, end, k)) => {
                    if start >= chunk_start {
                        let spec: &SpecBytes = self.added_tokens().token(k);
                        let ghost whole = s.subrange(chunk_start as int, start as int);
                        let len: usize = if spec.lstrip {
                            ink_len(&input[chunk_start..start])
                        } else {
                            start - chunk_start
                        };
                        let part: &[u8] = &input[chunk_start..chunk_start + len];
                        proof {
                            assert(part@ =~= whole.take(len as int));
                            assert(whole.take(whole.len() as int) =~= whole);
                        }
                        let ghost prior = out@;
                        if len > 0 {
                            self.encode_section(state, part, first_chunk, out);
                        } else {
                            assert(out@ =~= prior + Seq::<TokenId>::empty());
                        }
                        let ghost mid = out@;
                        out.push(spec.id);
                        assert(out@ =~= mid + seq![spec.id]);
                        let rest: &[u8] = &input[end..n];
                        assert(rest@ =~= s.skip(end as int));
                        let skip: usize = if spec.rstrip {
                            skip_spaces(rest, 0)
                        } else {
                            0
                        };
                        proof {
                            let rest = m.tokens_from(s, end as int, true, end + skip, false);
                            let mine = if part@.len() == 0 {
                                Seq::empty()
                            } else {
                                m.section_tokens(part@, first_chunk)
                            };
                            assert(m.tokens_from(
                                s,
                                from as int,
                                behind,
                                chunk_start as int,
                                first_chunk,
                            ) == mine + seq![spec.id] + rest);
                            assert(out@ + rest =~= prior + (mine + seq![spec.id] + rest));
                        }
                        chunk_start = end + skip;
                        first_chunk = false;
                    } else {
                        assert(m.tokens_from(
                            s,
                            from as int,
                            behind,
                            chunk_start as int,
                            first_chunk,
                        ) == m.tokens_from(
                            s,
                            end as int,
                            true,
                            chunk_start as int,
                            first_chunk,
                        ));
                    }
                    from = end;
                    behind = true;
                },
            }
        }
    }

    /// Create an encoder for this model.
    pub fn encoder(&self) -> (e: Encoder<'_>)
        requires
            self.wf(),
        ensures
            e.wf(),
            e.model() == self@,
    {
        Encoder { model: self, state: EncodeState::new() }
    }

    /// Convenience: encode a single text (creates a temporary encoder).
    pub fn encode_raw(&self, input: &str) -> (r: Vec<TokenId>)
        requires
            self.wf(),
        ensures
            r@ == self@.tokens(encode_utf8(input@)),
    {
        let mut e: Encoder<'_> = self.encoder();
        e.encode_raw(input)
    }
}

/// One more unit of a chunk.
proof fn lemma_pieces_step(m: SpModel, s: Seq<u8>, virtual_prefix: bool, raw: bool, k: int)
    requires
        0 <= k < m.units_from(s, 0, 0, raw).len(),
    ensures
        ({
            let all = m.units_from(s, 0, 0, raw);
            let pieces = m.chunk_pieces(s, virtual_prefix, raw);
            joined(pieces.take(k + 1)) == joined(pieces.take(k)) + m.unit_tokens(
                if virtual_prefix && k == 0 {
                    seq![0x20u8] + all[k]
                } else {
                    all[k]
                },
                raw,
            )
        }),
{
    let all = m.units_from(s, 0, 0, raw);
    let pieces = m.chunk_pieces(s, virtual_prefix, raw);
    assert(pieces.take(k + 1) =~= pieces.take(k) + seq![pieces[k]]);
    lemma_joined_concat(pieces.take(k), seq![pieces[k]]);
    lemma_joined_one(pieces[k]);
}

/// An encoder that holds a reference to the model plus its own cache. Create
/// one per thread for parallel encoding.
pub struct Encoder<'a> {
    model: &'a SentencePieceBPE,
    state: EncodeState,
}

impl<'a> Encoder<'a> {
    /// What the model holds.
    pub closed spec fn model(self) -> SpModel {
        self.model@
    }

    /// The model is in order, and the caches fit it.
    pub closed spec fn wf(self) -> bool {
        self.model.wf() && self.state.fits(self.model@)
    }

    /// Encode raw (un-normalized) text with added-token splitting.
    pub fn encode_raw(&mut self, input: &str) -> (r: Vec<TokenId>)
        requires
            old(self).wf(),
        ensures
            final(self).wf(),
            final(self).model() == old(self).model(),
            r@ == old(self).model().tokens(encode_utf8(input@)),
    {
        let mut r: Vec<TokenId> = Vec::new();
        self.model.encode_raw_with(&mut self.state, input.as_bytes(), &mut r);
        assert(r@ =~= self.model@.tokens(encode_utf8(input@)));
        r
    }
}

} // verus!
