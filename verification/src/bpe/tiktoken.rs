//! Byte-level BPE tokenizer (tiktoken / GPT-2 style).

use vstd::pervasive::unreached;
use vstd::prelude::*;

use crate::bpe::added::{
    added_views, by_descending_len, matching_order, next_added, Added, AddedTokens,
};
use crate::bpe::merge::MergeTable;
use crate::bpe::model::{
    joined, lemma_joined_concat, lemma_joined_one, merges_from_ranks, rank_merges, rank_ok,
    ranks_mergeable, remap_view, vocab_inverse, Model, ModelView, Unmergeable,
};
use crate::bpe::pretoken_cache::{ShortPretokenCache, MAX_SLOTS};
use crate::bpe::ranked::{lemma_rank_sorted_covers, rank_sorted, sort_by_rank};
use crate::bpe::remap::{byte_table, identity_table, lacks_byte, ByteRemapping, MissingByte};
use crate::bpe::symbols::MergeScratch;
use crate::bpe::values::{
    append_tokens, append_val, lemma_val_arena_grows, pack_val, val_tokens, val_valid,
};
use crate::bpe::vocab::{
    assigned_entries, decode_ids, decoded, entry_views, in_vocab, vocab_entries,
};
use crate::byte_map::ByteMap;
use crate::pretokenize::gpt2::pretokens;
use crate::pretokenize::keys::{
    lemma_pretoken_key_injective, lemma_pretoken_key_value, pack_pretoken_key, pretoken_key,
    pretoken_key_hash,
};
use crate::pretokenize::options::PretokenizerType;
use crate::pretokenize::pretoken::slice_views;
use crate::pretokenize::r50k::FastR50kPretokenizer;
use crate::pretokenize::spans::{span_hash, span_key, PretokenSpans, SpanBatch, PRETOKEN_CHUNK};
use crate::seqs::byte_seqs;
use crate::text::{nfc_apart, nfc_bytes, nfc_keeps_ascii, nfc_segment};
use crate::token::TokenId;

verus! {

/// What decides how a tokenizer encodes text.
#[verifier::ext_equal]
pub struct Encoding {
    pub model: ModelView,
    /// The added tokens, in matching order.
    pub added: Seq<Added>,
    pub scheme: PretokenizerType,
    /// Whether the segments between added tokens are put in NFC.
    pub nfc: bool,
}

impl Encoding {
    /// The pretokens of normalized text. There is a splitter for the GPT-2 scheme
    /// alone; of the others nothing is said.
    pub open spec fn split(self, text: Seq<u8>) -> Seq<Seq<u8>> {
        match self.scheme {
            PretokenizerType::GPT2 => pretokens(text),
            _ => arbitrary(),
        }
    }

    /// The encoding of each pretoken of a segment without added tokens.
    pub open spec fn segment_pieces(self, seg: Seq<u8>) -> Seq<Seq<TokenId>> {
        self.model.pieces_of(self.split(if self.nfc {
            nfc_bytes(seg)
        } else {
            seg
        }))
    }

    /// The encoding of a text from `from` on: of each pretoken of the segment
    /// up to the next added token, of that token, and of what follows it.
    pub open spec fn pieces_from(self, s: Seq<u8>, from: int) -> Seq<Seq<TokenId>>
        decreases s.len() - from,
    {
        if from < 0 || from >= s.len() {
            Seq::empty()
        } else {
            match next_added(self.added, s, from) {
                None => self.segment_pieces(s.skip(from)),
                Some((start, end, id)) => if from <= start < end <= s.len() {
                    self.segment_pieces(s.subrange(from, start)) + seq![seq![id]]
                        + self.pieces_from(s, end)
                } else {
                    Seq::empty()
                },
            }
        }
    }

    /// The encoding of a text, pretoken by pretoken and added token by added token.
    pub open spec fn pieces(self, s: Seq<u8>) -> Seq<Seq<TokenId>> {
        self.pieces_from(s, 0)
    }

    /// The encoding of a text.
    pub open spec fn tokens(self, s: Seq<u8>) -> Seq<TokenId> {
        joined(self.pieces(s))
    }
}

/// How a tokenizer over `model` encodes that has no added tokens.
pub open spec fn plain_encoding(model: ModelView) -> Encoding {
    Encoding { model, added: Seq::empty(), scheme: PretokenizerType::GPT2, nfc: false }
}

/// The tables of a vocabulary in rank order.
pub open spec fn ranked_model(vocab: Seq<Seq<u8>>) -> ModelView {
    let inv = vocab_inverse(vocab, vocab.len() as int);
    ModelView {
        merges: rank_merges(vocab, inv, vocab.len() as int),
        vocab,
        inv,
        remap: if byte_table(vocab) == identity_table() {
            None
        } else {
            Some(byte_table(vocab))
        },
    }
}

/// Why a list of tokens is no vocabulary in rank order.
#[derive(Debug, Clone, Copy, PartialEq, Eq, Structural)]
pub enum RanksError {
    /// A token does not fall apart into two tokens before it.
    Unmergeable(u32),
    /// A byte value that can appear in valid UTF-8 has no single-byte token.
    MissingByte(u8),
}

/// The total length of byte strings.
pub open spec fn total_len(list: Seq<Seq<u8>>) -> nat
    decreases list.len(),
{
    if list.len() == 0 {
        0
    } else {
        total_len(list.drop_last()) + list.last().len()
    }
}

/// The contents of a list of byte string pairs.
pub open spec fn byte_pair_views(v: Seq<(&[u8], &[u8])>) -> Seq<(Seq<u8>, Seq<u8>)> {
    v.map_values(|e: (&[u8], &[u8])| (e.0@, e.1@))
}

impl ModelView {
    /// Whether every pair that merges is of tokens of the vocabulary.
    pub open spec fn merges_in_vocab(self) -> bool {
        forall|p: (TokenId, TokenId)| #[trigger]
            self.merges.contains_key(p) ==> p.0.0 < self.vocab.len() && p.1.0 < self.vocab.len()
    }

    /// Whether `pairs` lists the pairs that merge, each once, by the token they
    /// merge into.
    pub open spec fn merge_order(self, pairs: Seq<(TokenId, TokenId)>) -> bool {
        &&& pairs.no_duplicates()
        &&& forall|p: (TokenId, TokenId)| #[trigger]
            self.merges.contains_key(p) <==> pairs.contains(p)
        &&& forall|i: int, j: int|
            0 <= i < j < pairs.len() ==> self.merges[#[trigger] pairs[i]].0
                <= self.merges[#[trigger] pairs[j]].0
    }

    /// The bytes of pairs of tokens.
    pub open spec fn pair_bytes(self, pairs: Seq<(TokenId, TokenId)>) -> Seq<(Seq<u8>, Seq<u8>)> {
        pairs.map_values(
            |p: (TokenId, TokenId)| (self.vocab[p.0.0 as int], self.vocab[p.1.0 as int]),
        )
    }
}

/// Raw ids.
pub open spec fn raw_ids(tokens: Seq<TokenId>) -> Seq<u32> {
    tokens.map_values(|t: TokenId| t.0)
}

/// The tokens of each piece.
pub open spec fn piece_views(pieces: Seq<Vec<TokenId>>) -> Seq<Seq<TokenId>> {
    pieces.map_values(|p: Vec<TokenId>| p@)
}

/// Append the raw ids of `tokens`.
pub fn append_ids(out: &mut Vec<u32>, tokens: &[TokenId])
    ensures
        final(out)@ == old(out)@ + raw_ids(tokens@),
{
    let ghost before = out@;
    for i in 0..tokens.len()
        invariant
            out@ == before + raw_ids(tokens@.take(i as int)),
    {
        out.push(tokens[i].0);
        assert(raw_ids(tokens@.take(i as int + 1)) =~= raw_ids(tokens@.take(i as int)).push(
            tokens@[i as int].0,
        ));
    }
    assert(tokens@.take(tokens@.len() as int) =~= tokens@);
}

/// Byte-level BPE tokenizer (tiktoken / GPT-2 style).
///
/// Initial symbols are individual bytes (0-255). Merge priority is determined
/// by the merged token's vocab ID (lower = first), which equals the merge rank
/// for tiktoken vocabularies.
pub struct Tokenizer {
    model: Model,
    /// Append-only arena of encoded tokens. Cache entries that do not fit
    /// inline hold ranges of it.
    token_arena: Vec<TokenId>,
    /// Cache for pretokens of 1 to 15 bytes.
    pretoken_cache: ShortPretokenCache,
    /// Cache for the other pretokens: the range of the arena.
    pretoken_cache_long: ByteMap<(usize, usize)>,
    merge_scratch: MergeScratch,
    pretokenizer_type: PretokenizerType,
    added_tokens: AddedTokens,
    normalize_nfc: bool,
}

/// Whether a cache entry for `p` says what the tables say.
spec fn short_entry_ok(
    cache: Map<u128, (u64, u64)>,
    arena: Seq<TokenId>,
    m: ModelView,
    p: Seq<u8>,
) -> bool {
    1 <= p.len() <= 15 && cache.contains_key(pretoken_key(p)) ==> {
        let (val, ext) = cache[pretoken_key(p)];
        val_valid(val, arena) && val_tokens(val, ext, arena) == m.pretoken_tokens(p)
    }
}

/// Whether every entry of the short cache says what the tables say.
spec fn short_ok(cache: Map<u128, (u64, u64)>, arena: Seq<TokenId>, m: ModelView) -> bool {
    forall|p: Seq<u8>| #[trigger] short_entry_ok(cache, arena, m, p)
}

/// Whether `p` is a vocabulary entry that a short-pretoken cache is seeded with.
spec fn seeds(m: ModelView, p: Seq<u8>) -> bool {
    1 <= p.len() <= 15 && m.vocab.contains(p) && m.inv.contains_key(p)
}

/// Whether a short-pretoken cache has seeds alone.
spec fn only_seeds(cache: Map<u128, (u64, u64)>, m: ModelView) -> bool {
    forall|key: u128| #[trigger]
        cache.contains_key(key) ==> exists|p: Seq<u8>| #[trigger]
            seeds(m, p) && pretoken_key(p) == key
}

/// Whether a short-pretoken cache has every seed among the entries from id `k` on.
spec fn has_seeds(cache: Map<u128, (u64, u64)>, m: ModelView, k: int) -> bool {
    forall|i: int|
        k <= i < m.vocab.len() && seeds(m, #[trigger] m.vocab[i]) ==> cache.contains_key(
            pretoken_key(m.vocab[i]),
        )
}

/// The two statements on seeds still hold with one more seed.
proof fn lemma_seed_inserted(
    cache: Map<u128, (u64, u64)>,
    m: ModelView,
    k: int,
    p: Seq<u8>,
    v: (u64, u64),
)
    requires
        only_seeds(cache, m),
        seeds(m, p),
    ensures
        only_seeds(cache.insert(pretoken_key(p), v), m),
        has_seeds(cache, m, k + 1) && 0 <= k && m.vocab[k] == p ==> has_seeds(
            cache.insert(pretoken_key(p), v),
            m,
            k,
        ),
{
    let after = cache.insert(pretoken_key(p), v);
    assert forall|key: u128| #[trigger] after.contains_key(key) implies exists|q: Seq<u8>|
        #[trigger] seeds(m, q) && pretoken_key(q) == key by {
        if key != pretoken_key(p) {
            assert(cache.contains_key(key));
        }
    }
}

/// A cache with every seed from id 0 on has every seed.
proof fn lemma_all_seeds(cache: Map<u128, (u64, u64)>, m: ModelView)
    requires
        has_seeds(cache, m, 0),
    ensures
        forall|p: Seq<u8>| #[trigger] seeds(m, p) ==> cache.contains_key(pretoken_key(p)),
{
    assert forall|p: Seq<u8>| #[trigger] seeds(m, p) implies cache.contains_key(
        pretoken_key(p),
    ) by {
        let i = choose|i: int| 0 <= i < m.vocab.len() && m.vocab[i] == p;
        assert(seeds(m, m.vocab[i]));
    }
}

/// How many of the first `k` vocabulary entries are of 1..=15 bytes.
spec fn short_entries(vocab: Seq<Seq<u8>>, k: int) -> int
    decreases k,
{
    if k <= 0 {
        0
    } else {
        short_entries(vocab, k - 1) + if 1 <= vocab[k - 1].len() <= 15 {
            1int
        } else {
            0
        }
    }
}

/// One more vocabulary entry counts for one, where it is short.
proof fn lemma_short_entries(vocab: Seq<Seq<u8>>, k: int)
    requires
        0 <= k,
    ensures
        0 <= short_entries(vocab, k),
        short_entries(vocab, k + 1) == short_entries(vocab, k) + if 1 <= vocab[k].len() <= 15 {
            1int
        } else {
            0
        },
    decreases k,
{
    if k > 0 {
        lemma_short_entries(vocab, k - 1);
    }
}

/// Whether a cache entry for `p` says what the tables say.
spec fn long_entry_ok(
    cache: Map<Seq<u8>, (usize, usize)>,
    arena: Seq<TokenId>,
    m: ModelView,
    p: Seq<u8>,
) -> bool {
    !(1 <= p.len() <= 15) && cache.contains_key(p) ==> {
        let (start, end) = cache[p];
        start <= end <= arena.len() && arena.subrange(start as int, end as int)
            == m.pretoken_tokens(p)
    }
}

/// Whether every entry of the long cache says what the tables say.
spec fn long_ok(cache: Map<Seq<u8>, (usize, usize)>, arena: Seq<TokenId>, m: ModelView) -> bool {
    forall|p: Seq<u8>| #[trigger] long_entry_ok(cache, arena, m, p)
}

proof fn lemma_short_arena_grows(
    cache: Map<u128, (u64, u64)>,
    arena: Seq<TokenId>,
    more: Seq<TokenId>,
    m: ModelView,
)
    requires
        short_ok(cache, arena, m),
    ensures
        short_ok(cache, arena + more, m),
{
    assert forall|p: Seq<u8>| #[trigger] short_entry_ok(cache, arena + more, m, p) by {
        assert(short_entry_ok(cache, arena, m, p));
        if 1 <= p.len() <= 15 && cache.contains_key(pretoken_key(p)) {
            let (val, ext) = cache[pretoken_key(p)];
            lemma_val_arena_grows(val, ext, arena, more);
        }
    }
}

proof fn lemma_long_arena_grows(
    cache: Map<Seq<u8>, (usize, usize)>,
    arena: Seq<TokenId>,
    more: Seq<TokenId>,
    m: ModelView,
)
    requires
        long_ok(cache, arena, m),
    ensures
        long_ok(cache, arena + more, m),
{
    assert forall|p: Seq<u8>| #[trigger] long_entry_ok(cache, arena + more, m, p) by {
        assert(long_entry_ok(cache, arena, m, p));
        if !(1 <= p.len() <= 15) && cache.contains_key(p) {
            let (start, end) = cache[p];
            assert((arena + more).subrange(start as int, end as int) =~= arena.subrange(
                start as int,
                end as int,
            ));
        }
    }
}

proof fn lemma_short_insert(
    cache: Map<u128, (u64, u64)>,
    arena: Seq<TokenId>,
    m: ModelView,
    p: Seq<u8>,
    val: u64,
    ext: u64,
)
    requires
        short_ok(cache, arena, m),
        1 <= p.len() <= 15,
        val_valid(val, arena),
        val_tokens(val, ext, arena) == m.pretoken_tokens(p),
    ensures
        short_ok(cache.insert(pretoken_key(p), (val, ext)), arena, m),
{
    let new = cache.insert(pretoken_key(p), (val, ext));
    assert forall|q: Seq<u8>| #[trigger] short_entry_ok(new, arena, m, q) by {
        assert(short_entry_ok(cache, arena, m, q));
        if 1 <= q.len() <= 15 && pretoken_key(q) == pretoken_key(p) {
            lemma_pretoken_key_injective(p, q);
        }
    }
}

/// Tables with the same merges, reverse vocabulary and bytes encode alike.
proof fn lemma_same_tokens(a: ModelView, b: ModelView)
    requires
        a.merges == b.merges,
        a.inv == b.inv,
        a.remap == b.remap,
    ensures
        forall|p: Seq<u8>| a.pretoken_tokens(p) == #[trigger] b.pretoken_tokens(p),
{
}

proof fn lemma_short_model(
    cache: Map<u128, (u64, u64)>,
    arena: Seq<TokenId>,
    a: ModelView,
    b: ModelView,
)
    requires
        short_ok(cache, arena, a),
        forall|p: Seq<u8>|
            cache.contains_key(pretoken_key(p)) && 1 <= p.len() <= 15 ==> a.pretoken_tokens(p)
                == #[trigger] b.pretoken_tokens(p),
    ensures
        short_ok(cache, arena, b),
{
    assert forall|p: Seq<u8>| #[trigger] short_entry_ok(cache, arena, b, p) by {
        assert(short_entry_ok(cache, arena, a, p));
    }
}

proof fn lemma_long_model(
    cache: Map<Seq<u8>, (usize, usize)>,
    arena: Seq<TokenId>,
    a: ModelView,
    b: ModelView,
)
    requires
        long_ok(cache, arena, a),
        forall|p: Seq<u8>|
            cache.contains_key(p) && !(1 <= p.len() <= 15) ==> a.pretoken_tokens(p)
                == #[trigger] b.pretoken_tokens(p),
    ensures
        long_ok(cache, arena, b),
{
    assert forall|p: Seq<u8>| #[trigger] long_entry_ok(cache, arena, b, p) by {
        assert(long_entry_ok(cache, arena, a, p));
    }
}

impl Tokenizer {
    /// Keep the caches in step once `id` has become the token of `content`.
    fn reseed(&mut self, content: &[u8], id: TokenId, before: Ghost<ModelView>)
        requires
            old(self).model.wf(),
            old(self).pretoken_cache.wf(),
            old(self).pretoken_cache_long.wf(),
            old(self).merge_scratch.wf(),
            old(self).added_tokens.wf(),
            short_ok(old(self).pretoken_cache@, old(self).token_arena@, before@),
            long_ok(old(self).pretoken_cache_long@, old(self).token_arena@, before@),
            old(self).model@.merges == before@.merges,
            old(self).model@.remap == before@.remap,
            old(self).model@.inv == before@.inv.insert(content@, id),
            old(self).normalize_nfc ==> nfc_apart(),
        ensures
            final(self).wf(),
            final(self).encoding() == old(self).encoding(),
    {
        let ghost m = self.model@;
        let ghost arena = self.token_arena@;
        let ghost short = self.pretoken_cache@;
        let ghost long = self.pretoken_cache_long@;
        assert(forall|p: Seq<u8>|
            p != content@ ==> before@.pretoken_tokens(p) == #[trigger] m.pretoken_tokens(p));
        assert(m.pretoken_tokens(content@) == seq![id]);
        let one: [TokenId; 1] = [id];
        assert(one@ =~= seq![id]);
        if 1 <= content.len() && content.len() <= 15 {
            proof {
                lemma_pretoken_key_value(content@);
                lemma_long_model(long, arena, before@, m);
            }
            match (pack_pretoken_key(content), pack_val(&one, &mut self.token_arena)) {
                (Some(key), Some((val, ext))) => {
                    let h: u64 = pretoken_key_hash(key);
                    proof {
                        let more = self.token_arena@.skip(arena.len() as int);
                        assert(self.token_arena@ =~= arena + more);
                        lemma_short_arena_grows(short, arena, more, before@);
                        lemma_long_arena_grows(long, arena, more, m);
                    }
                    self.pretoken_cache.replace(key, h, val, ext);
                    proof {
                        let now = self.pretoken_cache@;
                        let grown = self.token_arena@;
                        assert forall|p: Seq<u8>| #[trigger] short_entry_ok(now, grown, m, p) by {
                            assert(short_entry_ok(short, grown, before@, p));
                            if 1 <= p.len() <= 15 && pretoken_key(p) == key {
                                lemma_pretoken_key_injective(p, content@);
                            }
                        }
                    }
                },
                _ => {
                    self.token_arena.truncate(0);
                    self.pretoken_cache = ShortPretokenCache::new();
                    self.pretoken_cache_long = ByteMap::new();
                },
            }
        } else {
            proof {
                lemma_short_model(short, arena, before@, m);
            }
            let start: usize = self.token_arena.len();
            append_tokens(&mut self.token_arena, &one);
            let end: usize = self.token_arena.len();
            self.pretoken_cache_long.insert(content, (start, end));
            proof {
                let now = self.token_arena@;
                lemma_short_arena_grows(short, arena, one@, m);
                lemma_long_arena_grows(long, arena, one@, before@);
                assert(now.subrange(start as int, end as int) =~= one@);
                assert forall|p: Seq<u8>| #[trigger]
                    long_entry_ok(self.pretoken_cache_long@, now, m, p) by {
                    assert(long_entry_ok(long, now, before@, p));
                }
            }
        }
    }
}

impl Tokenizer {
    /// How this tokenizer encodes.
    pub closed spec fn encoding(self) -> Encoding {
        Encoding {
            model: self.model@,
            added: self.added_tokens@,
            scheme: self.pretokenizer_type,
            nfc: self.normalize_nfc,
        }
    }

    /// The parts are in order, and the caches say what the tables say.
    pub closed spec fn wf(self) -> bool {
        &&& self.model.wf()
        &&& self.pretoken_cache.wf()
        &&& self.pretoken_cache_long.wf()
        &&& self.merge_scratch.wf()
        &&& self.added_tokens.wf()
        &&& short_ok(self.pretoken_cache@, self.token_arena@, self.model@)
        &&& long_ok(self.pretoken_cache_long@, self.token_arena@, self.model@)
        &&& self.normalize_nfc ==> nfc_apart()
    }

    /// What holds of every tokenizer: its reverse vocabulary agrees with its
    /// vocabulary, its ids fit in 32 bits, its added tokens are in matching order,
    /// and where it puts text in NFC that can be done apart before ASCII.
    pub proof fn lemma_wf(self)
        requires
            self.wf(),
        ensures
            self.encoding().model.inverse_agrees(),
            self.encoding().model.vocab.len() <= u32::MAX,
            matching_order(self.encoding().added),
            self.encoding().nfc_apart(),
    {
        self.added_tokens.lemma_wf();
        assert(self.model@.vocab.len() == self.model.vocab@.len());
    }

    /// Everything [`Self::probe_emit_chunk`] does not find in a home pair:
    /// append the tokens of one pretoken, from a cache where it is there.
    fn probe_emit_slow(&mut self, bytes: &[u8], key: u128, h: u64, out: &mut Vec<TokenId>)
        requires
            old(self).wf(),
            key == span_key(bytes@),
            h == span_hash(bytes@),
        ensures
            final(self).wf(),
            final(self).encoding() == old(self).encoding(),
            final(out)@ == old(out)@ + old(self).encoding().model.pretoken_tokens(bytes@),
    {
        proof {
            if bytes@.len() <= 15 {
                lemma_pretoken_key_value(bytes@);
            }
        }
        if key != 0 {
            assert(short_entry_ok(
                self.pretoken_cache@,
                self.token_arena@,
                self.model@,
                bytes@,
            ));
            match self.pretoken_cache.get(key, h) {
                Some((val, ext)) => append_val(out, val, ext, self.token_arena.as_slice()),
                None => self.encode_short_miss(bytes, key, out),
            }
        } else {
            assert(long_entry_ok(
                self.pretoken_cache_long@,
                self.token_arena@,
                self.model@,
                bytes@,
            ));
            match self.pretoken_cache_long.get(bytes) {
                Some((start, end)) => append_tokens(out, &self.token_arena[start..end]),
                None => self.encode_long_miss(bytes, out),
            }
        }
    }

    /// Cache-miss path for a short pretoken: BPE-encode it, record it in the
    /// short cache, and append its tokens.
    fn encode_short_miss(&mut self, bytes: &[u8], key: u128, out: &mut Vec<TokenId>)
        requires
            old(self).wf(),
            1 <= bytes@.len() <= 15,
            key == pretoken_key(bytes@),
            key != 0,
            !old(self).pretoken_cache@.contains_key(key),
        ensures
            final(self).wf(),
            final(self).encoding() == old(self).encoding(),
            final(out)@ == old(out)@ + old(self).encoding().model.pretoken_tokens(bytes@),
    {
        let ghost arena = self.token_arena@;
        let ghost m = self.model@;
        let ghost short = self.pretoken_cache@;
        let ghost long = self.pretoken_cache_long@;
        let symbols: Vec<TokenId> = self.model.encode_pretoken(bytes, &mut self.merge_scratch);
        match pack_val(symbols.as_slice(), &mut self.token_arena) {
            Some((val, ext)) => {
                let ghost now = self.token_arena@;
                proof {
                    let more = now.skip(arena.len() as int);
                    assert(now =~= arena + more);
                    lemma_short_arena_grows(short, arena, more, m);
                    lemma_long_arena_grows(long, arena, more, m);
                    lemma_short_insert(short, now, m, bytes@, val, ext);
                }
                self.pretoken_cache.insert(key, val, ext);
            },
            None => {},
        }
        append_tokens(out, symbols.as_slice());
    }

    /// Cache-miss path for the other pretokens: BPE-encode it, record it in the
    /// long cache, and append its tokens.
    fn encode_long_miss(&mut self, bytes: &[u8], out: &mut Vec<TokenId>)
        requires
            old(self).wf(),
        ensures
            final(self).wf(),
            final(self).encoding() == old(self).encoding(),
            final(out)@ == old(out)@ + old(self).encoding().model.pretoken_tokens(bytes@),
    {
        let ghost arena = self.token_arena@;
        let ghost m = self.model@;
        let ghost short = self.pretoken_cache@;
        let ghost long = self.pretoken_cache_long@;
        let symbols: Vec<TokenId> = self.model.encode_pretoken(bytes, &mut self.merge_scratch);
        let start: usize = self.token_arena.len();
        append_tokens(&mut self.token_arena, symbols.as_slice());
        let end: usize = self.token_arena.len();
        self.pretoken_cache_long.insert(bytes, (start, end));
        proof {
            let now = self.token_arena@;
            lemma_short_arena_grows(short, arena, symbols@, m);
            lemma_long_arena_grows(long, arena, symbols@, m);
            assert(now.subrange(start as int, end as int) =~= symbols@);
            assert forall|p: Seq<u8>| #[trigger]
                long_entry_ok(self.pretoken_cache_long@, now, m, p) by {
                assert(long_entry_ok(long, now, m, p));
            }
        }
        append_tokens(out, symbols.as_slice());
    }

    /// Append the tokens of one pretoken: straight from its home pair where
    /// they are there, inline.
    fn probe_emit(&mut self, bytes: &[u8], key: u128, h: u64, out: &mut Vec<TokenId>)
        requires
            old(self).wf(),
            key == span_key(bytes@),
            h == span_hash(bytes@),
        ensures
            final(self).wf(),
            final(self).encoding() == old(self).encoding(),
            final(out)@ == old(out)@ + old(self).encoding().model.pretoken_tokens(bytes@),
    {
        proof {
            if bytes@.len() <= 15 {
                lemma_pretoken_key_value(bytes@);
            }
        }
        if key != 0 {
            assert(short_entry_ok(
                self.pretoken_cache@,
                self.token_arena@,
                self.model@,
                bytes@,
            ));
            let (val, ext, found): (u64, u64, bool) = self.pretoken_cache.probe_pair(key, h);
            if found {
                append_val(out, val, ext, self.token_arena.as_slice());
                return;
            }
        }
        self.probe_emit_slow(bytes, key, h, out);
    }

    /// Probe-and-emit for one chunk: append the tokens of each span.
    fn probe_emit_chunk(
        &mut self,
        batch: &SpanBatch<'_>,
        spans: Ghost<Seq<Seq<u8>>>,
        out: &mut Vec<TokenId>,
    )
        requires
            old(self).wf(),
            batch.holds(spans@),
        ensures
            final(self).wf(),
            final(self).encoding() == old(self).encoding(),
            final(out)@ == old(out)@ + old(self).encoding().model.tokens_of(spans@),
    {
        let ghost before = out@;
        let ghost m = self.model@;
        let ghost enc = self.encoding();
        let n: usize = batch.spans.len();
        proof {
            assert(slice_views(batch.spans@).len() == n);
            assert(spans@.take(0) =~= Seq::<Seq<u8>>::empty());
            assert(m.pieces_of(spans@.take(0)) =~= Seq::<Seq<TokenId>>::empty());
        }
        for i in 0..n
            invariant
                n == spans@.len(),
                n == batch.spans@.len(),
                batch.holds(spans@),
                self.wf(),
                self.encoding() == enc,
                m == enc.model,
                out@ == before + m.tokens_of(spans@.take(i as int)),
        {
            let span: &[u8] = batch.spans[i];
            proof {
                assert(slice_views(batch.spans@)[i as int] == span@);
                assert(spans@.take(i as int + 1) =~= spans@.take(i as int) + seq![span@]);
                m.lemma_tokens_concat(spans@.take(i as int), seq![span@]);
                m.lemma_tokens_one(span@);
            }
            self.probe_emit(span, batch.keys[i], batch.hashes[i], out);
        }
        assert(spans@.take(n as int) =~= spans@);
    }

    /// For each pretoken, look up the string in the cache, and if it is not
    /// found, encode it and insert it into the cache. Returns the tokens of
    /// each pretoken.
    pub fn memoized_encode<'i, P: PretokenSpans<'i>>(&mut self, pretokens: P) -> (r: Vec<Vec<TokenId>>)
        requires
            old(self).wf(),
        ensures
            final(self).wf(),
            final(self).encoding() == old(self).encoding(),
            piece_views(r@) == old(self).encoding().model.pieces_of(pretokens.rest()),
    {
        let mut r: Vec<Vec<TokenId>> = Vec::new();
        self.memoized_encode_into(pretokens, &mut r);
        assert(piece_views(Seq::<Vec<TokenId>>::empty()) =~= Seq::<Seq<TokenId>>::empty());
        r
    }

    /// [`Self::memoized_encode`], appending to a list of pieces.
    fn memoized_encode_into<'i, P: PretokenSpans<'i>>(
        &mut self,
        pretokens: P,
        r: &mut Vec<Vec<TokenId>>,
    )
        requires
            old(self).wf(),
        ensures
            final(self).wf(),
            final(self).encoding() == old(self).encoding(),
            piece_views(final(r)@) == piece_views(old(r)@) + old(self).encoding().model.pieces_of(
                pretokens.rest(),
            ),
    {
        let mut pretokens: P = pretokens;
        let ghost all = pretokens.rest();
        let ghost enc = self.encoding();
        let ghost m = enc.model;
        let ghost before = piece_views(r@);
        let mut batch: SpanBatch<'i> = SpanBatch::new();
        let ghost mut done: int = 0;
        let mut more: bool = true;
        proof {
            assert(all.take(0) =~= Seq::<Seq<u8>>::empty());
            assert(m.pieces_of(all.take(0)) =~= Seq::<Seq<TokenId>>::empty());
            assert(all.skip(0) =~= all);
        }
        while more
            invariant
                self.wf(),
                self.encoding() == enc,
                m == enc.model,
                0 <= done <= all.len(),
                pretokens.rest() == all.skip(done),
                piece_views(r@) =~= before + m.pieces_of(all.take(done)),
                !more ==> done == all.len(),
            decreases all.len() - done + if more { 1int } else { 0 },
        {
            let ghost left = pretokens.rest();
            let n: usize = pretokens.fill_spans_keyed(&mut batch);
            let ghost spans = left.take(n as int);
            proof {
                assert(slice_views(batch.spans@).len() == n);
                assert(all.skip(done).skip(n as int) =~= all.skip(done + n));
            }
            let ghost start = done;
            for i in 0..n
                invariant
                    n == spans.len(),
                    n == batch.spans@.len(),
                    batch.holds(spans),
                    self.wf(),
                    self.encoding() == enc,
                    m == enc.model,
                    0 <= start,
                    start + n <= all.len(),
                    spans == all.subrange(start, start + n),
                    piece_views(r@) =~= before + m.pieces_of(all.take(start + i)),
            {
                let span: &[u8] = batch.spans[i];
                let mut piece: Vec<TokenId> = Vec::new();
                proof {
                    assert(slice_views(batch.spans@)[i as int] == span@);
                    assert(all[start + i] == span@);
                }
                let ghost prior = r@;
                self.probe_emit(span, batch.keys[i], batch.hashes[i], &mut piece);
                proof {
                    assert(piece@ =~= m.pretoken_tokens(span@));
                    assert(piece_views(prior.push(piece)) =~= piece_views(prior).push(piece@));
                    assert(m.pieces_of(all.take(start + i + 1)) =~= m.pieces_of(
                        all.take(start + i),
                    ).push(m.pretoken_tokens(span@)));
                }
                r.push(piece);
            }
            proof {
                done = done + n;
            }
            more = n == PRETOKEN_CHUNK;
        }
        assert(all.take(all.len() as int) =~= all);
    }

    /// Flat variant of [`Self::memoized_encode`]: the identical token stream
    /// appended to `out` as raw ids.
    pub fn memoized_encode_flat<'i, P: PretokenSpans<'i>>(&mut self, pretokens: P, out: &mut Vec<u32>)
        requires
            old(self).wf(),
        ensures
            final(self).wf(),
            final(self).encoding() == old(self).encoding(),
            final(out)@ == old(out)@ + raw_ids(
                old(self).encoding().model.tokens_of(pretokens.rest()),
            ),
    {
        let mut pretokens: P = pretokens;
        let ghost all = pretokens.rest();
        let ghost enc = self.encoding();
        let ghost m = enc.model;
        let ghost before = out@;
        let mut batch: SpanBatch<'i> = SpanBatch::new();
        let mut chunk: Vec<TokenId> = Vec::new();
        let ghost mut done: int = 0;
        let mut more: bool = true;
        proof {
            assert(all.take(0) =~= Seq::<Seq<u8>>::empty());
            assert(m.pieces_of(all.take(0)) =~= Seq::<Seq<TokenId>>::empty());
            assert(all.skip(0) =~= all);
        }
        while more
            invariant
                self.wf(),
                self.encoding() == enc,
                m == enc.model,
                0 <= done <= all.len(),
                pretokens.rest() == all.skip(done),
                out@ =~= before + raw_ids(m.tokens_of(all.take(done))),
                !more ==> done == all.len(),
            decreases all.len() - done + if more { 1int } else { 0 },
        {
            let ghost left = pretokens.rest();
            let n: usize = pretokens.fill_spans_keyed(&mut batch);
            let ghost spans = left.take(n as int);
            chunk.clear();
            self.probe_emit_chunk(&batch, Ghost(spans), &mut chunk);
            append_ids(out, chunk.as_slice());
            proof {
                assert(all.skip(done).skip(n as int) =~= all.skip(done + n));
                assert(chunk@ =~= m.tokens_of(spans));
                assert(all.take(done + n) =~= all.take(done) + spans);
                m.lemma_tokens_concat(all.take(done), spans);
                assert(raw_ids(m.tokens_of(all.take(done)) + chunk@) =~= raw_ids(
                    m.tokens_of(all.take(done)),
                ) + raw_ids(chunk@));
                done = done + n;
            }
            more = n == PRETOKEN_CHUNK;
        }
        assert(all.take(all.len() as int) =~= all);
    }

    /// Seed a short-pretoken cache with vocabulary entry `id`, where it is of
    /// 1..=15 bytes and the cache does not have it.
    #[verifier::spinoff_prover]
    fn seed_entry(
        model: &Model,
        id: usize,
        cache: &mut ShortPretokenCache,
        token_arena: &mut Vec<TokenId>,
    )
        requires
            model.wf(),
            id < model.vocab@.len(),
            old(cache).wf(),
            short_ok(old(cache)@, old(token_arena)@, model@),
            only_seeds(old(cache)@, model@),
            1 <= model@.vocab[id as int].len() <= 15 ==> old(cache).slot_count() > MAX_SLOTS || (old(
                cache,
            ).entries() + 1) * 4 <= old(cache).slot_count() * 3,
        ensures
            final(cache).wf(),
            short_ok(final(cache)@, final(token_arena)@, model@),
            only_seeds(final(cache)@, model@),
            final(cache).slot_count() == old(cache).slot_count(),
            final(cache).entries() <= old(cache).entries() + if 1 <= model@.vocab[id as int].len()
                <= 15 {
                1int
            } else {
                0
            },
            old(token_arena)@.is_prefix_of(final(token_arena)@),
            old(cache).slot_count() <= MAX_SLOTS && final(token_arena)@.len() <= u32::MAX
                && has_seeds(old(cache)@, model@, id + 1) ==> has_seeds(
                final(cache)@,
                model@,
                id as int,
            ),
    {
        let ghost m = model@;
        let bytes: &[u8] = model.vocab[id].as_slice();
        assert(m.vocab[id as int] == bytes@);
        if bytes.len() < 1 || bytes.len() > 15 {
            return ;
        }
        proof {
            lemma_pretoken_key_value(bytes@);
        }
        match (pack_pretoken_key(bytes), model.vocab_inv.get(bytes)) {
            (Some(key), Some(t)) => {
                let h: u64 = pretoken_key_hash(key);
                if cache.get(key, h).is_none() {
                    let ghost arena = token_arena@;
                    let ghost held = cache@;
                    let one: [TokenId; 1] = [t];
                    match pack_val(&one, token_arena) {
                        Some((val, ext)) => {
                            proof {
                                let more = token_arena@.skip(arena.len() as int);
                                assert(token_arena@ =~= arena + more);
                                lemma_short_arena_grows(held, arena, more, m);
                                assert(one@ =~= seq![t]);
                                lemma_short_insert(held, token_arena@, m, bytes@, val, ext);
                                assert(m.vocab.contains(bytes@));
                                lemma_seed_inserted(held, m, id as int, bytes@, (val, ext));
                            }
                            cache.insert(key, val, ext);
                        },
                        None => {},
                    }
                }
            },
            _ => {},
        }
    }

    /// A short-pretoken cache pre-seeded with every vocab entry of 1..=15 bytes
    /// as its own single-token encoding. `min_slots` floors the table size for
    /// a worker with a known workload; seeding does not grow the table. An entry
    /// is left out only by a table of the greatest size, or where the arena is
    /// too long for its offset.
    fn seeded_pretoken_cache(
        model: &Model,
        token_arena: &mut Vec<TokenId>,
        min_slots: usize,
    ) -> (cache: ShortPretokenCache)
        requires
            model.wf(),
        ensures
            cache.wf(),
            short_ok(cache@, final(token_arena)@, model@),
            cache.slot_count() > MAX_SLOTS || ((short_entries(
                model@.vocab,
                model@.vocab.len() as int,
            ) + 1) * 4 <= cache.slot_count() * 3 && min_slots <= cache.slot_count()),
            only_seeds(cache@, model@),
            cache.slot_count() <= MAX_SLOTS && final(token_arena)@.len() <= u32::MAX ==> forall|
                p: Seq<u8>,
            | #[trigger]
                seeds(model@, p) ==> cache@.contains_key(pretoken_key(p)),
            old(token_arena)@.is_prefix_of(final(token_arena)@),
    {
        let ghost m = model@;
        let ghost before = token_arena@;
        let n: usize = model.vocab.len();
        let mut n_short: usize = 0;
        for i in 0..n
            invariant
                n == model.vocab@.len(),
                m == model@,
                n_short <= i,
                n_short == short_entries(m.vocab, i as int),
        {
            let len: usize = model.vocab[i].len();
            assert(m.vocab[i as int] == model.vocab@[i as int]@);
            if 1 <= len && len <= 15 {
                n_short = n_short + 1;
            }
        }
        let mut cache: ShortPretokenCache = ShortPretokenCache::with_at_least(n_short, min_slots);
        let ghost slots = cache.slot_count();
        let mut id: usize = n;
        while id > 0
            invariant
                id <= n,
                n == model.vocab@.len(),
                m == model@,
                model.wf(),
                cache.wf(),
                short_ok(cache@, token_arena@, m),
                cache.slot_count() == slots,
                slots > MAX_SLOTS || (n_short + 1) * 4 <= slots * 3,
                cache.entries() + short_entries(m.vocab, id as int) <= n_short,
                0 <= short_entries(m.vocab, id as int),
                before.is_prefix_of(token_arena@),
                only_seeds(cache@, m),
                slots <= MAX_SLOTS && token_arena@.len() <= u32::MAX ==> has_seeds(
                    cache@,
                    m,
                    id as int,
                ),
            decreases id,
        {
            id = id - 1;
            proof {
                lemma_short_entries(m.vocab, id as int);
            }
            Self::seed_entry(model, id, &mut cache, token_arena);
            assert(before.is_prefix_of(token_arena@));
        }
        proof {
            if slots <= MAX_SLOTS && token_arena@.len() <= u32::MAX {
                lemma_all_seeds(cache@, m);
            }
        }
        cache
    }

    /// A tokenizer over `model`, with caches that hold no more than its
    /// vocabulary.
    fn from_parts(
        model: Model,
        pretokenizer_type: PretokenizerType,
        added_tokens: AddedTokens,
        normalize_nfc: bool,
        min_slots: usize,
    ) -> (t: Self)
        requires
            model.wf(),
            added_tokens.wf(),
            normalize_nfc ==> nfc_apart(),
        ensures
            t.wf(),
            t.encoding() == (Encoding {
                model: model@,
                added: added_tokens@,
                scheme: pretokenizer_type,
                nfc: normalize_nfc,
            }),
    {
        let mut token_arena: Vec<TokenId> = Vec::new();
        let pretoken_cache: ShortPretokenCache = Self::seeded_pretoken_cache(
            &model,
            &mut token_arena,
            min_slots,
        );
        let t = Tokenizer {
            model,
            token_arena,
            pretoken_cache,
            pretoken_cache_long: ByteMap::new(),
            merge_scratch: MergeScratch::new(),
            pretokenizer_type,
            added_tokens,
            normalize_nfc,
        };
        assert forall|p: Seq<u8>| #[trigger]
            long_entry_ok(t.pretoken_cache_long@, t.token_arena@, t.model@, p) by {}
        t
    }

    /// A tokenizer without added tokens, with the GPT-2 scheme and no
    /// normalization. Of a byte string that the vocabulary has twice, the later
    /// id is its token.
    pub fn new(
        merges: MergeTable,
        vocab: Vec<Vec<u8>>,
        byte_remapping: Option<ByteRemapping>,
    ) -> (t: Self)
        requires
            merges.wf(),
            vocab@.len() <= u32::MAX,
            byte_remapping matches Some(b) ==> b.wf(),
        ensures
            t.wf(),
            t.encoding() == plain_encoding(
                ModelView {
                    merges: merges@,
                    vocab: byte_seqs(vocab@),
                    inv: vocab_inverse(byte_seqs(vocab@), vocab@.len() as int),
                    remap: remap_view(byte_remapping),
                },
            ),
    {
        let model: Model = Model::new(merges, vocab, byte_remapping);
        let t = Self::from_parts(model, PretokenizerType::GPT2, AddedTokens::new(), false, 0);
        assert(t.encoding().added =~= Seq::<Added>::empty());
        t
    }

    /// Given a list of tokens in rank order (by merge order), reconstructs the
    /// merges map and returns a tokenizer. This process is necessary to load
    /// some tokenizers found in tiktoken. An error names a byte without a token.
    pub fn from_ranks(vocab: Vec<Vec<u8>>) -> (r: Result<Self, MissingByte>)
        requires
            vocab@.len() <= u32::MAX,
            ranks_mergeable(byte_seqs(vocab@)),
        ensures
            match r {
                Ok(t) => {
                    &&& t.wf()
                    &&& forall|b: u8| !#[trigger] lacks_byte(byte_seqs(vocab@), b)
                    &&& t.encoding() == plain_encoding(ranked_model(byte_seqs(vocab@)))
                },
                Err(MissingByte(b)) => {
                    &&& lacks_byte(byte_seqs(vocab@), b)
                    &&& forall|c: u8| c < b ==> !#[trigger] lacks_byte(byte_seqs(vocab@), c)
                },
            },
    {
        match merges_from_ranks(vocab.as_slice()) {
            Ok(merges) => Self::from_ranked_merges(merges, vocab),
            Err(Unmergeable(i)) => {
                proof {
                    let entries = byte_seqs(vocab@);
                    assert(rank_ok(entries, vocab_inverse(entries, entries.len() as int), i as int));
                    assert(false);
                }
                unreached()
            },
        }
    }

    /// [`Self::from_ranks`] for a list of tokens that may not be one: an error
    /// names the first token that does not fall apart into two before it, or
    /// the first byte without a token.
    pub fn try_from_ranks(vocab: Vec<Vec<u8>>) -> (r: Result<Self, RanksError>)
        requires
            vocab@.len() <= u32::MAX,
        ensures
            ({
                let entries = byte_seqs(vocab@);
                let inv = vocab_inverse(entries, entries.len() as int);
                match r {
                    Ok(t) => {
                        &&& t.wf()
                        &&& ranks_mergeable(entries)
                        &&& forall|b: u8| !#[trigger] lacks_byte(entries, b)
                        &&& t.encoding() == plain_encoding(ranked_model(entries))
                    },
                    Err(RanksError::Unmergeable(i)) => {
                        &&& i < entries.len()
                        &&& !rank_ok(entries, inv, i as int)
                        &&& forall|j: int| 0 <= j < i ==> #[trigger] rank_ok(entries, inv, j)
                    },
                    Err(RanksError::MissingByte(b)) => {
                        &&& ranks_mergeable(entries)
                        &&& lacks_byte(entries, b)
                        &&& forall|c: u8| c < b ==> !#[trigger] lacks_byte(entries, c)
                    },
                }
            }),
    {
        match merges_from_ranks(vocab.as_slice()) {
            Ok(merges) => match Self::from_ranked_merges(merges, vocab) {
                Ok(t) => Ok(t),
                Err(MissingByte(b)) => Err(RanksError::MissingByte(b)),
            },
            Err(Unmergeable(i)) => Err(RanksError::Unmergeable(i)),
        }
    }

    fn from_ranked_merges(merges: MergeTable, vocab: Vec<Vec<u8>>) -> (r: Result<Self, MissingByte>)
        requires
            vocab@.len() <= u32::MAX,
            merges.wf(),
            merges@ == ranked_model(byte_seqs(vocab@)).merges,
        ensures
            match r {
                Ok(t) => {
                    &&& t.wf()
                    &&& forall|b: u8| !#[trigger] lacks_byte(byte_seqs(vocab@), b)
                    &&& t.encoding() == plain_encoding(ranked_model(byte_seqs(vocab@)))
                },
                Err(MissingByte(b)) => {
                    &&& lacks_byte(byte_seqs(vocab@), b)
                    &&& forall|c: u8| c < b ==> !#[trigger] lacks_byte(byte_seqs(vocab@), c)
                },
            },
    {
        match ByteRemapping::from_byte_vocab(vocab.as_slice()) {
            Ok(byte_remapping) => {
                proof {
                    let entries = byte_seqs(vocab@);
                    assert(remap_view(byte_remapping) == ranked_model(entries).remap);
                }
                Ok(Self::new(merges, vocab, byte_remapping))
            },
            Err(b) => Err(b),
        }
    }

    /// Create a new tokenizer with the same model data but with a freshly
    /// seeded cache (no encoded pretokens beyond the vocab seed). Useful for
    /// per-thread encoding in parallel.
    pub fn fork(&self) -> (t: Self)
        requires
            self.wf(),
        ensures
            t.wf(),
            t.encoding() == self.encoding(),
    {
        self.fork_sized(1 << 16)
    }

    /// [`Self::fork`] with the short-pretoken cache pre-sized to at least
    /// `cache_slots` slots. This is a capacity hint only: the cache still grows
    /// past it as needed.
    pub fn fork_sized(&self, cache_slots: usize) -> (t: Self)
        requires
            self.wf(),
        ensures
            t.wf(),
            t.encoding() == self.encoding(),
    {
        Self::from_parts(
            self.model.copy(),
            self.pretokenizer_type,
            self.added_tokens.copy(),
            self.normalize_nfc,
            cache_slots,
        )
    }

    /// Set the pretokenization scheme.
    pub fn set_pretokenizer_type(&mut self, pretokenizer_type: PretokenizerType)
        requires
            old(self).wf(),
        ensures
            final(self).wf(),
            final(self).encoding() == (Encoding {
                scheme: pretokenizer_type,
                ..old(self).encoding()
            }),
    {
        self.pretokenizer_type = pretokenizer_type;
    }

    /// The tables.
    pub fn model(&self) -> (m: &Model)
        requires
            self.wf(),
        ensures
            m.wf(),
            m@ == self.encoding().model,
    {
        &self.model
    }

    /// The pretokenization scheme.
    pub fn pretokenizer_type(&self) -> (r: PretokenizerType)
        ensures
            r == self.encoding().scheme,
    {
        self.pretokenizer_type
    }

    /// Enable NFC normalization of non-added-token segments before
    /// pretokenization.
    pub fn set_normalize_nfc(&mut self, normalize_nfc: bool)
        requires
            old(self).wf(),
        ensures
            final(self).wf(),
            final(self).encoding() == (Encoding { nfc: normalize_nfc, ..old(self).encoding() }),
    {
        if normalize_nfc {
            nfc_keeps_ascii();
        }
        self.normalize_nfc = normalize_nfc;
    }

    /// Set the added tokens matched atomically by
    /// [`Self::encode_with_added_tokens`]. Empty contents are ignored.
    pub fn set_added_tokens(&mut self, added_tokens: Vec<(Vec<u8>, TokenId)>)
        requires
            old(self).wf(),
        ensures
            final(self).wf(),
            final(self).encoding() == (Encoding {
                added: by_descending_len(added_views(added_tokens@)),
                ..old(self).encoding()
            }),
    {
        self.added_tokens = AddedTokens::from_list(added_tokens);
    }

    /// Register one additional added token, extending the decode vocab when its
    /// id lies outside the base ranks. Where the id had no content, the content
    /// becomes its own, and the id the token of that content.
    pub fn add_special_token(&mut self, content: Vec<u8>, id: TokenId)
        requires
            old(self).wf(),
            id.0 < u32::MAX,
        ensures
            final(self).wf(),
            final(self).encoding() == (Encoding {
                model: old(self).encoding().model.assigned(content@, id),
                added: by_descending_len(old(self).encoding().added.push((content@, id))),
                ..old(self).encoding()
            }),
    {
        let ghost before = self.model@;
        if self.model.assign(content.as_slice(), id) {
            self.reseed(content.as_slice(), id, Ghost(before));
        } else {
            proof {
                lemma_same_tokens(before, self.model@);
                lemma_short_model(
                    self.pretoken_cache@,
                    self.token_arena@,
                    before,
                    self.model@,
                );
                lemma_long_model(
                    self.pretoken_cache_long@,
                    self.token_arena@,
                    before,
                    self.model@,
                );
            }
        }
        let mut added: Vec<(Vec<u8>, TokenId)> = self.added_tokens.to_list();
        let ghost prior = added@;
        added.push((content, id));
        assert(added_views(added@) =~= added_views(prior).push((content@, id)));
        self.set_added_tokens(added);
    }

    /// Encode the pretokens of a segment without added tokens.
    fn encode_segment(&mut self, segment: &[u8], r: &mut Vec<Vec<TokenId>>)
        requires
            old(self).wf(),
            old(self).encoding().scheme == PretokenizerType::GPT2,
        ensures
            final(self).wf(),
            final(self).encoding() == old(self).encoding(),
            piece_views(final(r)@) == piece_views(old(r)@) + old(self).encoding().segment_pieces(
                segment@,
            ),
    {
        if self.normalize_nfc {
            let normal: Vec<u8> = nfc_segment(segment);
            self.memoized_encode_into(FastR50kPretokenizer::new(normal.as_slice()), r);
        } else {
            self.memoized_encode_into(FastR50kPretokenizer::new(segment), r);
        }
    }

    /// Encode raw text: split out added-token occurrences (each becomes its
    /// single token ID), pretokenize the segments between them with this
    /// tokenizer's pretokenization scheme, and BPE-encode each pretoken.
    /// Returns the tokens of each pretoken and of each added token. The GPT-2
    /// scheme is the one that has a splitter.
    pub fn encode_with_added_tokens(&mut self, bytes: &[u8]) -> (r: Vec<Vec<TokenId>>)
        requires
            old(self).wf(),
            old(self).encoding().scheme == PretokenizerType::GPT2,
        ensures
            final(self).wf(),
            final(self).encoding() == old(self).encoding(),
            piece_views(r@) == old(self).encoding().pieces(bytes@),
    {
        let ghost e = self.encoding();
        let n: usize = bytes.len();
        let mut r: Vec<Vec<TokenId>> = Vec::new();
        let mut pos: usize = 0;
        assert(piece_views(r@) =~= Seq::<Seq<TokenId>>::empty());
        while pos < n
            invariant
                n == bytes@.len(),
                pos <= n,
                self.wf(),
                self.encoding() == e,
                e.scheme == PretokenizerType::GPT2,
                piece_views(r@) + e.pieces_from(bytes@, pos as int) =~= e.pieces(bytes@),
            decreases n - pos,
        {
            let ghost before = piece_views(r@);
            match self.added_tokens.find_added_token(bytes, pos) {
                Some((start, end, id)) => {
                    self.encode_segment(&bytes[pos..start], &mut r);
                    let ghost prior = r@;
                    let mut one: Vec<TokenId> = Vec::with_capacity(1);
                    one.push(id);
                    proof {
                        assert(one@ =~= seq![id]);
                        assert(piece_views(prior.push(one)) =~= piece_views(prior) + seq![seq![id]]);
                    }
                    r.push(one);
                    pos = end;
                },
                None => {
                    proof {
                        assert(bytes@.subrange(pos as int, n as int) =~= bytes@.skip(pos as int));
                    }
                    self.encode_segment(&bytes[pos..n], &mut r);
                    pos = n;
                },
            }
        }
        r
    }

    /// Flat variant of [`Self::encode_with_added_tokens`]: the identical token
    /// stream appended to `out` as raw ids.
    pub fn encode_with_added_tokens_flat(&mut self, bytes: &[u8], out: &mut Vec<u32>)
        requires
            old(self).wf(),
            old(self).encoding().scheme == PretokenizerType::GPT2,
        ensures
            final(self).wf(),
            final(self).encoding() == old(self).encoding(),
            final(out)@ == old(out)@ + raw_ids(old(self).encoding().tokens(bytes@)),
    {
        let ghost e = self.encoding();
        let ghost before = out@;
        let n: usize = bytes.len();
        let mut pos: usize = 0;
        while pos < n
            invariant
                n == bytes@.len(),
                pos <= n,
                self.wf(),
                self.encoding() == e,
                e.scheme == PretokenizerType::GPT2,
                out@ + raw_ids(joined(e.pieces_from(bytes@, pos as int))) =~= before + raw_ids(
                    e.tokens(bytes@),
                ),
            decreases n - pos,
        {
            match self.added_tokens.find_added_token(bytes, pos) {
                Some((start, end, id)) => {
                    let ghost seg = e.segment_pieces(bytes@.subrange(pos as int, start as int));
                    self.encode_segment_flat(&bytes[pos..start], out);
                    out.push(id.0);
                    proof {
                        let rest = e.pieces_from(bytes@, end as int);
                        lemma_joined_concat(seg + seq![seq![id]], rest);
                        lemma_joined_concat(seg, seq![seq![id]]);
                        lemma_joined_one(seq![id]);
                        assert(raw_ids(joined(seg) + seq![id] + joined(rest)) =~= raw_ids(
                            joined(seg),
                        ).push(id.0) + raw_ids(joined(rest)));
                    }
                    pos = end;
                },
                None => {
                    proof {
                        assert(bytes@.subrange(pos as int, n as int) =~= bytes@.skip(pos as int));
                    }
                    self.encode_segment_flat(&bytes[pos..n], out);
                    pos = n;
                },
            }
        }
    }

    fn encode_segment_flat(&mut self, segment: &[u8], out: &mut Vec<u32>)
        requires
            old(self).wf(),
            old(self).encoding().scheme == PretokenizerType::GPT2,
        ensures
            final(self).wf(),
            final(self).encoding() == old(self).encoding(),
            final(out)@ == old(out)@ + raw_ids(
                joined(old(self).encoding().segment_pieces(segment@)),
            ),
    {
        if self.normalize_nfc {
            let normal: Vec<u8> = nfc_segment(segment);
            self.memoized_encode_flat(FastR50kPretokenizer::new(normal.as_slice()), out);
        } else {
            self.memoized_encode_flat(FastR50kPretokenizer::new(segment), out);
        }
    }

    /// Encode one pretoken without touching the caches.
    pub fn encode_pretoken(&mut self, bytes: &[u8]) -> (r: Vec<TokenId>)
        requires
            old(self).wf(),
        ensures
            final(self).wf(),
            final(self).encoding() == old(self).encoding(),
            r@ == old(self).encoding().model.pretoken_tokens(bytes@),
    {
        self.model.encode_pretoken(bytes, &mut self.merge_scratch)
    }

    /// Size of the vocabulary: one greater than the largest token ID, with
    /// added tokens (IDs with no assigned content count too).
    pub fn vocab_size(&self) -> (n: usize)
        ensures
            n == self.encoding().model.vocab.len(),
    {
        self.model.vocab.len()
    }

    /// Vocabulary entries as `(id, bytes)` pairs in ID order, with added tokens
    /// and without IDs with no assigned content.
    pub fn vocab_entries(&self) -> (r: Vec<(u32, &[u8])>)
        requires
            self.wf(),
        ensures
            entry_views(r@) == assigned_entries(
                self.encoding().model.vocab,
                self.encoding().model.vocab.len() as int,
            ),
    {
        vocab_entries(self.model.vocab.as_slice())
    }

    /// The token of a byte string.
    pub fn token_of(&self, bytes: &[u8]) -> (r: Option<TokenId>)
        requires
            self.wf(),
        ensures
            match r {
                Some(t) => self.encoding().model.inv.contains_key(bytes@)
                    && self.encoding().model.inv[bytes@] == t,
                None => !self.encoding().model.inv.contains_key(bytes@),
            },
    {
        self.model.vocab_inv.get(bytes)
    }

    /// Whether the bytes' tokens are other than their values.
    pub fn remaps_bytes(&self) -> (r: bool)
        ensures
            r == self.encoding().model.remap is Some,
    {
        self.model.byte_remapping.is_some()
    }

    /// Merge rules as `(left, right)` byte pairs in merge-priority order
    /// (priority equals the merged token's ID for tiktoken vocabularies).
    pub fn merge_entries(&self) -> (r: Vec<(&[u8], &[u8])>)
        requires
            self.wf(),
            self.encoding().model.merges_in_vocab(),
        ensures
            exists|pairs: Seq<(TokenId, TokenId)>| #[trigger]
                self.encoding().model.merge_order(pairs) && byte_pair_views(r@)
                    == self.encoding().model.pair_bytes(pairs),
    {
        let ghost m = self.model@;
        let n: usize = self.model.merges.len();
        let ghost order = self.model.merges.order();
        let mut ranks: Vec<u32> = Vec::with_capacity(n);
        for i in 0..n
            invariant
                self.wf(),
                m == self.model@,
                order == self.model.merges.order(),
                n == order.len(),
                ranks@.len() == i,
                forall|k: int| 0 <= k < i ==> #[trigger] ranks@[k] == m.merges[order[k]].0,
        {
            let (a, b): (TokenId, TokenId) = self.model.merges.pair(i);
            assert(order.contains(order[i as int]));
            match self.model.merges.get(a, b) {
                Some(t) => ranks.push(t.0),
                None => {
                    assert(false);
                },
            }
        }
        let perm: Vec<usize> = sort_by_rank(ranks.as_slice());
        let ghost pairs = Seq::new(n as nat, |i: int| order[perm@[i] as int]);
        let mut r: Vec<(&[u8], &[u8])> = Vec::with_capacity(n);
        for i in 0..n
            invariant
                self.wf(),
                m == self.model@,
                m.merges_in_vocab(),
                order == self.model.merges.order(),
                n == order.len(),
                n == perm@.len(),
                n == ranks@.len(),
                rank_sorted(ranks@, perm@),
                pairs == Seq::new(n as nat, |i: int| order[perm@[i] as int]),
                r@.len() == i,
                forall|k: int|
                    0 <= k < i ==> (#[trigger] r@[k]).0@ == m.vocab[pairs[k].0.0 as int]
                        && r@[k].1@ == m.vocab[pairs[k].1.0 as int],
        {
            let at: usize = perm[i];
            let (a, b): (TokenId, TokenId) = self.model.merges.pair(at);
            proof {
                assert(order.contains(order[at as int]));
                assert(m.merges.contains_key((a, b)));
                assert(m.vocab[a.0 as int] == self.model.vocab@[a.0 as int]@);
                assert(m.vocab[b.0 as int] == self.model.vocab@[b.0 as int]@);
            }
            let left: &[u8] = self.model.vocab[a.index()].as_slice();
            let right: &[u8] = self.model.vocab[b.index()].as_slice();
            r.push((left, right));
        }
        proof {
            assert(byte_pair_views(r@) =~= m.pair_bytes(pairs));
            assert forall|p: (TokenId, TokenId)| #[trigger]
                m.merges.contains_key(p) <==> pairs.contains(p) by {
                if m.merges.contains_key(p) {
                    assert(order.contains(p));
                    let k = choose|k: int| 0 <= k < n && order[k] == p;
                    lemma_rank_sorted_covers(ranks@, perm@, k);
                    let i = choose|i: int| 0 <= i < n && perm@[i] == k;
                    assert(pairs[i] == p);
                }
                if pairs.contains(p) {
                    let i = choose|i: int| 0 <= i < pairs.len() && pairs[i] == p;
                    assert(perm@[i] < n);
                    assert(order.contains(order[perm@[i] as int]));
                }
            }
            assert forall|i: int, j: int| 0 <= i < pairs.len() && 0 <= j < pairs.len() && i
                != j implies pairs[i] != pairs[j] by {
                assert(perm@[i] != perm@[j]);
                assert(perm@[i] < n && perm@[j] < n);
            }
            assert forall|i: int, j: int| 0 <= i < j < pairs.len() implies m.merges[#[trigger] pairs[i]].0
                <= m.merges[#[trigger] pairs[j]].0 by {
                assert(perm@[i] < n && perm@[j] < n);
            }
            assert(m.merge_order(pairs));
        }
        r
    }

    /// Contents of the added tokens, for callers that split documents at
    /// byte-level boundaries: added tokens are matched atomically before
    /// pretokenization, so a split must never cut an occurrence in half.
    pub fn added_token_contents(&self) -> (r: Vec<&[u8]>)
        requires
            self.wf(),
        ensures
            slice_views(r@) == self.encoding().added.map_values(|a: Added| a.0),
    {
        let mut r: Vec<&[u8]> = Vec::new();
        let n: usize = self.added_tokens.len();
        for i in 0..n
            invariant
                n == self.added_tokens@.len(),
                r@.len() == i,
                forall|k: int| 0 <= k < i ==> (#[trigger] r@[k])@ == self.added_tokens@[k].0,
        {
            let (content, _): (&[u8], TokenId) = self.added_tokens.get(i);
            r.push(content);
        }
        assert(slice_views(r@) =~= self.encoding().added.map_values(|a: Added| a.0));
        r
    }

    /// The bytes of `v`, one token after the other.
    pub fn decode(&self, v: &[TokenId]) -> (r: Vec<u8>)
        requires
            in_vocab(self.encoding().model.vocab, v@),
        ensures
            r@ == decoded(self.encoding().model.vocab, v@),
    {
        decode_ids(self.model.vocab.as_slice(), v)
    }

    /// How many pretokens the short cache holds.
    pub closed spec fn short_entries(self) -> usize {
        self.pretoken_cache.entries()
    }

    /// How many slots the short cache has.
    pub closed spec fn short_slots(self) -> int {
        self.pretoken_cache.slot_count()
    }

    /// The pretokens of the long cache.
    pub closed spec fn long_keys(self) -> Seq<Seq<u8>> {
        self.pretoken_cache_long.order()
    }

    /// How many tokens the arena holds.
    pub closed spec fn arena_len(self) -> nat {
        self.token_arena@.len()
    }

    /// How many pretokens the caches hold, up to `usize::MAX`.
    pub fn pretoken_cache_size(&self) -> (n: usize)
        requires
            self.wf(),
        ensures
            n == if self.short_entries() + self.long_keys().len() <= usize::MAX {
                self.short_entries() + self.long_keys().len()
            } else {
                usize::MAX as int
            },
    {
        self.pretoken_cache.len().saturating_add(self.pretoken_cache_long.len())
    }

    /// Cache stats for memory accounting: the entries and the slots of the
    /// short cache, the entries of the long cache and the bytes of its keys,
    /// and the length of the arena. The key bytes count up to `usize::MAX`.
    pub fn cache_mem_stats(&self) -> (r: (usize, usize, usize, usize, usize))
        requires
            self.wf(),
        ensures
            r.0 == self.short_entries(),
            r.1 == self.short_slots(),
            r.2 == self.long_keys().len(),
            r.3 == if total_len(self.long_keys()) <= usize::MAX {
                total_len(self.long_keys()) as int
            } else {
                usize::MAX as int
            },
            r.4 == self.arena_len(),
    {
        let n: usize = self.pretoken_cache_long.len();
        let ghost keys = self.pretoken_cache_long.order();
        let mut key_bytes: usize = 0;
        assert(keys.take(0) =~= Seq::<Seq<u8>>::empty());
        for i in 0..n
            invariant
                self.wf(),
                keys == self.pretoken_cache_long.order(),
                n == keys.len(),
                key_bytes == if total_len(keys.take(i as int)) <= usize::MAX {
                    total_len(keys.take(i as int)) as int
                } else {
                    usize::MAX as int
                },
        {
            let (key, _): (&[u8], (usize, usize)) = self.pretoken_cache_long.entry(i);
            proof {
                let t = keys.take(i as int + 1);
                assert(t.drop_last() =~= keys.take(i as int));
                assert(t.last() == key@);
            }
            key_bytes = key_bytes.saturating_add(key.len());
        }
        assert(keys.take(n as int) =~= keys);
        (
            self.pretoken_cache.len(),
            self.pretoken_cache.capacity(),
            n,
            key_bytes,
            self.token_arena.len(),
        )
    }

    /// Whether the caches hold a pretoken.
    pub closed spec fn holds_pretoken(self, p: Seq<u8>) -> bool {
        if 1 <= p.len() <= 15 {
            self.pretoken_cache@.contains_key(pretoken_key(p))
        } else {
            self.pretoken_cache_long@.contains_key(p)
        }
    }

    /// Whether the caches hold a pretoken.
    pub fn is_cached(&self, bytes: &[u8]) -> (r: bool)
        requires
            self.wf(),
        ensures
            r == self.holds_pretoken(bytes@),
    {
        if 1 <= bytes.len() {
            if let Some(key) = pack_pretoken_key(bytes) {
                proof {
                    lemma_pretoken_key_value(bytes@);
                }
                return self.pretoken_cache.get(key, pretoken_key_hash(key)).is_some();
            }
        }
        self.pretoken_cache_long.get(bytes).is_some()
    }
}

} // verus!
