//! Tokenizers from HuggingFace `tokenizer.json` files.
//!
//! Two styles are supported:
//! - SentencePiece BPE with `byte_fallback=true` (e.g. Llama): [`load_hf_sentencepiece`]
//! - ByteLevel BPE without byte_fallback (e.g. GPT-2): [`load_hf_bpe`]

use vstd::prelude::*;
use vstd::string::StringSliceAdditionalSpecFns;
use vstd::utf8::encode_utf8;

use crate::bpe::added::{added_views, by_descending_len, Added};
use crate::bpe::merge::{MergeLookup, MergeTable, RankedMergeTable, Rules};
use crate::bpe::model::{remap_view, vocab_inverse, ModelView};
use crate::bpe::remap::{byte_table, identity_table, lacks_byte, ByteRemapping, MissingByte};
use crate::bpe::tiktoken::{Encoding, Tokenizer};
use crate::byte_map::ByteMap;
use crate::load_tokenizer::byte_level::{
    build_byte_unicode_tables, code_byte, unicode_bytes, unicode_to_bytes,
};
use crate::load_tokenizer::config::{utf8, AddedToken, Fault, LoadError, Model, TokenizerJson};
use crate::load_tokenizer::entries::{
    entry_views, extend_vocab, ids_distinct, ids_of, lemma_placed_at_id, lemma_placed_len,
    lemma_places, lemma_with_added_keeps, place_entries, placed, places, with_added, Entries,
};
use crate::load_tokenizer::normalizer::{
    detect_nfc_normalizer, detect_pretokenizer_type, nfc_normalizer, norm_steps, ops_wf,
    parse_sp_metaspace, parse_sp_normalizer, pretokenizer_scheme, sp_metaspace,
};
use crate::pretokenize::options::PretokenizerType;
use crate::sentencepiece::bpe::{apply_norm_ops, step_views, NormOp, SentencePieceBPE};
use crate::sentencepiece::matching::{spec_views, SpecBytes, TokenSpecs};
use crate::sentencepiece::model::{steps_applied, Metaspace, NormStep, SpModel, TokenSpec};
use crate::seqs::{append_bytes, byte_seqs, bytes_equal, copy_bytes};
use crate::strings::text_is;
use crate::token::TokenId;

verus! {

/// The value of a hex digit.
pub open spec fn hex_value(b: u8) -> Option<int> {
    if 0x30 <= b <= 0x39 {
        Some(b - 0x30)
    } else if 0x41 <= b <= 0x46 {
        Some(b - 0x41 + 10)
    } else if 0x61 <= b <= 0x66 {
        Some(b - 0x61 + 10)
    } else {
        None
    }
}

/// The byte of two hex digits.
pub open spec fn hex_byte(x: u8, y: u8) -> Option<u8> {
    match (hex_value(x), hex_value(y)) {
        (Some(a), Some(b)) => Some((16 * a + b) as u8),
        _ => None,
    }
}

/// The byte of a byte-fallback token `<0xHH>`.
pub open spec fn byte_fallback(s: Seq<u8>) -> Option<u8> {
    if s.len() == 6 && s[0] == 0x3C && s[1] == 0x30 && s[2] == 0x78 && s[5] == 0x3E {
        hex_byte(s[3], s[4])
    } else {
        None
    }
}

/// The bytes of a vocab string: the byte of a byte-fallback token, else its
/// UTF-8.
pub open spec fn token_bytes(s: Seq<u8>) -> Seq<u8> {
    match byte_fallback(s) {
        Some(b) => seq![b],
        None => s,
    }
}

fn hex_digit(b: u8) -> (r: Option<u8>)
    ensures
        match r {
            Some(v) => hex_value(b) == Some(v as int) && v < 16,
            None => hex_value(b) is None,
        },
{
    if 0x30 <= b && b <= 0x39 {
        Some(b - 0x30)
    } else if 0x41 <= b && b <= 0x46 {
        Some(b - 0x41 + 10)
    } else if 0x61 <= b && b <= 0x66 {
        Some(b - 0x61 + 10)
    } else {
        None
    }
}

/// [`parse_byte_fallback`] of a string given by its UTF-8.
fn fallback_byte(b: &[u8]) -> (r: Option<u8>)
    ensures
        r == byte_fallback(b@),
{
    if b.len() == 6 && b[0] == 0x3C && b[1] == 0x30 && b[2] == 0x78 && b[5] == 0x3E {
        match (hex_digit(b[3]), hex_digit(b[4])) {
            (Some(x), Some(y)) => Some(16 * x + y),
            _ => None,
        }
    } else {
        None
    }
}

/// Parse a byte-fallback token string `<0xHH>` into its byte.
pub fn parse_byte_fallback(s: &str) -> (r: Option<u8>)
    ensures
        r == byte_fallback(encode_utf8(s@)),
{
    fallback_byte(s.as_bytes())
}

/// Convert a HuggingFace vocab string to raw bytes.
///
/// - Byte-fallback tokens `<0xHH>`: the single byte.
/// - Everything else: its UTF-8 bytes (▁ is kept as-is).
pub fn token_str_to_bytes(s: &str) -> (r: Vec<u8>)
    ensures
        r@ == token_bytes(encode_utf8(s@)),
{
    match parse_byte_fallback(s) {
        Some(byte) => {
            let mut r: Vec<u8> = Vec::new();
            r.push(byte);
            assert(r@ =~= seq![byte]);
            r
        },
        None => copy_bytes(s.as_bytes()),
    }
}

/// The digit of a value below 16, in upper case.
pub open spec fn upper_hex(v: int) -> u8 {
    if v < 10 {
        (0x30 + v) as u8
    } else {
        (0x41 + v - 10) as u8
    }
}

/// The byte-fallback token of a byte.
pub open spec fn fallback_name(b: u8) -> Seq<u8> {
    seq![0x3Cu8, 0x30u8, 0x78u8, upper_hex(b as int / 16), upper_hex(b as int % 16), 0x3Eu8]
}

/// The byte-fallback token of a byte stands for it.
pub proof fn lemma_fallback_name(b: u8)
    ensures
        byte_fallback(fallback_name(b)) == Some(b),
{
    let x = b as int / 16;
    let y = b as int % 16;
    assert(hex_value(upper_hex(x)) == Some(x));
    assert(hex_value(upper_hex(y)) == Some(y));
}

/// The id of a string in a list of vocab strings; of one that occurs twice, the
/// later.
pub open spec fn id_of(entries: Entries, name: Seq<u8>) -> Option<TokenId>
    decreases entries.len(),
{
    if entries.len() == 0 {
        None
    } else if entries.last().0 == name {
        Some(TokenId(entries.last().1))
    } else {
        id_of(entries.drop_last(), name)
    }
}

/// The byte-fallback token of each byte, where the vocabulary has it. Some
/// vocabs omit byte tokens they never need (Gemma has literal `\t` pieces
/// instead of `<0x09>`).
pub open spec fn fallback_ids(entries: Entries) -> Seq<Option<TokenId>> {
    Seq::new(256, |b: int| id_of(entries, fallback_name(b as u8)))
}

/// The strings of a vocabulary with their ids.
pub open spec fn vocab_strings(vocab: Seq<(String, u32)>) -> Entries {
    vocab.map_values(|e: (String, u32)| (utf8(e.0), e.1))
}

/// The entries of a list that are byte-fallback tokens, or those that are not.
pub open spec fn picked(entries: Entries, fallback: bool) -> Entries
    decreases entries.len(),
{
    if entries.len() == 0 {
        Seq::empty()
    } else {
        let before = picked(entries.drop_last(), fallback);
        let e = entries.last();
        if byte_fallback(e.0) is Some == fallback {
            before.push((token_bytes(e.0), e.1))
        } else {
            before
        }
    }
}

/// The bytes and ids of a SentencePiece vocabulary: byte-fallback tokens first,
/// then the others, so that the others win where both map to the same bytes.
pub open spec fn sp_entries(entries: Entries) -> Entries {
    picked(entries, true) + picked(entries, false)
}

/// Whether a byte-fallback token is written as `<0xHH>` in upper case.
fn is_fallback_name(s: &[u8], byte: u8) -> (r: bool)
    ensures
        r == (s@ == fallback_name(byte)),
{
    let hi: u8 = byte / 16;
    let lo: u8 = byte % 16;
    let x: u8 = if hi < 10 {
        0x30 + hi
    } else {
        0x41 + (hi - 10)
    };
    let y: u8 = if lo < 10 {
        0x30 + lo
    } else {
        0x41 + (lo - 10)
    };
    let name: [u8; 6] = [0x3C, 0x30, 0x78, x, y, 0x3E];
    assert(name@ =~= fallback_name(byte));
    bytes_equal(s, &name)
}

/// Extract the byte-fallback token ids.
pub fn byte_fallback_ids(vocab: &[(String, u32)]) -> (r: Vec<Option<TokenId>>)
    ensures
        r@ == fallback_ids(vocab_strings(vocab@)),
{
    let ghost entries = vocab_strings(vocab@);
    let mut ids: Vec<Option<TokenId>> = Vec::with_capacity(256);
    for i in 0..256usize
        invariant
            ids@.len() == i,
            forall|k: int| 0 <= k < i ==> #[trigger] ids@[k] is None,
    {
        ids.push(None);
    }
    assert(entries.take(0) =~= Seq::<(Seq<u8>, u32)>::empty());
    assert(ids@ =~= fallback_ids(entries.take(0)));
    for i in 0..vocab.len()
        invariant
            entries == vocab_strings(vocab@),
            ids@ == fallback_ids(entries.take(i as int)),
    {
        let ghost now = entries.take(i as int + 1);
        let ghost before = ids@;
        proof {
            assert(now.drop_last() =~= entries.take(i as int));
            assert(now.last() == entries[i as int]);
        }
        let name: &str = vocab[i].0.as_str();
        let ghost bytes = entries[i as int].0;
        match parse_byte_fallback(name) {
            Some(b) => {
                if is_fallback_name(name.as_bytes(), b) {
                    ids.set(b as usize, Some(TokenId(vocab[i].1)));
                }
                proof {
                    assert forall|k: int| 0 <= k < 256 implies #[trigger] ids@[k] == fallback_ids(
                        now,
                    )[k] by {
                        lemma_fallback_name(k as u8);
                        assert(before[k] == fallback_ids(entries.take(i as int))[k]);
                        if bytes == fallback_name(k as u8) {
                            assert(b == k);
                        }
                    }
                }
            },
            None => {
                proof {
                    assert forall|k: int| 0 <= k < 256 implies #[trigger] ids@[k] == fallback_ids(
                        now,
                    )[k] by {
                        lemma_fallback_name(k as u8);
                        assert(before[k] == fallback_ids(entries.take(i as int))[k]);
                    }
                }
            },
        }
        assert(ids@ =~= fallback_ids(now));
    }
    assert(entries.take(entries.len() as int) =~= entries);
    ids
}

/// The strings of a list of merges.
pub open spec fn merge_strings(merges: Seq<(String, String)>) -> Seq<(Seq<u8>, Seq<u8>)> {
    merges.map_values(|m: (String, String)| (utf8(m.0), utf8(m.1)))
}

/// The rules of the first `n` of a list of merges, each with its place for rank.
/// A merge of which a part or the whole is not in the vocabulary is none, and a
/// pair keeps its first rule.
pub open spec fn sp_rules(
    inv: Map<Seq<u8>, TokenId>,
    merges: Seq<(Seq<u8>, Seq<u8>)>,
    n: int,
) -> Rules
    decreases n,
{
    if n <= 0 {
        Map::empty()
    } else {
        let before = sp_rules(inv, merges, n - 1);
        let (a, b) = merges[n - 1];
        let left = token_bytes(a);
        let right = token_bytes(b);
        let whole = token_bytes(a + b);
        if inv.contains_key(left) && inv.contains_key(right) && inv.contains_key(whole)
            && !before.contains_key((inv[left], inv[right])) {
            before.insert((inv[left], inv[right]), (inv[whole], (n - 1) as u32))
        } else {
            before
        }
    }
}

/// Build the merge table, with explicit ranks.
fn sp_merges(inv: &ByteMap<TokenId>, merges: &[(String, String)]) -> (r: RankedMergeTable)
    requires
        inv.wf(),
        merges@.len() <= u32::MAX,
    ensures
        r.wf(),
        r@ == sp_rules(inv@, merge_strings(merges@), merges@.len() as int),
{
    let ghost strings = merge_strings(merges@);
    let mut table: RankedMergeTable = RankedMergeTable::new();
    for rank in 0..merges.len()
        invariant
            inv.wf(),
            merges@.len() <= u32::MAX,
            strings == merge_strings(merges@),
            table.wf(),
            table@ == sp_rules(inv@, strings, rank as int),
    {
        let a: &str = merges[rank].0.as_str();
        let b: &str = merges[rank].1.as_str();
        assert(strings[rank as int] == (encode_utf8(a@), encode_utf8(b@)));
        let left: Option<TokenId> = inv.get(token_str_to_bytes(a).as_slice());
        let right: Option<TokenId> = inv.get(token_str_to_bytes(b).as_slice());
        if let (Some(id_a), Some(id_b)) = (left, right) {
            let mut whole: Vec<u8> = copy_bytes(a.as_bytes());
            append_bytes(&mut whole, b.as_bytes());
            let merged: Vec<u8> = token_bytes_of(whole);
            if let Some(id_merged) = inv.get(merged.as_slice()) {
                if table.lookup(id_a, id_b).is_none() {
                    table.insert(id_a, id_b, id_merged, rank as u32);
                }
            }
        }
    }
    table
}

/// [`token_str_to_bytes`] of a string given by its UTF-8.
fn token_bytes_of(s: Vec<u8>) -> (r: Vec<u8>)
    ensures
        r@ == token_bytes(s@),
{
    match fallback_byte(s.as_slice()) {
        Some(byte) => {
            let mut r: Vec<u8> = Vec::new();
            r.push(byte);
            assert(r@ =~= seq![byte]);
            r
        },
        None => s,
    }
}

/// The entries of a SentencePiece vocabulary.
fn sp_vocab(vocab: &[(String, u32)]) -> (r: Vec<(Vec<u8>, u32)>)
    ensures
        entry_views(r@) == sp_entries(vocab_strings(vocab@)),
        forall|k: int|
            0 <= k < r@.len() ==> exists|i: int|
                0 <= i < vocab@.len() && (#[trigger] r@[k]).1 == (#[trigger] vocab@[i]).1,
{
    let ghost entries = vocab_strings(vocab@);
    let mut fallback: Vec<(Vec<u8>, u32)> = Vec::new();
    let mut other: Vec<(Vec<u8>, u32)> = Vec::new();
    assert(entries.take(0) =~= Seq::<(Seq<u8>, u32)>::empty());
    assert(entry_views(fallback@) =~= picked(entries.take(0), true));
    assert(entry_views(other@) =~= picked(entries.take(0), false));
    for i in 0..vocab.len()
        invariant
            entries == vocab_strings(vocab@),
            entry_views(fallback@) == picked(entries.take(i as int), true),
            entry_views(other@) == picked(entries.take(i as int), false),
            forall|k: int|
                0 <= k < fallback@.len() ==> exists|j: int|
                    0 <= j < vocab@.len() && (#[trigger] fallback@[k]).1 == (#[trigger] vocab@[j]).1,
            forall|k: int|
                0 <= k < other@.len() ==> exists|j: int|
                    0 <= j < vocab@.len() && (#[trigger] other@[k]).1 == (#[trigger] vocab@[j]).1,
    {
        let ghost now = entries.take(i as int + 1);
        let ghost fb = fallback@;
        let ghost ot = other@;
        proof {
            assert(now.drop_last() =~= entries.take(i as int));
            assert(now.last() == entries[i as int]);
        }
        let name: &str = vocab[i].0.as_str();
        let id: u32 = vocab[i].1;
        let bytes: Vec<u8> = token_str_to_bytes(name);
        if parse_byte_fallback(name).is_some() {
            fallback.push((bytes, id));
            assert(entry_views(fallback@) =~= entry_views(fb).push((bytes@, id)));
        } else {
            other.push((bytes, id));
            assert(entry_views(other@) =~= entry_views(ot).push((bytes@, id)));
        }
        assert(vocab@[i as int].1 == id);
    }
    assert(entries.take(entries.len() as int) =~= entries);
    let ghost fb = fallback@;
    let ghost ot = other@;
    fallback.append(&mut other);
    assert(fallback@ =~= fb + ot);
    assert(entry_views(fallback@) =~= entry_views(fb) + entry_views(ot));
    proof {
        assert forall|k: int| 0 <= k < fallback@.len() implies exists|i: int|
            0 <= i < vocab@.len() && (#[trigger] fallback@[k]).1 == (#[trigger] vocab@[i]).1 by {
            if k < fb.len() {
                assert(fallback@[k] == fb[k]);
            } else {
                assert(fallback@[k] == ot[k - fb.len()]);
            }
        }
    }
    fallback
}

/// The kind of a model; files that omit it are BPE.
pub open spec fn model_type(m: Model) -> Seq<char> {
    match m.model_type {
        Some(t) => t@,
        None => "BPE"@,
    }
}

fn check_bpe(m: &Model) -> (r: Result<(), LoadError>)
    ensures
        match r {
            Ok(_) => model_type(*m) == "BPE"@,
            Err(e) => model_type(*m) != "BPE"@ && e@ == Fault::UnsupportedModelType(model_type(*m)),
        },
{
    match &m.model_type {
        Some(t) => if text_is(t.as_str(), "BPE") {
            Ok(())
        } else {
            Err(LoadError::UnsupportedModelType(t.clone()))
        },
        None => Ok(()),
    }
}

/// Whether a file's ids leave room for a table of them, and its lists have
/// places that fit in 32 bits.
pub open spec fn fits(tj: TokenizerJson) -> bool {
    &&& forall|i: int|
        0 <= i < tj.model.vocab@.len() ==> (#[trigger] tj.model.vocab@[i]).1 < u32::MAX
    &&& forall|i: int|
        0 <= i < tj.added_tokens@.len() ==> (#[trigger] tj.added_tokens@[i]).id < u32::MAX
    &&& tj.model.merges@.len() <= u32::MAX
    &&& tj.added_tokens@.len() <= u32::MAX
}

/// The contents of added tokens with their ids.
pub open spec fn added_entries(added: Seq<AddedToken>) -> Entries {
    added.map_values(|t: AddedToken| (utf8(t.content), t.id))
}

/// The added tokens that are matched against normalizer output, with their
/// contents normalized the same way, or those that are matched in raw input.
pub open spec fn added_specs(added: Seq<AddedToken>, normalized: bool, steps: Seq<NormStep>) -> Seq<
    TokenSpec,
>
    decreases added.len(),
{
    if added.len() == 0 {
        Seq::empty()
    } else {
        let before = added_specs(added.drop_last(), normalized, steps);
        let t = added.last();
        if t.normalized == normalized {
            before.push(
                TokenSpec {
                    content: if normalized {
                        steps_applied(steps, utf8(t.content))
                    } else {
                        utf8(t.content)
                    },
                    id: TokenId(t.id),
                    lstrip: t.lstrip,
                    rstrip: t.rstrip,
                },
            )
        } else {
            before
        }
    }
}

/// The steps of a file's normalizer; none has none.
pub open spec fn file_steps(tj: TokenizerJson) -> Result<Seq<NormStep>, Fault> {
    match tj.normalizer {
        Some(n) => norm_steps(n),
        None => Ok(Seq::empty()),
    }
}

/// The SentencePiece model of a file whose normalizer and pre-tokenizer ask for
/// these.
pub open spec fn sp_tables(
    tj: TokenizerJson,
    steps: Seq<NormStep>,
    metaspace: Option<Metaspace>,
) -> SpModel {
    let strings = vocab_strings(tj.model.vocab@);
    let entries = sp_entries(strings);
    let inv = ids_of(entries);
    SpModel {
        rules: sp_rules(inv, merge_strings(tj.model.merges@), tj.model.merges@.len() as int),
        vocab: with_added(placed(entries, places(entries)), added_entries(tj.added_tokens@)),
        inv,
        fallback: fallback_ids(strings),
        added: added_specs(tj.added_tokens@, false, steps),
        norm_added: added_specs(tj.added_tokens@, true, steps),
        steps,
        metaspace,
    }
}

/// Whether a vocabulary has a byte-fallback token.
pub open spec fn has_fallback(ids: Seq<Option<TokenId>>) -> bool {
    exists|b: int| 0 <= b < ids.len() && #[trigger] ids[b] is Some
}

/// The SentencePiece model of a file.
pub open spec fn sp_model(tj: TokenizerJson) -> Result<SpModel, Fault> {
    if model_type(tj.model) != "BPE"@ {
        Err(Fault::UnsupportedModelType(model_type(tj.model)))
    } else if !tj.model.byte_fallback {
        Err(Fault::NotByteFallback)
    } else if !has_fallback(fallback_ids(vocab_strings(tj.model.vocab@))) {
        Err(Fault::NoByteTokens)
    } else {
        match file_steps(tj) {
            Err(e) => Err(e),
            Ok(steps) => match sp_metaspace(tj.pre_tokenizer) {
                Err(e) => Err(e),
                Ok(metaspace) => Ok(sp_tables(tj, steps, metaspace)),
            },
        }
    }
}

/// All added tokens (special and non-special) are matched atomically.
/// `normalized: false` tokens match in the raw input, `normalized: true` ones
/// against normalizer output, with their content normalized the same way.
fn sp_added(added: &[AddedToken], normalized: bool, ops: &[NormOp]) -> (r: TokenSpecs)
    requires
        added@.len() <= u32::MAX,
        ops_wf(ops@),
    ensures
        r.wf(),
        r@ == added_specs(added@, normalized, step_views(ops@)),
{
    let ghost steps = step_views(ops@);
    let mut specs: Vec<SpecBytes> = Vec::new();
    assert(added@.take(0) =~= Seq::<AddedToken>::empty());
    assert(spec_views(specs@) =~= added_specs(added@.take(0), normalized, steps));
    for i in 0..added.len()
        invariant
            added@.len() <= u32::MAX,
            ops_wf(ops@),
            steps == step_views(ops@),
            specs@.len() <= i,
            spec_views(specs@) == added_specs(added@.take(i as int), normalized, steps),
    {
        let ghost now = added@.take(i as int + 1);
        let ghost before = specs@;
        proof {
            assert(now.drop_last() =~= added@.take(i as int));
            assert(now.last() == added@[i as int]);
        }
        let t: &AddedToken = &added[i];
        if t.normalized == normalized {
            let raw: &[u8] = t.content.as_str().as_bytes();
            let content: Vec<u8> = if normalized {
                apply_norm_ops(ops, raw)
            } else {
                copy_bytes(raw)
            };
            let spec = SpecBytes {
                content,
                id: TokenId(t.id),
                lstrip: t.lstrip,
                rstrip: t.rstrip,
            };
            specs.push(spec);
            assert(spec_views(specs@) =~= spec_views(before).push(spec@));
        }
    }
    assert(added@.take(added@.len() as int) =~= added@);
    TokenSpecs::new(specs)
}

/// The contents and ids of added tokens.
fn added_list(added: &[AddedToken]) -> (r: Vec<(Vec<u8>, u32)>)
    ensures
        entry_views(r@) == added_entries(added@),
        r@.len() == added@.len(),
        forall|i: int| 0 <= i < r@.len() ==> (#[trigger] r@[i]).1 == added@[i].id,
{
    let mut r: Vec<(Vec<u8>, u32)> = Vec::with_capacity(added.len());
    for i in 0..added.len()
        invariant
            r@.len() == i,
            forall|k: int|
                0 <= k < i ==> (#[trigger] r@[k]).0@ == utf8(added@[k].content) && r@[k].1
                    == added@[k].id,
    {
        r.push((copy_bytes(added[i].content.as_str().as_bytes()), added[i].id));
    }
    assert(entry_views(r@) =~= added_entries(added@));
    r
}

fn any_some(ids: &[Option<TokenId>]) -> (r: bool)
    ensures
        r == has_fallback(ids@),
{
    for i in 0..ids.len()
        invariant
            forall|b: int| 0 <= b < i ==> #[trigger] ids@[b] is None,
    {
        if ids[i].is_some() {
            assert(ids@[i as int] is Some);
            return true;
        }
    }
    false
}

fn build_sentencepiece(tj: &TokenizerJson) -> (r: Result<SentencePieceBPE, LoadError>)
    requires
        fits(*tj),
    ensures
        match r {
            Ok(t) => t.wf() && sp_model(*tj) == Ok::<SpModel, Fault>(t@),
            Err(e) => sp_model(*tj) == Err::<SpModel, Fault>(e@),
        },
{
    if let Err(e) = check_bpe(&tj.model) {
        return Err(e);
    }
    if !tj.model.byte_fallback {
        return Err(LoadError::NotByteFallback);
    }
    // The vocab keeps the original ids.
    let entries: Vec<(Vec<u8>, u32)> = sp_vocab(tj.model.vocab.as_slice());
    proof {
        assert forall|k: int| 0 <= k < entries@.len() implies (#[trigger] entries@[k]).1
            < u32::MAX by {
            let i = choose|i: int|
                0 <= i < tj.model.vocab@.len() && entries@[k].1 == (
                #[trigger] tj.model.vocab@[i]).1;
        }
    }
    let placed_entries: (Vec<Vec<u8>>, ByteMap<TokenId>) = place_entries(entries.as_slice());
    let mut vocab: Vec<Vec<u8>> = placed_entries.0;
    let vocab_inv: ByteMap<TokenId> = placed_entries.1;

    let byte_fallback_ids: Vec<Option<TokenId>> = byte_fallback_ids(tj.model.vocab.as_slice());
    if !any_some(byte_fallback_ids.as_slice()) {
        return Err(LoadError::NoByteTokens);
    }
    let merges: RankedMergeTable = sp_merges(&vocab_inv, tj.model.merges.as_slice());

    let mut norm_ops: Vec<NormOp> = Vec::new();
    assert(step_views(norm_ops@) =~= Seq::<NormStep>::empty());
    if let Some(n) = &tj.normalizer {
        if let Err(e) = parse_sp_normalizer(n, &mut norm_ops) {
            return Err(e);
        }
        assert(Seq::<NormStep>::empty() + norm_steps(*n)->Ok_0 =~= norm_steps(*n)->Ok_0);
    }
    assert(file_steps(*tj) == Ok::<Seq<NormStep>, Fault>(step_views(norm_ops@)));
    let metaspace: Option<Metaspace> = match parse_sp_metaspace(&tj.pre_tokenizer) {
        Ok(metaspace) => metaspace,
        Err(e) => return Err(e),
    };

    let added_tokens: TokenSpecs = sp_added(tj.added_tokens.as_slice(), false, norm_ops.as_slice());
    let norm_added_tokens: TokenSpecs = sp_added(
        tj.added_tokens.as_slice(),
        true,
        norm_ops.as_slice(),
    );
    let contents: Vec<(Vec<u8>, u32)> = added_list(tj.added_tokens.as_slice());
    extend_vocab(&mut vocab, contents.as_slice());
    Ok(
        SentencePieceBPE::new(
            merges,
            vocab,
            vocab_inv,
            byte_fallback_ids,
            added_tokens,
            norm_added_tokens,
            norm_ops,
            metaspace,
        ),
    )
}

/// Build the tokenizer of a `tokenizer.json` that uses SentencePiece-style BPE
/// with byte fallback (e.g. Llama 2 / TinyLlama). It preserves the original
/// token ids.
pub fn load_hf_sentencepiece(tj: &TokenizerJson) -> (r: Result<SentencePieceBPE, LoadError>)
    requires
        fits(*tj),
    ensures
        match r {
            Ok(t) => t.wf() && sp_model(*tj) == Ok::<SpModel, Fault>(t@),
            Err(e) => sp_model(*tj) == Err::<SpModel, Fault>(e@),
        },
{
    build_sentencepiece(tj)
}

/// The bytes and ids of a ByteLevel vocabulary.
pub open spec fn bpe_entries(vocab: Seq<(String, u32)>) -> Entries {
    vocab.map_values(|e: (String, u32)| (unicode_bytes(e.0@), e.1))
}

/// The bytes of a list of ByteLevel merges.
pub open spec fn merge_bytes(merges: Seq<(String, String)>) -> Seq<(Seq<u8>, Seq<u8>)> {
    merges.map_values(|m: (String, String)| (unicode_bytes(m.0@), unicode_bytes(m.1@)))
}

/// The merges of the first `n` of a list of byte pairs. A merge of which a part
/// or the whole is not in the vocabulary is none, and a pair keeps its first.
pub open spec fn merge_map(
    inv: Map<Seq<u8>, TokenId>,
    merges: Seq<(Seq<u8>, Seq<u8>)>,
    n: int,
) -> Map<(TokenId, TokenId), TokenId>
    decreases n,
{
    if n <= 0 {
        Map::empty()
    } else {
        let before = merge_map(inv, merges, n - 1);
        let (a, b) = merges[n - 1];
        if inv.contains_key(a) && inv.contains_key(b) && inv.contains_key(a + b)
            && !before.contains_key((inv[a], inv[b])) {
            before.insert((inv[a], inv[b]), inv[a + b])
        } else {
            before
        }
    }
}

/// The least byte from `b` on that a vocabulary lacks a token for.
pub open spec fn first_lacking(vocab: Seq<Seq<u8>>, b: int) -> Option<u8>
    decreases 256 - b,
{
    if b < 0 || b >= 256 {
        None
    } else if lacks_byte(vocab, b as u8) {
        Some(b as u8)
    } else {
        first_lacking(vocab, b + 1)
    }
}

proof fn lemma_first_lacking(vocab: Seq<Seq<u8>>, b: int, x: u8)
    requires
        0 <= b <= x,
        lacks_byte(vocab, x),
        forall|c: u8| c < x ==> !#[trigger] lacks_byte(vocab, c),
    ensures
        first_lacking(vocab, b) == Some(x),
    decreases x - b,
{
    if b < x {
        assert(!lacks_byte(vocab, b as u8));
        lemma_first_lacking(vocab, b + 1, x);
    }
}

proof fn lemma_none_lacking(vocab: Seq<Seq<u8>>, b: int)
    requires
        0 <= b <= 256,
        forall|c: u8| !#[trigger] lacks_byte(vocab, c),
    ensures
        first_lacking(vocab, b) is None,
    decreases 256 - b,
{
    if b < 256 {
        assert(!lacks_byte(vocab, b as u8));
        lemma_none_lacking(vocab, b + 1);
    }
}

/// The added tokens of a file.
pub open spec fn file_added(tj: TokenizerJson) -> Seq<Added> {
    tj.added_tokens@.map_values(|t: AddedToken| (utf8(t.content), TokenId(t.id)))
}

/// The ByteLevel tables of a file.
pub open spec fn bpe_tables(tj: TokenizerJson) -> ModelView {
    let entries = bpe_entries(tj.model.vocab@);
    let vocab = with_added(placed(entries, places(entries)), added_entries(tj.added_tokens@));
    ModelView {
        merges: merge_map(
            ids_of(entries),
            merge_bytes(tj.model.merges@),
            tj.model.merges@.len() as int,
        ),
        vocab,
        inv: vocab_inverse(vocab, vocab.len() as int),
        remap: if byte_table(vocab) == identity_table() {
            None
        } else {
            Some(byte_table(vocab))
        },
    }
}

/// How the ByteLevel tokenizer of a file encodes.
pub open spec fn bpe_encoding(tj: TokenizerJson) -> Result<Encoding, Fault> {
    if model_type(tj.model) != "BPE"@ {
        Err(Fault::UnsupportedModelType(model_type(tj.model)))
    } else if tj.model.byte_fallback {
        Err(Fault::IsByteFallback)
    } else {
        match first_lacking(bpe_tables(tj).vocab, 0) {
            Some(b) => Err(Fault::MissingByte(b)),
            None => match pretokenizer_scheme(tj.pre_tokenizer) {
                Err(e) => Err(e),
                Ok(scheme) => match nfc_normalizer(tj.normalizer) {
                    Err(e) => Err(e),
                    Ok(nfc) => Ok(
                        Encoding {
                            model: bpe_tables(tj),
                            added: by_descending_len(file_added(tj)),
                            scheme,
                            nfc,
                        },
                    ),
                },
            },
        }
    }
}

fn bpe_vocab(vocab: &[(String, u32)], u2b: &[Option<u8>]) -> (r: Vec<(Vec<u8>, u32)>)
    requires
        u2b@.len() == 324,
        forall|c: int| 0 <= c < 324 ==> #[trigger] u2b@[c] == code_byte(c),
    ensures
        entry_views(r@) == bpe_entries(vocab@),
        r@.len() == vocab@.len(),
        forall|i: int| 0 <= i < r@.len() ==> (#[trigger] r@[i]).1 == vocab@[i].1,
{
    let mut r: Vec<(Vec<u8>, u32)> = Vec::with_capacity(vocab.len());
    for i in 0..vocab.len()
        invariant
            u2b@.len() == 324,
            forall|c: int| 0 <= c < 324 ==> #[trigger] u2b@[c] == code_byte(c),
            r@.len() == i,
            forall|k: int|
                0 <= k < i ==> (#[trigger] r@[k]).0@ == unicode_bytes(vocab@[k].0@) && r@[k].1
                    == vocab@[k].1,
    {
        r.push((unicode_to_bytes(vocab[i].0.as_str(), u2b), vocab[i].1));
    }
    assert(entry_views(r@) =~= bpe_entries(vocab@));
    r
}

/// Build merges from the merge list. Each merge "a b" means: look up token ids
/// for "a" and "b", the merged token is that of their bytes together.
fn bpe_merges(
    inv: &ByteMap<TokenId>,
    merges: &[(String, String)],
    u2b: &[Option<u8>],
) -> (r: MergeTable)
    requires
        inv.wf(),
        u2b@.len() == 324,
        forall|c: int| 0 <= c < 324 ==> #[trigger] u2b@[c] == code_byte(c),
    ensures
        r.wf(),
        r@ == merge_map(inv@, merge_bytes(merges@), merges@.len() as int),
{
    let ghost pairs = merge_bytes(merges@);
    let mut table: MergeTable = MergeTable::new();
    assert(table@ =~= merge_map(inv@, pairs, 0));
    for i in 0..merges.len()
        invariant
            inv.wf(),
            u2b@.len() == 324,
            forall|c: int| 0 <= c < 324 ==> #[trigger] u2b@[c] == code_byte(c),
            pairs == merge_bytes(merges@),
            table.wf(),
            table@ == merge_map(inv@, pairs, i as int),
    {
        let mut a: Vec<u8> = unicode_to_bytes(merges[i].0.as_str(), u2b);
        let b: Vec<u8> = unicode_to_bytes(merges[i].1.as_str(), u2b);
        assert(pairs[i as int] == (a@, b@));
        let left: Option<TokenId> = inv.get(a.as_slice());
        let right: Option<TokenId> = inv.get(b.as_slice());
        if let (Some(id_a), Some(id_b)) = (left, right) {
            append_bytes(&mut a, b.as_slice());
            if let Some(id_merged) = inv.get(a.as_slice()) {
                if table.get(id_a, id_b).is_none() {
                    table.insert(id_a, id_b, id_merged);
                }
            }
        }
    }
    table
}

/// The added tokens of a file, for a ByteLevel tokenizer.
fn bpe_added(added: &[AddedToken]) -> (r: Vec<(Vec<u8>, TokenId)>)
    ensures
        added_views(r@) == added@.map_values(|t: AddedToken| (utf8(t.content), TokenId(t.id))),
{
    let mut r: Vec<(Vec<u8>, TokenId)> = Vec::with_capacity(added.len());
    for i in 0..added.len()
        invariant
            r@.len() == i,
            forall|k: int|
                0 <= k < i ==> (#[trigger] r@[k]).0@ == utf8(added@[k].content) && r@[k].1
                    == TokenId(added@[k].id),
    {
        r.push((copy_bytes(added[i].content.as_str().as_bytes()), TokenId(added[i].id)));
    }
    assert(added_views(r@) =~= added@.map_values(
        |t: AddedToken| (utf8(t.content), TokenId(t.id)),
    ));
    r
}

fn build_bpe(tj: &TokenizerJson) -> (r: Result<Tokenizer, LoadError>)
    requires
        fits(*tj),
    ensures
        match r {
            Ok(t) => t.wf() && bpe_encoding(*tj) == Ok::<Encoding, Fault>(t.encoding()),
            Err(e) => bpe_encoding(*tj) == Err::<Encoding, Fault>(e@),
        },
{
    if let Err(e) = check_bpe(&tj.model) {
        return Err(e);
    }
    if tj.model.byte_fallback {
        return Err(LoadError::IsByteFallback);
    }
    let tables: (Vec<u32>, Vec<Option<u8>>) = build_byte_unicode_tables();
    let u2b: Vec<Option<u8>> = tables.1;

    let entries: Vec<(Vec<u8>, u32)> = bpe_vocab(tj.model.vocab.as_slice(), u2b.as_slice());
    let placed_entries: (Vec<Vec<u8>>, ByteMap<TokenId>) = place_entries(entries.as_slice());
    let mut vocab: Vec<Vec<u8>> = placed_entries.0;
    let vocab_inv: ByteMap<TokenId> = placed_entries.1;
    let contents: Vec<(Vec<u8>, u32)> = added_list(tj.added_tokens.as_slice());
    extend_vocab(&mut vocab, contents.as_slice());
    let merges: MergeTable = bpe_merges(&vocab_inv, tj.model.merges.as_slice(), u2b.as_slice());

    let ghost m = bpe_tables(*tj);
    assert(byte_seqs(vocab@) == m.vocab);
    let byte_remapping: Option<ByteRemapping> = match ByteRemapping::from_byte_vocab(
        vocab.as_slice(),
    ) {
        Ok(found) => found,
        Err(MissingByte(b)) => {
            proof {
                lemma_first_lacking(m.vocab, 0, b);
            }
            return Err(LoadError::MissingByte(b));
        },
    };
    proof {
        lemma_none_lacking(m.vocab, 0);
        assert(remap_view(byte_remapping) == m.remap);
        assert(m.vocab.len() == vocab@.len());
    }
    let mut tokenizer: Tokenizer = Tokenizer::new(merges, vocab, byte_remapping);
    assert(tokenizer.encoding().model =~= m);
    let scheme: PretokenizerType = match detect_pretokenizer_type(&tj.pre_tokenizer) {
        Ok(scheme) => scheme,
        Err(e) => return Err(e),
    };
    tokenizer.set_pretokenizer_type(scheme);
    let nfc: bool = match detect_nfc_normalizer(&tj.normalizer) {
        Ok(nfc) => nfc,
        Err(e) => return Err(e),
    };
    tokenizer.set_normalize_nfc(nfc);
    // All added tokens (special and non-special) are matched atomically in the
    // raw input.
    tokenizer.set_added_tokens(bpe_added(tj.added_tokens.as_slice()));
    Ok(tokenizer)
}

/// Build the tokenizer of a `tokenizer.json` that uses ByteLevel BPE without
/// byte_fallback (e.g. GPT-2, RoBERTa), with byte remapping.
pub fn load_hf_bpe(tj: &TokenizerJson) -> (r: Result<Tokenizer, LoadError>)
    requires
        fits(*tj),
    ensures
        match r {
            Ok(t) => t.wf() && bpe_encoding(*tj) == Ok::<Encoding, Fault>(t.encoding()),
            Err(e) => bpe_encoding(*tj) == Err::<Encoding, Fault>(e@),
        },
{
    build_bpe(tj)
}

/// A tokenizer of a `tokenizer.json` file: the model's `byte_fallback` flag
/// decides which of the two supported styles applies.
pub enum HfTokenizer {
    Bpe(Tokenizer),
    SentencePiece(SentencePieceBPE),
}

/// Build the tokenizer of the contents of a `tokenizer.json`, choosing the
/// SentencePiece or ByteLevel BPE style from the model's `byte_fallback` flag.
pub fn load_hf_slice(tj: &TokenizerJson) -> (r: Result<HfTokenizer, LoadError>)
    requires
        fits(*tj),
    ensures
        match r {
            Ok(HfTokenizer::SentencePiece(t)) => {
                &&& tj.model.byte_fallback
                &&& t.wf()
                &&& sp_model(*tj) == Ok::<SpModel, Fault>(t@)
            },
            Ok(HfTokenizer::Bpe(t)) => {
                &&& !tj.model.byte_fallback
                &&& t.wf()
                &&& bpe_encoding(*tj) == Ok::<Encoding, Fault>(t.encoding())
            },
            Err(e) => if tj.model.byte_fallback {
                sp_model(*tj) == Err::<SpModel, Fault>(e@)
            } else {
                bpe_encoding(*tj) == Err::<Encoding, Fault>(e@)
            },
        },
{
    if tj.model.byte_fallback {
        match build_sentencepiece(tj) {
            Ok(t) => Ok(HfTokenizer::SentencePiece(t)),
            Err(e) => Err(e),
        }
    } else {
        match build_bpe(tj) {
            Ok(t) => Ok(HfTokenizer::Bpe(t)),
            Err(e) => Err(e),
        }
    }
}

/// A ByteLevel tokenizer keeps the ids of its file: where no id of the
/// vocabulary occurs twice, each of its strings decodes, from its own id, to its
/// bytes.
pub proof fn lemma_bpe_ids_kept(tj: TokenizerJson, i: int)
    requires
        0 <= i < tj.model.vocab@.len(),
        ids_distinct(bpe_entries(tj.model.vocab@)),
        unicode_bytes(tj.model.vocab@[i].0@).len() > 0,
    ensures
        bpe_tables(tj).vocab[tj.model.vocab@[i].1 as int] == unicode_bytes(
            tj.model.vocab@[i].0@,
        ),
{
    let entries = bpe_entries(tj.model.vocab@);
    let n = places(entries);
    assert(entries[i] == (unicode_bytes(tj.model.vocab@[i].0@), tj.model.vocab@[i].1));
    assert forall|k: int| 0 <= k < entries.len() implies (#[trigger] entries[k]).1 < n by {
        lemma_places(entries, k);
    }
    lemma_placed_at_id(entries, n, i);
    lemma_placed_len(entries, n);
    lemma_with_added_keeps(
        placed(entries, n),
        added_entries(tj.added_tokens@),
        entries[i].1 as int,
    );
}

} // verus!
