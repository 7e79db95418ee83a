//! Laws: what the tables of a SentencePiece file say of its strings.

use vstd::prelude::*;
use vstd::utf8::{encode_utf8_valid_utf8, valid_utf8, valid_utf8_concat};

use crate::bpe::apart::all_inked;
use crate::bpe::vocab::{decoded, in_vocab, lemma_decoded_concat, lemma_decoded_one};
use crate::load_tokenizer::config::{utf8, TokenizerJson};
use crate::load_tokenizer::entries::{
    ids_distinct, ids_of, lemma_ids_of, lemma_placed_at_id, lemma_placed_len, lemma_places,
    lemma_with_added_keeps, placed, places, Entries,
};
use crate::load_tokenizer::hf::{
    added_entries, byte_fallback, fallback_ids, fallback_name, id_of, lemma_fallback_name,
    merge_strings, picked, sp_entries, sp_rules, sp_tables, token_bytes, vocab_strings,
};
use crate::pretokenize::scan::width_at;
use crate::sentencepiece::laws::{lemma_normal_round_trip, lemma_round_trip};
use crate::sentencepiece::model::{mark, mark_char_at, Metaspace, NormStep};
use crate::token::TokenId;

verus! {

/// The bytes and id of an entry.
spec fn named(e: (Seq<u8>, u32)) -> (Seq<u8>, u32) {
    (token_bytes(e.0), e.1)
}

/// Where in a list the entry at place `k` of the picked ones stands.
spec fn source(entries: Entries, fallback: bool, k: int) -> int
    decreases entries.len(),
{
    if entries.len() == 0 {
        0
    } else if byte_fallback(entries.last().0) is Some == fallback && k == picked(
        entries.drop_last(),
        fallback,
    ).len() {
        entries.len() - 1
    } else {
        source(entries.drop_last(), fallback, k)
    }
}

proof fn lemma_source(entries: Entries, fallback: bool, k: int)
    requires
        0 <= k < picked(entries, fallback).len(),
    ensures
        0 <= source(entries, fallback, k) < entries.len(),
        picked(entries, fallback)[k] == named(entries[source(entries, fallback, k)]),
        byte_fallback(entries[source(entries, fallback, k)].0) is Some == fallback,
        forall|j: int|
            0 <= j < k ==> #[trigger] source(entries, fallback, j) < source(entries, fallback, k),
    decreases entries.len(),
{
    let init = entries.drop_last();
    let n = picked(init, fallback).len();
    if k < n {
        lemma_source(init, fallback, k);
        assert(entries[source(init, fallback, k)] == init[source(init, fallback, k)]);
        assert forall|j: int| 0 <= j < k implies #[trigger] source(entries, fallback, j) < source(
            entries,
            fallback,
            k,
        ) by {
            assert(source(entries, fallback, j) == source(init, fallback, j));
        }
    } else {
        assert forall|j: int| 0 <= j < k implies #[trigger] source(entries, fallback, j) < source(
            entries,
            fallback,
            k,
        ) by {
            lemma_source(init, fallback, j);
            assert(source(entries, fallback, j) == source(init, fallback, j));
        }
    }
}

/// Where the entry at `i` stands among the picked ones.
proof fn lemma_target(entries: Entries, i: int) -> (k: int)
    requires
        0 <= i < entries.len(),
    ensures
        0 <= k < picked(entries, byte_fallback(entries[i].0) is Some).len(),
        picked(entries, byte_fallback(entries[i].0) is Some)[k] == named(entries[i]),
    decreases entries.len(),
{
    let init = entries.drop_last();
    if i < init.len() {
        assert(init[i] == entries[i]);
        lemma_target(init, i)
    } else {
        picked(init, byte_fallback(entries[i].0) is Some).len() as int
    }
}

/// The order of the entries changes none of their ids.
proof fn lemma_sp_entries(entries: Entries, i: int) -> (k: int)
    requires
        0 <= i < entries.len(),
    ensures
        0 <= k < sp_entries(entries).len(),
        sp_entries(entries)[k] == named(entries[i]),
{
    let k = lemma_target(entries, i);
    if byte_fallback(entries[i].0) is Some {
        k
    } else {
        picked(entries, true).len() + k
    }
}

/// Where the entry at place `k` comes from.
proof fn lemma_sp_source(entries: Entries, k: int) -> (i: int)
    requires
        0 <= k < sp_entries(entries).len(),
    ensures
        0 <= i < entries.len(),
        sp_entries(entries)[k] == named(entries[i]),
        i == if k < picked(entries, true).len() {
            source(entries, true, k)
        } else {
            source(entries, false, k - picked(entries, true).len())
        },
        byte_fallback(entries[i].0) is Some == (k < picked(entries, true).len()),
{
    let n = picked(entries, true).len() as int;
    if k < n {
        lemma_source(entries, true, k);
        source(entries, true, k)
    } else {
        lemma_source(entries, false, k - n);
        source(entries, false, k - n)
    }
}

proof fn lemma_sp_distinct(entries: Entries)
    requires
        ids_distinct(entries),
    ensures
        ids_distinct(sp_entries(entries)),
{
    let list = sp_entries(entries);
    let n = picked(entries, true).len() as int;
    assert forall|a: int, b: int| 0 <= a < b < list.len() implies (#[trigger] list[a]).1 != (
    #[trigger] list[b]).1 by {
        let i = lemma_sp_source(entries, a);
        let j = lemma_sp_source(entries, b);
        if b < n {
            lemma_source(entries, true, b);
        } else if a >= n {
            lemma_source(entries, false, b - n);
        }
        assert(i != j);
        if i < j {
            assert(entries[i].1 != entries[j].1);
        } else {
            assert(entries[j].1 != entries[i].1);
        }
    }
}

/// Whether no id occurs twice in the vocabulary of a file, and no string of it
/// is empty.
pub open spec fn clean_vocab(tj: TokenizerJson) -> bool {
    let strings = vocab_strings(tj.model.vocab@);
    &&& ids_distinct(strings)
    &&& forall|i: int| 0 <= i < strings.len() ==> (#[trigger] strings[i]).0.len() > 0
}

/// A SentencePiece tokenizer keeps the ids of its file: each string of the
/// vocabulary decodes, from its own id, to its bytes.
pub proof fn lemma_sp_ids_kept(
    tj: TokenizerJson,
    steps: Seq<NormStep>,
    metaspace: Option<Metaspace>,
    i: int,
)
    requires
        clean_vocab(tj),
        0 <= i < tj.model.vocab@.len(),
    ensures
        ({
            let (name, id) = vocab_strings(tj.model.vocab@)[i];
            let m = sp_tables(tj, steps, metaspace);
            id < m.vocab.len() && m.vocab[id as int] == token_bytes(name)
        }),
{
    let strings = vocab_strings(tj.model.vocab@);
    let list = sp_entries(strings);
    let n = places(list);
    lemma_sp_distinct(strings);
    let k = lemma_sp_entries(strings, i);
    assert forall|j: int| 0 <= j < list.len() implies (#[trigger] list[j]).1 < n by {
        lemma_places(list, j);
    }
    assert(list[k].1 < n);
    lemma_placed_at_id(list, n, k);
    lemma_placed_len(list, n);
    assert(strings[i].0.len() > 0);
    lemma_with_added_keeps(placed(list, n), added_entries(tj.added_tokens@), list[k].1 as int);
}

/// The token of a byte string stands for it.
proof fn lemma_sp_inverse(
    tj: TokenizerJson,
    steps: Seq<NormStep>,
    metaspace: Option<Metaspace>,
    p: Seq<u8>,
)
    requires
        clean_vocab(tj),
        sp_tables(tj, steps, metaspace).inv.contains_key(p),
    ensures
        ({
            let m = sp_tables(tj, steps, metaspace);
            m.inv[p].0 < m.vocab.len() && m.vocab[m.inv[p].0 as int] == p
        }),
{
    let strings = vocab_strings(tj.model.vocab@);
    let list = sp_entries(strings);
    lemma_ids_of(list, p);
    let k = choose|k: int| 0 <= k < list.len() && #[trigger] list[k] == (p, ids_of(list)[p].0);
    let i = lemma_sp_source(strings, k);
    lemma_sp_ids_kept(tj, steps, metaspace, i);
}

/// Where a byte-fallback token and another string stand for the same bytes, the
/// other string's id is their token.
pub proof fn lemma_fallback_loses(entries: Entries, i: int)
    requires
        0 <= i < entries.len(),
        byte_fallback(entries[i].0) is None,
    ensures
        ids_of(sp_entries(entries)).contains_key(entries[i].0),
        exists|j: int|
            0 <= j < entries.len() && byte_fallback(entries[j].0) is None && (
            #[trigger] entries[j]) == (entries[i].0, ids_of(sp_entries(entries))[entries[i].0].0),
{
    let p = entries[i].0;
    let a = picked(entries, true);
    let b = picked(entries, false);
    let k = lemma_target(entries, i);
    lemma_ids_of_has(b, k);
    lemma_ids_of_concat(a, b, p);
    lemma_ids_of(b, p);
    let h = choose|h: int| 0 <= h < b.len() && #[trigger] b[h] == (p, ids_of(b)[p].0);
    lemma_source(entries, false, h);
    assert(entries[source(entries, false, h)] == (p, ids_of(b)[p].0));
}

proof fn lemma_ids_of_has(entries: Entries, k: int)
    requires
        0 <= k < entries.len(),
    ensures
        ids_of(entries).contains_key(entries[k].0),
    decreases entries.len(),
{
    if k < entries.len() - 1 {
        assert(entries.drop_last()[k] == entries[k]);
        lemma_ids_of_has(entries.drop_last(), k);
    }
}

/// Of two lists, the second says the id of a byte string that it has.
proof fn lemma_ids_of_concat(a: Entries, b: Entries, p: Seq<u8>)
    requires
        ids_of(b).contains_key(p),
    ensures
        ids_of(a + b).contains_key(p),
        ids_of(a + b)[p] == ids_of(b)[p],
    decreases b.len(),
{
    if b.len() > 0 {
        assert((a + b).drop_last() =~= a + b.drop_last());
        assert((a + b).last() == b.last());
        if b.last().0 != p {
            lemma_ids_of_concat(a, b.drop_last(), p);
        }
    }
}

/// Whether no part or whole of a merge looks like a byte-fallback token.
pub open spec fn plain_merges(tj: TokenizerJson) -> bool {
    let merges = merge_strings(tj.model.merges@);
    forall|k: int|
        0 <= k < merges.len() ==> byte_fallback((#[trigger] merges[k]).0) is None && byte_fallback(
            merges[k].1,
        ) is None && byte_fallback(merges[k].0 + merges[k].1) is None
}

/// A rule comes from a merge.
proof fn lemma_rule_source(
    inv: Map<Seq<u8>, TokenId>,
    merges: Seq<(Seq<u8>, Seq<u8>)>,
    n: int,
    p: (TokenId, TokenId),
)
    requires
        0 <= n <= merges.len(),
        sp_rules(inv, merges, n).contains_key(p),
    ensures
        exists|k: int|
            0 <= k < n && inv.contains_key(token_bytes((#[trigger] merges[k]).0))
                && inv.contains_key(token_bytes(merges[k].1)) && inv.contains_key(
                token_bytes(merges[k].0 + merges[k].1),
            ) && p == (inv[token_bytes(merges[k].0)], inv[token_bytes(merges[k].1)]) && sp_rules(
                inv,
                merges,
                n,
            )[p].0 == inv[token_bytes(merges[k].0 + merges[k].1)],
    decreases n,
{
    let before = sp_rules(inv, merges, n - 1);
    if before.contains_key(p) {
        lemma_rule_source(inv, merges, n - 1, p);
        assert(sp_rules(inv, merges, n)[p] == before[p]);
    } else {
        assert(merges[n - 1] == merges[n - 1]);
    }
}

/// Each merge of a SentencePiece file yields the token whose bytes are those of
/// its parts, and those bytes are valid UTF-8.
pub proof fn lemma_sp_merges_agree(
    tj: TokenizerJson,
    steps: Seq<NormStep>,
    metaspace: Option<Metaspace>,
)
    requires
        clean_vocab(tj),
        plain_merges(tj),
    ensures
        sp_tables(tj, steps, metaspace).merges_agree(),
{
    let m = sp_tables(tj, steps, metaspace);
    let merges = merge_strings(tj.model.merges@);
    let n = merges.len() as int;
    assert forall|p: (TokenId, TokenId)| #[trigger] m.rules.contains_key(p) implies m.rules[p].0.0
        < m.vocab.len() && valid_utf8(m.vocab[m.rules[p].0.0 as int])
        && m.vocab[m.rules[p].0.0 as int] == m.vocab[p.0.0 as int] + m.vocab[p.1.0 as int] by {
        lemma_rule_source(m.inv, merges, n, p);
        let k = choose|k: int|
            0 <= k < n && m.inv.contains_key(token_bytes((#[trigger] merges[k]).0))
                && m.inv.contains_key(token_bytes(merges[k].1)) && m.inv.contains_key(
                token_bytes(merges[k].0 + merges[k].1),
            ) && p == (m.inv[token_bytes(merges[k].0)], m.inv[token_bytes(merges[k].1)])
                && m.rules[p].0 == m.inv[token_bytes(merges[k].0 + merges[k].1)];
        let (a, b) = merges[k];
        lemma_sp_inverse(tj, steps, metaspace, a);
        lemma_sp_inverse(tj, steps, metaspace, b);
        lemma_sp_inverse(tj, steps, metaspace, a + b);
        let strings = tj.model.merges@[k];
        assert(a == utf8(strings.0) && b == utf8(strings.1));
        encode_utf8_valid_utf8(strings.0@);
        encode_utf8_valid_utf8(strings.1@);
        valid_utf8_concat(a, b);
    }
}

proof fn lemma_id_of(entries: Entries, name: Seq<u8>)
    ensures
        id_of(entries, name) matches Some(id) ==> exists|i: int|
            0 <= i < entries.len() && #[trigger] entries[i] == (name, id.0),
    decreases entries.len(),
{
    if entries.len() > 0 {
        let init = entries.drop_last();
        if entries.last().0 == name {
            assert(entries[entries.len() - 1] == entries.last());
        } else {
            lemma_id_of(init, name);
            if let Some(id) = id_of(init, name) {
                let i = choose|i: int| 0 <= i < init.len() && #[trigger] init[i] == (name, id.0);
                assert(entries[i] == init[i]);
            }
        }
    }
}

/// Whether a vocabulary has the byte-fallback token of every byte.
pub open spec fn all_bytes_fall_back(tj: TokenizerJson) -> bool {
    let ids = fallback_ids(vocab_strings(tj.model.vocab@));
    forall|b: int| 0 <= b < 256 ==> #[trigger] ids[b] is Some
}

/// The byte-fallback tokens of bytes stand for them.
proof fn lemma_fallback_decodes(
    tj: TokenizerJson,
    steps: Seq<NormStep>,
    metaspace: Option<Metaspace>,
    bytes: Seq<u8>,
)
    requires
        clean_vocab(tj),
        all_bytes_fall_back(tj),
    ensures
        ({
            let m = sp_tables(tj, steps, metaspace);
            let ids = m.fallback_tokens(bytes);
            &&& decoded(m.vocab, ids) == bytes
            &&& all_inked(m.vocab, ids)
            &&& in_vocab(m.vocab, ids)
        }),
    decreases bytes.len(),
{
    let m = sp_tables(tj, steps, metaspace);
    if bytes.len() > 0 {
        let init = bytes.drop_last();
        let b = bytes.last();
        let strings = vocab_strings(tj.model.vocab@);
        lemma_fallback_decodes(tj, steps, metaspace, init);
        assert(fallback_ids(strings)[b as int] is Some);
        let id = m.fallback[b as int]->0;
        lemma_id_of(strings, fallback_name(b));
        let i = choose|i: int|
            0 <= i < strings.len() && #[trigger] strings[i] == (fallback_name(b), id.0);
        lemma_sp_ids_kept(tj, steps, metaspace, i);
        lemma_fallback_name(b);
        assert(m.vocab[id.0 as int] == seq![b]);
        let before = m.fallback_tokens(init);
        lemma_decoded_concat(m.vocab, before, seq![id]);
        lemma_decoded_one(m.vocab, id);
        assert(bytes =~= init + seq![b]);
        assert forall|k: int| 0 <= k < before.len() + 1 implies (#[trigger] (before
            + seq![id])[k]).0 < m.vocab.len() && m.vocab[(before + seq![id])[k].0 as int].len()
            > 0 by {
            if k < before.len() {
                assert((before + seq![id])[k] == before[k]);
            }
        }
    }
}

/// Where every byte falls back, the initial symbols of every character stand
/// for it.
pub proof fn lemma_sp_char_decodes(
    tj: TokenizerJson,
    steps: Seq<NormStep>,
    metaspace: Option<Metaspace>,
    ch: Seq<u8>,
)
    requires
        clean_vocab(tj),
        all_bytes_fall_back(tj),
        ch.len() > 0,
    ensures
        sp_tables(tj, steps, metaspace).char_decodes(ch),
{
    let m = sp_tables(tj, steps, metaspace);
    if m.inv.contains_key(ch) {
        lemma_sp_inverse(tj, steps, metaspace, ch);
        lemma_decoded_one(m.vocab, m.inv[ch]);
    } else {
        lemma_fallback_decodes(tj, steps, metaspace, ch);
    }
}

/// Where every byte falls back, the initial symbols of every text stand for it.
pub proof fn lemma_sp_text_decodes(
    tj: TokenizerJson,
    steps: Seq<NormStep>,
    metaspace: Option<Metaspace>,
    s: Seq<u8>,
    pos: int,
    raw: bool,
)
    requires
        clean_vocab(tj),
        all_bytes_fall_back(tj),
        0 <= pos,
    ensures
        sp_tables(tj, steps, metaspace).text_decodes(s, pos, raw),
    decreases s.len() - pos,
{
    if pos < s.len() && width_at(s, pos) >= 1 {
        let w = width_at(s, pos);
        lemma_sp_text_decodes(tj, steps, metaspace, s, pos + w, raw);
        lemma_sp_char_decodes(
            tj,
            steps,
            metaspace,
            if raw && s[pos] == 0x20 {
                mark()
            } else {
                s.subrange(pos, pos + w)
            },
        );
    }
}

/// A tokenizer of a SentencePiece file whose bytes all fall back gives back, of a
/// text in which no added token stands, what the normalizer and the pre-tokenizer
/// left of it, with marks made spaces and without the space in front that encoding
/// puts there.
pub proof fn lemma_sp_normal_round_trip(
    tj: TokenizerJson,
    steps: Seq<NormStep>,
    metaspace: Option<Metaspace>,
    s: Seq<u8>,
)
    requires
        clean_vocab(tj),
        plain_merges(tj),
        all_bytes_fall_back(tj),
        s.len() > 0,
        valid_utf8(s),
        valid_utf8(sp_tables(tj, steps, metaspace).normal_form(s)),
        sp_tables(tj, steps, metaspace).no_added_in(s),
    ensures
        ({
            let m = sp_tables(tj, steps, metaspace);
            m.decoded(m.tokens(s)) == m.shown(m.normal_form(s))
        }),
{
    let m = sp_tables(tj, steps, metaspace);
    lemma_sp_merges_agree(tj, steps, metaspace);
    lemma_sp_text_decodes(tj, steps, metaspace, s, 0, true);
    lemma_sp_text_decodes(tj, steps, metaspace, m.normal_form(s), 0, false);
    lemma_sp_char_decodes(tj, steps, metaspace, mark());
    lemma_normal_round_trip(m, s);
}

/// A tokenizer of a SentencePiece file whose bytes all fall back, and whose
/// normalization only marks spaces and puts a mark first, gives back every valid
/// text in which no added token stands and that has no marks of its own. Where a
/// mark is put first only if none is there, a text that starts with a space is
/// left out: it gets no mark, and decoding takes its space off.
pub proof fn lemma_sp_round_trip(
    tj: TokenizerJson,
    steps: Seq<NormStep>,
    metaspace: Option<Metaspace>,
    s: Seq<u8>,
)
    requires
        clean_vocab(tj),
        plain_merges(tj),
        all_bytes_fall_back(tj),
        sp_tables(tj, steps, metaspace).only_marks(),
        sp_tables(tj, steps, metaspace).no_added_in(s),
        valid_utf8(s),
        forall|i: int| 0 <= i < s.len() ==> !#[trigger] mark_char_at(s, i),
        s.len() > 0 && steps.len() < 2 && sp_tables(tj, steps, metaspace).prepends_space() ==> s[0]
            != 0x20,
    ensures
        ({
            let m = sp_tables(tj, steps, metaspace);
            m.decoded(m.tokens(s)) == s
        }),
{
    lemma_sp_merges_agree(tj, steps, metaspace);
    lemma_sp_text_decodes(tj, steps, metaspace, s, 0, true);
    lemma_sp_char_decodes(tj, steps, metaspace, mark());
    lemma_round_trip(sp_tables(tj, steps, metaspace), s);
}

} // verus!
