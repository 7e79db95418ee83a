//! Laws: what decoding gives back of an encoded text.

use vstd::prelude::*;
use vstd::utf8::{encode_utf8, encode_utf8_decode_utf8};

use crate::bpe::added::{
    first_added, lemma_by_descending_len, lemma_by_descending_len_from, lemma_first_added,
    lemma_winner, matching_order, next_added, winner,
};
use crate::bpe::model::{
    joined, lemma_joined_concat, lemma_joined_one, lemma_rank_merges_keep_bytes,
    lemma_vocab_inverse, ranks_mergeable, vocab_inverse, ModelView,
};
use crate::bpe::remap::{byte_table, identity_table, lacks_byte, lemma_byte_token, utf8_byte};
use crate::bpe::tiktoken::{plain_encoding, ranked_model, Encoding, Tokenizer};
use crate::bpe::vocab::{decoded, in_vocab, lemma_decoded_concat, lemma_decoded_one};
use crate::load_tokenizer::tiktoken::{end_of_text, with_special};
use crate::pretokenize::gpt2::{lemma_pretokens_partition, pretokens};
use crate::pretokenize::options::PretokenizerType;
use crate::seqs::occurs_at;
use crate::text::nfc_bytes;
use crate::token::TokenId;

verus! {

impl Encoding {
    /// A segment as it is pretokenized.
    pub open spec fn normal_segment(self, seg: Seq<u8>) -> Seq<u8> {
        if self.nfc {
            nfc_bytes(seg)
        } else {
            seg
        }
    }

    /// The text from `from` on with each segment between added tokens as it is
    /// pretokenized.
    pub open spec fn normalized_from(self, s: Seq<u8>, from: int) -> Seq<u8>
        decreases s.len() - from,
    {
        if from < 0 || from >= s.len() {
            Seq::empty()
        } else {
            match next_added(self.added, s, from) {
                None => self.normal_segment(s.skip(from)),
                Some((start, end, id)) => if from <= start < end <= s.len() {
                    self.normal_segment(s.subrange(from, start)) + s.subrange(start, end)
                        + self.normalized_from(s, end)
                } else {
                    Seq::empty()
                },
            }
        }
    }

    /// Whether each added token's id stands for its content.
    pub open spec fn added_decode(self) -> bool {
        forall|k: int|
            0 <= k < self.added.len() ==> (#[trigger] self.added[k]).1.0 < self.model.vocab.len()
                && self.model.vocab[self.added[k].1.0 as int] == self.added[k].0
    }

    /// Whether each added token's id stands for its content, and the list is
    /// in matching order.
    pub open spec fn added_consistent(self) -> bool {
        matching_order(self.added) && self.added_decode()
    }
}

/// What the next added token says of the text.
proof fn lemma_next_added(e: Encoding, s: Seq<u8>, from: int)
    requires
        0 <= from < s.len(),
        matching_order(e.added),
    ensures
        match next_added(e.added, s, from) {
            Some((start, end, id)) => from <= start < end <= s.len() && exists|k: int|
                0 <= k < e.added.len() && #[trigger] e.added[k] == (s.subrange(start, end), id),
            None => true,
        },
{
    lemma_first_added(e.added, s, from);
    match first_added(e.added, s, from) {
        Some(at) => {
            lemma_winner(e.added, s, at);
            let w = winner(e.added, s, at);
            assert(occurs_at(s, e.added[w].0, at));
            assert(e.added[w].0.len() > 0);
            assert(s.subrange(at, at + e.added[w].0.len()) =~= e.added[w].0);
        },
        None => {},
    }
}

proof fn lemma_pieces_round_trip(m: ModelView, ps: Seq<Seq<u8>>)
    requires
        m.consistent(),
        m.bytes_decode(ps.flatten()),
        forall|i: int| 0 <= i < ps.len() ==> (#[trigger] ps[i]).len() > 0,
    ensures
        in_vocab(m.vocab, m.tokens_of(ps)),
        decoded(m.vocab, m.tokens_of(ps)) == ps.flatten(),
    decreases ps.len(),
{
    if ps.len() > 0 {
        let p = ps[0];
        let rest = ps.drop_first();
        let whole = ps.flatten();
        assert(whole == p + rest.flatten());
        assert forall|i: int| 0 <= i < rest.flatten().len() implies m.byte_decodes(
            #[trigger] rest.flatten()[i],
        ) by {
            assert(whole[p.len() + i] == rest.flatten()[i]);
        }
        assert forall|i: int| 0 <= i < p.len() implies m.byte_decodes(#[trigger] p[i]) by {
            assert(whole[i] == p[i]);
        }
        assert forall|i: int| 0 <= i < rest.len() implies (#[trigger] rest[i]).len() > 0 by {
            assert(rest[i] == ps[i + 1]);
        }
        lemma_pieces_round_trip(m, rest);
        m.lemma_pretoken_round_trip(p);
        assert(ps =~= seq![p] + rest);
        m.lemma_tokens_concat(seq![p], rest);
        m.lemma_tokens_one(p);
        lemma_decoded_concat(m.vocab, m.pretoken_tokens(p), m.tokens_of(rest));
    } else {
        assert(m.pieces_of(ps) =~= Seq::<Seq<TokenId>>::empty());
    }
}

proof fn lemma_segment_round_trip(e: Encoding, seg: Seq<u8>)
    requires
        e.scheme == PretokenizerType::GPT2,
        e.model.consistent(),
        e.model.bytes_decode(e.normal_segment(seg)),
    ensures
        in_vocab(e.model.vocab, joined(e.segment_pieces(seg))),
        decoded(e.model.vocab, joined(e.segment_pieces(seg))) == e.normal_segment(seg),
{
    let n = e.normal_segment(seg);
    lemma_pretokens_partition(n);
    lemma_pieces_round_trip(e.model, pretokens(n));
}

proof fn lemma_round_trip_from(e: Encoding, s: Seq<u8>, from: int)
    requires
        e.scheme == PretokenizerType::GPT2,
        0 <= from <= s.len(),
        e.model.consistent(),
        e.added_consistent(),
        e.model.bytes_decode(e.normalized_from(s, from)),
    ensures
        in_vocab(e.model.vocab, joined(e.pieces_from(s, from))),
        decoded(e.model.vocab, joined(e.pieces_from(s, from))) == e.normalized_from(s, from),
    decreases s.len() - from,
{
    let v = e.model.vocab;
    if from < s.len() {
        lemma_next_added(e, s, from);
        let whole = e.normalized_from(s, from);
        match next_added(e.added, s, from) {
            None => lemma_segment_round_trip(e, s.skip(from)),
            Some((start, end, id)) => {
                let k = choose|k: int|
                    0 <= k < e.added.len() && #[trigger] e.added[k] == (s.subrange(start, end), id);
                assert(e.added[k] == (s.subrange(start, end), id));
                let seg = e.normal_segment(s.subrange(from, start));
                let mid = s.subrange(start, end);
                let rest = e.normalized_from(s, end);
                assert(whole == seg + mid + rest);
                assert forall|i: int| 0 <= i < seg.len() implies e.model.byte_decodes(
                    #[trigger] seg[i],
                ) by {
                    assert(e.model.byte_decodes(whole[i]));
                }
                assert forall|i: int| 0 <= i < rest.len() implies e.model.byte_decodes(
                    #[trigger] rest[i],
                ) by {
                    assert(whole[seg.len() + mid.len() + i] == rest[i]);
                }
                lemma_segment_round_trip(e, s.subrange(from, start));
                lemma_round_trip_from(e, s, end);
                let a = e.segment_pieces(s.subrange(from, start));
                let b = seq![seq![id]];
                let c = e.pieces_from(s, end);
                lemma_joined_concat(a + b, c);
                lemma_joined_concat(a, b);
                lemma_joined_one(seq![id]);
                lemma_decoded_concat(v, joined(a) + seq![id], joined(c));
                lemma_decoded_concat(v, joined(a), seq![id]);
                lemma_decoded_one(v, id);
            },
        }
    }
}

/// Decoding what a text was encoded to gives the text back, with the segments
/// between added tokens normalized as the tokenizer normalizes them. This holds
/// where the tables agree and each byte of the normalized text has a token.
pub proof fn lemma_round_trip(e: Encoding, s: Seq<u8>)
    requires
        e.scheme == PretokenizerType::GPT2,
        e.model.consistent(),
        e.added_consistent(),
        e.model.bytes_decode(e.normalized_from(s, 0)),
    ensures
        in_vocab(e.model.vocab, e.tokens(s)),
        decoded(e.model.vocab, e.tokens(s)) == e.normalized_from(s, 0),
{
    lemma_round_trip_from(e, s, 0);
}

proof fn lemma_unnormalized_from(e: Encoding, s: Seq<u8>, from: int)
    requires
        0 <= from <= s.len(),
        matching_order(e.added),
        !e.nfc,
    ensures
        e.normalized_from(s, from) == s.skip(from),
    decreases s.len() - from,
{
    if from < s.len() {
        lemma_next_added(e, s, from);
        match next_added(e.added, s, from) {
            None => {},
            Some((start, end, id)) => {
                lemma_unnormalized_from(e, s, end);
                assert(s.subrange(from, start) + s.subrange(start, end) + s.skip(end)
                    =~= s.skip(from));
            },
        }
    } else {
        assert(s.skip(from) =~= Seq::<u8>::empty());
    }
}

/// Without normalization decoding gives back the very text.
pub proof fn lemma_exact_round_trip(e: Encoding, s: Seq<u8>)
    requires
        e.scheme == PretokenizerType::GPT2,
        e.model.consistent(),
        e.added_consistent(),
        !e.nfc,
        e.model.bytes_decode(s),
    ensures
        in_vocab(e.model.vocab, e.tokens(s)),
        decoded(e.model.vocab, e.tokens(s)) == s,
{
    lemma_unnormalized_from(e, s, 0);
    assert(s.skip(0) =~= s);
    lemma_round_trip(e, s);
}

/// Every tokenizer of the GPT-2 scheme without normalization gives back the very
/// text, where each merge yields the token of the pair's bytes, each added token's id
/// stands for its content, and each byte of the text has a token.
pub proof fn lemma_tokenizer_round_trip(t: Tokenizer, s: Seq<u8>)
    requires
        t.wf(),
        t.encoding().scheme == PretokenizerType::GPT2,
        t.encoding().model.merges_agree(),
        t.encoding().added_decode(),
        !t.encoding().nfc,
        t.encoding().model.bytes_decode(s),
    ensures
        decoded(t.encoding().model.vocab, t.encoding().tokens(s)) == s,
{
    t.lemma_wf();
    lemma_exact_round_trip(t.encoding(), s);
}

/// The tables of a vocabulary in rank order agree, and each byte that can appear in
/// valid UTF-8 has a token, where the tokens of the single bytes come first.
proof fn lemma_ranked_consistent(vocab: Seq<Seq<u8>>, s: Seq<u8>)
    requires
        vocab.len() <= u32::MAX,
        ranked_bytes_first(vocab),
        forall|i: int| 0 <= i < s.len() ==> utf8_byte(#[trigger] s[i]),
    ensures
        ranked_model(vocab).consistent(),
        ranked_model(vocab).merges_below(vocab.len() as int),
        ranked_model(vocab).bytes_decode(s),
{
    let m = ranked_model(vocab);
    lemma_rank_merges_keep_bytes(vocab, vocab.len() as int);
    assert forall|p: Seq<u8>| #[trigger] m.inv.contains_key(p) && p.len() > 0 implies m.inv[p].0
        < vocab.len() && vocab[m.inv[p].0 as int] == p by {
        lemma_vocab_inverse(vocab, vocab.len() as int, p);
    }
    assert forall|i: int| 0 <= i < s.len() implies m.byte_decodes(#[trigger] s[i]) by {
        let b = s[i];
        assert(!lacks_byte(vocab, b));
        lemma_byte_token(vocab, b);
        assert(byte_table(vocab)[b as int] == m.byte_id(b)) by {
            if byte_table(vocab) == identity_table() {
                assert(identity_table()[b as int] == TokenId(b as u32));
            }
        }
    }
}

/// Whether a vocabulary in rank order can be given merges and has a token for each
/// byte that can appear in valid UTF-8, those of the single bytes first.
pub open spec fn ranked_bytes_first(vocab: Seq<Seq<u8>>) -> bool {
    let inv = vocab_inverse(vocab, vocab.len() as int);
    &&& ranks_mergeable(vocab)
    &&& forall|b: u8| !#[trigger] lacks_byte(vocab, b)
    &&& forall|b: u8| #[trigger] inv.contains_key(seq![b]) ==> inv[seq![b]].0 < 256
}

/// A tokenizer made from ranks gives back every text of bytes that can appear
/// in valid UTF-8, where the tokens of the single bytes come first.
pub proof fn lemma_ranked_round_trip(vocab: Seq<Seq<u8>>, s: Seq<u8>)
    requires
        vocab.len() <= u32::MAX,
        ranked_bytes_first(vocab),
        forall|i: int| 0 <= i < s.len() ==> utf8_byte(#[trigger] s[i]),
    ensures
        decoded(vocab, plain_encoding(ranked_model(vocab)).tokens(s)) == s,
{
    lemma_ranked_consistent(vocab, s);
    lemma_exact_round_trip(plain_encoding(ranked_model(vocab)), s);
}

/// Registering a special token, at an id without content behind those that merge,
/// keeps all that the round trip needs.
pub proof fn lemma_special_keeps(e: Encoding, n: int, content: Seq<u8>, id: TokenId, s: Seq<u8>)
    requires
        e.model.consistent(),
        e.model.merges_below(n),
        n <= e.model.vocab.len(),
        n <= id.0,
        e.added_consistent(),
        content.len() > 0,
        e.model.unassigned(id),
        e.model.bytes_decode(s),
    ensures
        with_special(e, content, id).model.consistent(),
        with_special(e, content, id).model.merges_below(n),
        n <= with_special(e, content, id).model.vocab.len(),
        with_special(e, content, id).added_consistent(),
        with_special(e, content, id).model.bytes_decode(s),
{
    let after = with_special(e, content, id);
    let list = e.added.push((content, id));
    e.model.lemma_assigned_consistent(n, content, id);
    lemma_by_descending_len(list);
    assert forall|k: int| 0 <= k < after.added.len() implies (#[trigger] after.added[k]).1.0
        < after.model.vocab.len() && after.model.vocab[after.added[k].1.0 as int]
        == after.added[k].0 by {
        lemma_by_descending_len_from(list, k);
        let j = choose|j: int| 0 <= j < list.len() && #[trigger] list[j] == after.added[k];
        if j < e.added.len() {
            assert(list[j] == e.added[j]);
            assert(e.added[j].0.len() > 0);
        }
    }
    assert forall|i: int| 0 <= i < s.len() implies after.model.byte_decodes(#[trigger] s[i]) by {
        assert(e.model.byte_decodes(s[i]));
    }
}

/// The tokenizer of a rank file, with its end-of-text token, gives back every text
/// of bytes that can appear in valid UTF-8, where the tokens of the single bytes
/// come first.
pub proof fn lemma_tiktoken_round_trip(vocab: Seq<Seq<u8>>, s: Seq<u8>)
    requires
        vocab.len() < u32::MAX,
        ranked_bytes_first(vocab),
        forall|i: int| 0 <= i < s.len() ==> utf8_byte(#[trigger] s[i]),
    ensures
        ({
            let e = with_special(
                plain_encoding(ranked_model(vocab)),
                end_of_text(),
                TokenId(vocab.len() as u32),
            );
            decoded(e.model.vocab, e.tokens(s)) == s
        }),
{
    let plain = plain_encoding(ranked_model(vocab));
    let n = vocab.len() as int;
    lemma_ranked_consistent(vocab, s);
    reveal_strlit("<|endoftext|>");
    encode_utf8_decode_utf8("<|endoftext|>"@);
    assert(end_of_text().len() > 0) by {
        if end_of_text().len() == 0 {
            assert(end_of_text() =~= encode_utf8(Seq::empty()));
            encode_utf8_decode_utf8(Seq::empty());
        }
    }
    lemma_special_keeps(plain, n, end_of_text(), TokenId(vocab.len() as u32), s);
    lemma_exact_round_trip(
        with_special(plain, end_of_text(), TokenId(vocab.len() as u32)),
        s,
    );
}

} // verus!
