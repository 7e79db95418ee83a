//! Laws: what the tables of a ByteLevel file say of its strings.

use vstd::prelude::*;

use crate::bpe::merge::rules_by_id;
use crate::bpe::remap::{byte_table, identity_table, lacks_byte, lemma_byte_token, utf8_byte};
use crate::bpe::round_trip::lemma_tokenizer_round_trip;
use crate::bpe::tiktoken::{Encoding, Tokenizer};
use crate::bpe::vocab::decoded;
use crate::load_tokenizer::config::{Fault, TokenizerJson};
use crate::load_tokenizer::entries::{
    ids_distinct, ids_of, lemma_ids_of, lemma_placed_at_id, lemma_placed_len, lemma_places,
    lemma_with_added_keeps, placed, places,
};
use crate::load_tokenizer::hf::{
    added_entries, bpe_encoding, bpe_entries, bpe_tables, first_lacking, merge_bytes, merge_map,
};
use crate::pretokenize::options::PretokenizerType;
use crate::token::TokenId;

verus! {

/// Whether no id occurs twice in the vocabulary of a ByteLevel file, and no string
/// of it is empty.
pub open spec fn clean_bpe_vocab(tj: TokenizerJson) -> bool {
    let entries = bpe_entries(tj.model.vocab@);
    &&& ids_distinct(entries)
    &&& forall|i: int| 0 <= i < entries.len() ==> (#[trigger] entries[i]).0.len() > 0
}

/// A byte string of a ByteLevel file stands at its id.
proof fn lemma_bpe_entry(tj: TokenizerJson, p: Seq<u8>)
    requires
        clean_bpe_vocab(tj),
        ids_of(bpe_entries(tj.model.vocab@)).contains_key(p),
    ensures
        ({
            let id = ids_of(bpe_entries(tj.model.vocab@))[p].0 as int;
            id < bpe_tables(tj).vocab.len() && bpe_tables(tj).vocab[id] == p
        }),
{
    let entries = bpe_entries(tj.model.vocab@);
    let n = places(entries);
    lemma_ids_of(entries, p);
    let i = choose|i: int|
        0 <= i < entries.len() && #[trigger] entries[i] == (p, ids_of(entries)[p].0);
    assert(entries[i] == (p, ids_of(entries)[p].0));
    assert(entries[i].0.len() > 0);
    assert forall|k: int| 0 <= k < entries.len() implies (#[trigger] entries[k]).1 < n by {
        lemma_places(entries, k);
    }
    lemma_placed_at_id(entries, n, i);
    lemma_placed_len(entries, n);
    lemma_with_added_keeps(
        placed(entries, n),
        added_entries(tj.added_tokens@),
        entries[i].1 as int,
    );
}

/// A merge of the map comes from a merge of the list.
proof fn lemma_merge_source(
    inv: Map<Seq<u8>, TokenId>,
    merges: Seq<(Seq<u8>, Seq<u8>)>,
    n: int,
    p: (TokenId, TokenId),
)
    requires
        0 <= n <= merges.len(),
        merge_map(inv, merges, n).contains_key(p),
    ensures
        exists|k: int|
            0 <= k < n && inv.contains_key((#[trigger] merges[k]).0) && inv.contains_key(
                merges[k].1,
            ) && inv.contains_key(merges[k].0 + merges[k].1) && p == (
                inv[merges[k].0],
                inv[merges[k].1],
            ) && merge_map(inv, merges, n)[p] == inv[merges[k].0 + merges[k].1],
    decreases n,
{
    let before = merge_map(inv, merges, n - 1);
    if before.contains_key(p) {
        lemma_merge_source(inv, merges, n - 1, p);
        assert(merge_map(inv, merges, n)[p] == before[p]);
    } else {
        assert(merges[n - 1] == merges[n - 1]);
    }
}

/// Each merge of a ByteLevel file yields the token whose bytes are those of its
/// parts.
pub proof fn lemma_bpe_merges_agree(tj: TokenizerJson)
    requires
        clean_bpe_vocab(tj),
    ensures
        bpe_tables(tj).merges_agree(),
{
    let m = bpe_tables(tj);
    let inv = ids_of(bpe_entries(tj.model.vocab@));
    let merges = merge_bytes(tj.model.merges@);
    let n = merges.len() as int;
    let rules = rules_by_id(m.merges);
    assert forall|p: (TokenId, TokenId)| #[trigger] m.merges.contains_key(p) implies m.merges[p].0
        < m.vocab.len() && m.vocab[m.merges[p].0 as int] == m.vocab[p.0.0 as int]
        + m.vocab[p.1.0 as int] by {
        lemma_merge_source(inv, merges, n, p);
        let k = choose|k: int|
            0 <= k < n && inv.contains_key((#[trigger] merges[k]).0) && inv.contains_key(
                merges[k].1,
            ) && inv.contains_key(merges[k].0 + merges[k].1) && p == (
                inv[merges[k].0],
                inv[merges[k].1],
            ) && m.merges[p] == inv[merges[k].0 + merges[k].1];
        lemma_bpe_entry(tj, merges[k].0);
        lemma_bpe_entry(tj, merges[k].1);
        lemma_bpe_entry(tj, merges[k].0 + merges[k].1);
    }
    assert forall|p: (TokenId, TokenId)| #[trigger]
        rules.contains_key(p) implies m.vocab[rules[p].0.0 as int] == m.vocab[p.0.0 as int]
        + m.vocab[p.1.0 as int] by {
        assert(m.merges.contains_key(p));
    }
}

/// A byte that a file's tables have a token for decodes to itself.
proof fn lemma_bpe_byte_decodes(tj: TokenizerJson, b: u8)
    requires
        bpe_tables(tj).vocab.len() <= u32::MAX,
        first_lacking(bpe_tables(tj).vocab, 0) is None,
        utf8_byte(b),
    ensures
        bpe_tables(tj).byte_decodes(b),
{
    let m = bpe_tables(tj);
    lemma_lacking_none(m.vocab, 0, b);
    lemma_byte_token(m.vocab, b);
    assert(byte_table(m.vocab)[b as int] == m.byte_id(b)) by {
        if byte_table(m.vocab) == identity_table() {
            assert(identity_table()[b as int] == TokenId(b as u32));
        }
    }
}

proof fn lemma_lacking_none(vocab: Seq<Seq<u8>>, b: int, x: u8)
    requires
        0 <= b <= x,
        first_lacking(vocab, b) is None,
    ensures
        !lacks_byte(vocab, x),
    decreases x - b,
{
    if b < x {
        lemma_lacking_none(vocab, b + 1, x);
    }
}

/// A tokenizer of a ByteLevel file of the GPT-2 scheme without normalization gives
/// back every text of bytes that can appear in valid UTF-8, where each added token's
/// id stands for its content.
pub proof fn lemma_bpe_round_trip(tj: TokenizerJson, t: Tokenizer, s: Seq<u8>)
    requires
        clean_bpe_vocab(tj),
        t.wf(),
        bpe_encoding(tj) == Ok::<Encoding, Fault>(t.encoding()),
        t.encoding().scheme == PretokenizerType::GPT2,
        t.encoding().added_decode(),
        !t.encoding().nfc,
        forall|i: int| 0 <= i < s.len() ==> utf8_byte(#[trigger] s[i]),
    ensures
        decoded(t.encoding().model.vocab, t.encoding().tokens(s)) == s,
{
    t.lemma_wf();
    lemma_bpe_merges_agree(tj);
    assert forall|i: int| 0 <= i < s.len() implies t.encoding().model.byte_decodes(
        #[trigger] s[i],
    ) by {
        lemma_bpe_byte_decodes(tj, s[i]);
    }
    lemma_tokenizer_round_trip(t, s);
}

} // verus!
