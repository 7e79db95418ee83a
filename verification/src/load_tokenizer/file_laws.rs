//! Laws: what the tokenizer of a file holds of each entry of the file.

use vstd::prelude::*;
use vstd::utf8::encode_utf8;

use crate::bpe::encoding_laws::{first_listed, lemma_listed_is_matched};
use crate::bpe::model::vocab_inverse;
use crate::bpe::tiktoken::Encoding;
use crate::load_tokenizer::byte_level::unicode_bytes;
use crate::load_tokenizer::config::{Fault, TokenizerJson};
use crate::load_tokenizer::entries::{
    lemma_placed_len, lemma_places, placed, places, with_added, Entries,
};
use crate::load_tokenizer::hf::{
    added_entries, bpe_encoding, bpe_entries, file_added, picked, sp_entries, sp_model, token_bytes,
    vocab_strings,
};
use crate::load_tokenizer::laws::{clean_vocab, lemma_sp_ids_kept};
use crate::load_tokenizer::normalizer::{nfc_normalizer, pretokenizer_scheme, sp_metaspace};
use crate::load_tokenizer::vocab_laws::{lemma_added_at_ids, lemma_entries_at_ids};
use crate::pretokenize::options::PretokenizerType;
use crate::sentencepiece::model::SpModel;
use crate::token::TokenId;

verus! {

/// Whether entry `i` is the last of a file's vocabulary with its id.
pub open spec fn last_with_id(tj: TokenizerJson, i: int) -> bool {
    let vocab = tj.model.vocab@;
    &&& 0 <= i < vocab.len()
    &&& forall|j: int| i < j < vocab.len() ==> (#[trigger] vocab[j]).1 != vocab[i].1
}

/// Whether no entry of a file's vocabulary has an id.
pub open spec fn id_unused(tj: TokenizerJson, id: u32) -> bool {
    forall|j: int| 0 <= j < tj.model.vocab@.len() ==> (#[trigger] tj.model.vocab@[j]).1 != id
}

/// Whether added token `k` of a file has content and is the first such with its id.
pub open spec fn first_added_with_id(tj: TokenizerJson, k: int) -> bool {
    let added = tj.added_tokens@;
    &&& 0 <= k < added.len()
    &&& encode_utf8(added[k].content@).len() > 0
    &&& forall|j: int|
        0 <= j < k && (#[trigger] added[j]).id == added[k].id ==> encode_utf8(
            added[j].content@,
        ).len() == 0
}

/// The vocabulary of a ByteLevel file: a string that is the last with its id stands, as
/// the bytes that it writes, at that id; an added token whose id no string has stands
/// there with its content.
pub proof fn lemma_bpe_file_vocab(tj: TokenizerJson, e: Encoding, i: int, k: int)
    requires
        bpe_encoding(tj) == Ok::<Encoding, Fault>(e),
    ensures
        last_with_id(tj, i) && unicode_bytes(tj.model.vocab@[i].0@).len() > 0 ==> {
            let (name, id) = tj.model.vocab@[i];
            id < e.model.vocab.len() && e.model.vocab[id as int] == unicode_bytes(name@)
        },
        first_added_with_id(tj, k) && id_unused(tj, tj.added_tokens@[k].id) ==> {
            let t = tj.added_tokens@[k];
            t.id < e.model.vocab.len() && e.model.vocab[t.id as int] == encode_utf8(t.content@)
        },
        e.model.inv == vocab_inverse(e.model.vocab, e.model.vocab.len() as int),
{
    let entries = bpe_entries(tj.model.vocab@);
    let n = places(entries);
    let vocab = placed(entries, n);
    let added = added_entries(tj.added_tokens@);
    if last_with_id(tj, i) {
        let id = tj.model.vocab@[i].1 as int;
        assert(entries[i].1 == id);
        lemma_places(entries, i);
        lemma_entries_at_ids(entries, id);
        assert forall|j: int| i < j < entries.len() implies (#[trigger] entries[j]).1 != id by {
            assert(tj.model.vocab@[j].1 != id);
        }
        lemma_added_at_ids(vocab, added, id);
    }
    if first_added_with_id(tj, k) && id_unused(tj, tj.added_tokens@[k].id) {
        let id = tj.added_tokens@[k].id as int;
        assert forall|j: int| 0 <= j < entries.len() implies (#[trigger] entries[j]).1 != id by {
            assert(tj.model.vocab@[j].1 != id);
        }
        lemma_unused_id(tj, entries, added, k);
    }
}

proof fn lemma_some_place(entries: Entries)
    ensures
        places(entries) >= 1,
    decreases entries.len(),
{
    if entries.len() > 0 {
        lemma_some_place(entries.drop_last());
    }
}

/// An added token stands at an id that no entry has.
proof fn lemma_unused_id(tj: TokenizerJson, entries: Entries, added: Entries, k: int)
    requires
        added == added_entries(tj.added_tokens@),
        first_added_with_id(tj, k),
        forall|j: int|
            0 <= j < entries.len() ==> (#[trigger] entries[j]).1 != tj.added_tokens@[k].id,
    ensures
        ({
            let v = with_added(
                placed(entries, places(entries)),
                added,
            );
            let t = tj.added_tokens@[k];
            t.id < v.len() && v[t.id as int] == encode_utf8(t.content@)
        }),
{
    let id = tj.added_tokens@[k].id as int;
    let n = places(entries);
    let vocab = placed(entries, n);
    if id < n {
        lemma_entries_at_ids(entries, id);
    } else {
        assert forall|j: int| 0 <= j < entries.len() implies (#[trigger] entries[j]).1 < n by {
            lemma_places(entries, j);
        }
        lemma_some_place(entries);
        lemma_placed_len(entries, n);
    }
    lemma_added_at_ids(vocab, added, id);
    assert(added[k] == (encode_utf8(tj.added_tokens@[k].content@), tj.added_tokens@[k].id));
    assert forall|j: int| 0 <= j < k && (#[trigger] added[j]).1 == id implies added[j].0.len()
        == 0 by {
        assert(tj.added_tokens@[j].id == id);
    }
}

/// What a ByteLevel file says beside its vocabulary: each added token with content is
/// matched, the first of those with one content; the pre-tokenizer decides the scheme,
/// and the normalizer whether texts are put in NFC.
pub proof fn lemma_bpe_file_settings(tj: TokenizerJson, e: Encoding, k: int)
    requires
        bpe_encoding(tj) == Ok::<Encoding, Fault>(e),
    ensures
        pretokenizer_scheme(tj.pre_tokenizer) == Ok::<PretokenizerType, Fault>(e.scheme),
        nfc_normalizer(tj.normalizer) == Ok::<bool, Fault>(e.nfc),
        ({
            let added = tj.added_tokens@;
            0 <= k < added.len() && encode_utf8(added[k].content@).len() > 0 && (forall|j: int|
                0 <= j < k ==> encode_utf8((#[trigger] added[j]).content@) != encode_utf8(
                    added[k].content@,
                )) ==> first_listed(
                e.added,
                encode_utf8(added[k].content@),
                TokenId(added[k].id),
            )
        }),
{
    let added = tj.added_tokens@;
    let list = file_added(tj);
    if 0 <= k < added.len() && encode_utf8(added[k].content@).len() > 0 && (forall|j: int|
        0 <= j < k ==> encode_utf8((#[trigger] added[j]).content@) != encode_utf8(
            added[k].content@,
        )) {
        let c = encode_utf8(added[k].content@);
        assert(list[k] == (c, TokenId(added[k].id)));
        assert forall|j: int| 0 <= j < k implies (#[trigger] list[j]).0 != c by {
            assert(encode_utf8(added[j].content@) != c);
        }
        assert(first_listed(list, c, TokenId(added[k].id)));
        lemma_listed_is_matched(list, c, TokenId(added[k].id));
    }
}

/// The vocabulary of a SentencePiece file: where no id occurs twice and no string is
/// empty, each string stands, as the bytes that it names, at its id; an added token
/// whose id no string has stands there with its content. The pre-tokenizer decides
/// whether there is a Metaspace.
pub proof fn lemma_sp_file_vocab(tj: TokenizerJson, m: SpModel, i: int, k: int)
    requires
        sp_model(tj) == Ok::<SpModel, Fault>(m),
    ensures
        0 <= i < tj.model.vocab@.len() && clean_vocab(tj) ==> {
            let (name, id) = tj.model.vocab@[i];
            id < m.vocab.len() && m.vocab[id as int] == token_bytes(encode_utf8(name@))
        },
        first_added_with_id(tj, k) && id_unused(tj, tj.added_tokens@[k].id) ==> {
            let t = tj.added_tokens@[k];
            t.id < m.vocab.len() && m.vocab[t.id as int] == encode_utf8(t.content@)
        },
        sp_metaspace(tj.pre_tokenizer) == Ok::<_, Fault>(m.metaspace),
{
    let strings = vocab_strings(tj.model.vocab@);
    if 0 <= i < tj.model.vocab@.len() && clean_vocab(tj) {
        lemma_sp_ids_kept(tj, m.steps, m.metaspace, i);
    }
    if first_added_with_id(tj, k) && id_unused(tj, tj.added_tokens@[k].id) {
        let id = tj.added_tokens@[k].id;
        let entries = sp_entries(strings);
        assert forall|j: int| 0 <= j < entries.len() implies (#[trigger] entries[j]).1 != id by {
            if j < picked(strings, true).len() {
                lemma_picked_unused(strings, true, j, id);
            } else {
                lemma_picked_unused(strings, false, j - picked(strings, true).len(), id);
            }
        }
        lemma_unused_id(tj, entries, added_entries(tj.added_tokens@), k);
    }
}

proof fn lemma_picked_unused(entries: Entries, fallback: bool, j: int, id: u32)
    requires
        0 <= j < picked(entries, fallback).len(),
        forall|i: int| 0 <= i < entries.len() ==> (#[trigger] entries[i]).1 != id,
    ensures
        picked(entries, fallback)[j].1 != id,
    decreases entries.len(),
{
    let init = entries.drop_last();
    let n = picked(init, fallback).len();
    if j < n {
        assert forall|i: int| 0 <= i < init.len() implies (#[trigger] init[i]).1 != id by {
            assert(init[i] == entries[i]);
        }
        lemma_picked_unused(init, fallback, j, id);
    } else {
        assert(entries[entries.len() - 1].1 != id);
    }
}

} // verus!
