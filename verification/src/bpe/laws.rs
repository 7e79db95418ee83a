//! Laws: what tokenizers of one encoding have in common, and what flat ids are.

use vstd::prelude::*;

use crate::bpe::model::{joined, lemma_joined_concat, lemma_joined_one};
use crate::bpe::tiktoken::{raw_ids, Encoding, Tokenizer};
use crate::token::TokenId;

verus! {

/// A tokenizer and its fork, or any other of the same encoding, give every text the
/// same tokens, piece by piece, whatever either has encoded before, and have the same
/// vocabulary, merges, added tokens, scheme and normalization.
pub proof fn lemma_forks_agree(t: Tokenizer, w: Tokenizer, s: Seq<u8>)
    requires
        w.encoding() == t.encoding(),
    ensures
        w.encoding().pieces(s) == t.encoding().pieces(s),
        w.encoding().tokens(s) == t.encoding().tokens(s),
        w.encoding().model.vocab == t.encoding().model.vocab,
        w.encoding().model.merges == t.encoding().model.merges,
        w.encoding().added == t.encoding().added,
        w.encoding().scheme == t.encoding().scheme,
        w.encoding().nfc == t.encoding().nfc,
{
}

/// The raw ids of pieces.
pub open spec fn piece_ids(pieces: Seq<Seq<TokenId>>) -> Seq<Seq<u32>> {
    pieces.map_values(|p: Seq<TokenId>| raw_ids(p))
}

/// The raw ids of joined pieces are those of each piece, one after the other.
proof fn lemma_joined_ids(pieces: Seq<Seq<TokenId>>)
    ensures
        raw_ids(joined(pieces)) == piece_ids(pieces).flatten(),
    decreases pieces.len(),
{
    if pieces.len() == 0 {
        assert(raw_ids(joined(pieces)) =~= piece_ids(pieces).flatten());
    } else {
        lemma_joined_ids(pieces.drop_first());
        assert(piece_ids(pieces).drop_first() =~= piece_ids(pieces.drop_first()));
        assert(piece_ids(pieces).first() == raw_ids(pieces[0]));
        assert(pieces =~= seq![pieces[0]] + pieces.drop_first());
        lemma_joined_concat(seq![pieces[0]], pieces.drop_first());
        lemma_joined_one(pieces[0]);
        assert(raw_ids(joined(pieces)) =~= raw_ids(pieces[0]) + raw_ids(
            joined(pieces.drop_first()),
        ));
    }
}

/// The flat ids of a text are those of its pieces: the same ids in the same order.
pub proof fn lemma_flat_is_pieces(e: Encoding, s: Seq<u8>)
    ensures
        raw_ids(e.tokens(s)) == piece_ids(e.pieces(s)).flatten(),
{
    lemma_joined_ids(e.pieces(s));
}

} // verus!
