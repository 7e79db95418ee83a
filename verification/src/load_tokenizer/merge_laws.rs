//! Laws: which merges of a file become rules, and which of them is made first.

use vstd::prelude::*;
use vstd::utf8::encode_utf8;

use crate::bpe::merge::{bpe_merged, lemma_merge_step, merge_at, mergeable, merges_next};
use crate::load_tokenizer::byte_level::unicode_bytes;
use crate::load_tokenizer::config::{Fault, TokenizerJson};
use crate::load_tokenizer::entries::ids_of;
use crate::load_tokenizer::hf::{
    bpe_entries, bpe_tables, merge_bytes, merge_map, merge_strings, sp_model, sp_rules, token_bytes,
};
use crate::sentencepiece::model::SpModel;
use crate::token::TokenId;

verus! {

// ---------------------------------------------------------------------------
// SentencePiece files
// ---------------------------------------------------------------------------

/// Whether the two parts and the whole of a merge have tokens.
pub open spec fn has_tokens(inv: Map<Seq<u8>, TokenId>, merge: (String, String)) -> bool {
    let (a, b) = (encode_utf8(merge.0@), encode_utf8(merge.1@));
    &&& inv.contains_key(token_bytes(a))
    &&& inv.contains_key(token_bytes(b))
    &&& inv.contains_key(token_bytes(a + b))
}

/// The tokens of the two parts of a merge.
pub open spec fn parts_of(inv: Map<Seq<u8>, TokenId>, merge: (String, String)) -> (
    TokenId,
    TokenId,
) {
    (inv[token_bytes(encode_utf8(merge.0@))], inv[token_bytes(encode_utf8(merge.1@))])
}

proof fn lemma_sp_rules_upto(
    inv: Map<Seq<u8>, TokenId>,
    merges: Seq<(String, String)>,
    n: int,
)
    requires
        0 <= n <= merges.len() <= u32::MAX,
    ensures
        forall|i: int|
            0 <= i < n && has_tokens(inv, #[trigger] merges[i]) ==> {
                let rules = sp_rules(inv, merge_strings(merges), n);
                rules.contains_key(parts_of(inv, merges[i])) && rules[parts_of(inv, merges[i])].1
                    <= i
            },
        forall|p: (TokenId, TokenId)| #[trigger]
            sp_rules(inv, merge_strings(merges), n).contains_key(p) ==> {
                let (whole, rank) = sp_rules(inv, merge_strings(merges), n)[p];
                let m = merges[rank as int];
                &&& rank < n
                &&& has_tokens(inv, m)
                &&& parts_of(inv, m) == p
                &&& whole == inv[token_bytes(encode_utf8(m.0@) + encode_utf8(m.1@))]
            },
    decreases n,
{
    if n > 0 {
        lemma_sp_rules_upto(inv, merges, n - 1);
        assert(merge_strings(merges)[n - 1] == (
            encode_utf8(merges[n - 1].0@),
            encode_utf8(merges[n - 1].1@),
        ));
        let before = sp_rules(inv, merge_strings(merges), n - 1);
        let now = sp_rules(inv, merge_strings(merges), n);
        assert forall|p: (TokenId, TokenId)| #[trigger] now.contains_key(p) implies {
            let (whole, rank) = now[p];
            let m = merges[rank as int];
            &&& rank < n
            &&& has_tokens(inv, m)
            &&& parts_of(inv, m) == p
            &&& whole == inv[token_bytes(encode_utf8(m.0@) + encode_utf8(m.1@))]
        } by {
            if before.contains_key(p) {
                assert(now[p] == before[p]);
            } else {
                assert(now[p].1 == n - 1);
            }
        }
    }
}

/// Every merge of a SentencePiece file whose parts and whole have tokens is a rule of
/// the tokenizer, as urgent as its place in the list or, where its pair is listed
/// before, more.
pub proof fn lemma_sp_merge_is_rule(tj: TokenizerJson, m: SpModel, i: int)
    requires
        sp_model(tj) == Ok::<SpModel, Fault>(m),
        tj.model.merges@.len() <= u32::MAX,
        0 <= i < tj.model.merges@.len(),
        has_tokens(m.inv, tj.model.merges@[i]),
    ensures
        m.rules.contains_key(parts_of(m.inv, tj.model.merges@[i])),
        m.rules[parts_of(m.inv, tj.model.merges@[i])].1 <= i,
{
    lemma_sp_rules_upto(m.inv, tj.model.merges@, tj.model.merges@.len() as int);
}

/// Every rule of a SentencePiece tokenizer is the merge that its file lists at the
/// rule's rank: it merges the tokens of that merge's parts into the token of its whole.
pub proof fn lemma_sp_rule_is_merge(tj: TokenizerJson, m: SpModel, p: (TokenId, TokenId))
    requires
        sp_model(tj) == Ok::<SpModel, Fault>(m),
        tj.model.merges@.len() <= u32::MAX,
        m.rules.contains_key(p),
    ensures
        ({
            let (whole, rank) = m.rules[p];
            let listed = tj.model.merges@[rank as int];
            &&& rank < tj.model.merges@.len()
            &&& has_tokens(m.inv, listed)
            &&& p == parts_of(m.inv, listed)
            &&& whole == m.inv[token_bytes(encode_utf8(listed.0@) + encode_utf8(listed.1@))]
        }),
{
    lemma_sp_rules_upto(m.inv, tj.model.merges@, tj.model.merges@.len() as int);
}

/// Of two merges of a SentencePiece file that became rules, the one that is listed
/// first is the more urgent: it has the smaller rank. A merge whose pair was listed
/// before counts from there.
pub proof fn lemma_sp_earlier_is_urgent(tj: TokenizerJson, m: SpModel, i: int, j: int)
    requires
        sp_model(tj) == Ok::<SpModel, Fault>(m),
        tj.model.merges@.len() <= u32::MAX,
        0 <= i < j < tj.model.merges@.len(),
        has_tokens(m.inv, tj.model.merges@[i]),
        has_tokens(m.inv, tj.model.merges@[j]),
        forall|k: int|
            0 <= k < j && has_tokens(m.inv, #[trigger] tj.model.merges@[k]) ==> parts_of(
                m.inv,
                tj.model.merges@[k],
            ) != parts_of(m.inv, tj.model.merges@[j]),
    ensures
        m.rules[parts_of(m.inv, tj.model.merges@[i])].1 < m.rules[parts_of(
            m.inv,
            tj.model.merges@[j],
        )].1,
{
    let merges = tj.model.merges@;
    lemma_sp_rules_upto(m.inv, merges, merges.len() as int);
    let q = parts_of(m.inv, merges[j]);
    assert(m.rules.contains_key(q));
    let r = m.rules[q].1 as int;
    if r < j {
        assert(has_tokens(m.inv, merges[r]));
    }
}

/// Whether the symbols at `at` and behind it are the parts of the merge that a file
/// lists at `i`.
pub open spec fn listed_at(tj: TokenizerJson, m: SpModel, i: int, s: Seq<TokenId>, at: int) -> bool {
    &&& 0 <= i < tj.model.merges@.len()
    &&& has_tokens(m.inv, tj.model.merges@[i])
    &&& 0 <= at
    &&& at + 1 < s.len()
    &&& (s[at], s[at + 1]) == parts_of(m.inv, tj.model.merges@[i])
}

/// The earliest listed merge of a SentencePiece file that applies is the one made
/// next, where it applies first: merging goes on with its two symbols made the token
/// of its whole.
pub proof fn lemma_sp_earliest_merge_first(
    tj: TokenizerJson,
    m: SpModel,
    s: Seq<TokenId>,
    i: int,
    at: int,
)
    requires
        sp_model(tj) == Ok::<SpModel, Fault>(m),
        tj.model.merges@.len() <= u32::MAX,
        listed_at(tj, m, i, s, at),
        forall|k: int, b: int| #[trigger] listed_at(tj, m, k, s, b) ==> i <= k,
        forall|b: int| #[trigger] listed_at(tj, m, i, s, b) ==> at <= b,
    ensures
        ({
            let merge = tj.model.merges@[i];
            let whole = m.inv[token_bytes(encode_utf8(merge.0@) + encode_utf8(merge.1@))];
            bpe_merged(m.rules, s) == bpe_merged(
                m.rules,
                s.take(at) + seq![whole] + s.skip(at + 2),
            )
        }),
{
    let merges = tj.model.merges@;
    lemma_sp_rules_upto(m.inv, merges, merges.len() as int);
    let merge = merges[i];
    let p = parts_of(m.inv, merge);
    assert(m.rules.contains_key(p));
    let r = m.rules[p].1 as int;
    assert(listed_at(tj, m, r, s, at));
    assert(r == i);
    assert(mergeable(m.rules, s, at));
    assert forall|b: int|
        #![trigger mergeable(m.rules, s, b)]
        mergeable(m.rules, s, b) implies {
        ||| m.rules[p].1 < m.rules[(s[b], s[b + 1])].1
        ||| m.rules[p].1 == m.rules[(s[b], s[b + 1])].1 && at <= b
    } by {
        let k = m.rules[(s[b], s[b + 1])].1 as int;
        assert(listed_at(tj, m, k, s, b));
        if k == i {
            assert(listed_at(tj, m, i, s, b));
        }
    }
    assert(merges_next(m.rules, s, at));
    lemma_merge_step(m.rules, s, at);
    let whole = m.inv[token_bytes(encode_utf8(merge.0@) + encode_utf8(merge.1@))];
    assert(m.rules[p].0 == whole);
    assert(merge_at(s, at, whole) =~= s.take(at) + seq![whole] + s.skip(at + 2));
}

/// Where no listed merge of a SentencePiece file applies, merging leaves all symbols
/// as they are.
pub proof fn lemma_sp_nothing_to_merge(tj: TokenizerJson, m: SpModel, s: Seq<TokenId>)
    requires
        sp_model(tj) == Ok::<SpModel, Fault>(m),
        tj.model.merges@.len() <= u32::MAX,
        forall|k: int, b: int| !#[trigger] listed_at(tj, m, k, s, b),
    ensures
        bpe_merged(m.rules, s) == s,
{
    lemma_sp_rules_upto(m.inv, tj.model.merges@, tj.model.merges@.len() as int);
    assert forall|b: int| !#[trigger] merges_next(m.rules, s, b) by {
        if mergeable(m.rules, s, b) {
            let k = m.rules[(s[b], s[b + 1])].1 as int;
            assert(listed_at(tj, m, k, s, b));
        }
    }
}

// ---------------------------------------------------------------------------
// ByteLevel files
// ---------------------------------------------------------------------------

/// The tokens of the byte strings of a ByteLevel file's vocabulary.
pub open spec fn byte_tokens(tj: TokenizerJson) -> Map<Seq<u8>, TokenId> {
    ids_of(bpe_entries(tj.model.vocab@))
}

/// Whether the two parts and the whole of a ByteLevel merge have tokens.
pub open spec fn bytes_have_tokens(inv: Map<Seq<u8>, TokenId>, merge: (String, String)) -> bool {
    let (a, b) = (unicode_bytes(merge.0@), unicode_bytes(merge.1@));
    inv.contains_key(a) && inv.contains_key(b) && inv.contains_key(a + b)
}

/// The tokens of the two parts of a ByteLevel merge.
pub open spec fn byte_parts(inv: Map<Seq<u8>, TokenId>, merge: (String, String)) -> (
    TokenId,
    TokenId,
) {
    (inv[unicode_bytes(merge.0@)], inv[unicode_bytes(merge.1@)])
}

/// Whether the merge at `k` of a list is the first with tokens for its pair.
pub open spec fn first_of_pair(
    inv: Map<Seq<u8>, TokenId>,
    merges: Seq<(String, String)>,
    k: int,
) -> bool {
    &&& bytes_have_tokens(inv, merges[k])
    &&& forall|h: int|
        0 <= h < k && bytes_have_tokens(inv, #[trigger] merges[h]) ==> byte_parts(inv, merges[h])
            != byte_parts(inv, merges[k])
}

proof fn lemma_merge_map_upto(
    inv: Map<Seq<u8>, TokenId>,
    merges: Seq<(String, String)>,
    n: int,
)
    requires
        0 <= n <= merges.len(),
    ensures
        forall|i: int|
            0 <= i < n && bytes_have_tokens(inv, #[trigger] merges[i]) ==> merge_map(
                inv,
                merge_bytes(merges),
                n,
            ).contains_key(byte_parts(inv, merges[i])),
        forall|i: int|
            0 <= i < n && first_of_pair(inv, merges, i) ==> merge_map(inv, merge_bytes(merges), n)[
            byte_parts(inv, #[trigger] merges[i])] == inv[unicode_bytes(merges[i].0@)
                + unicode_bytes(merges[i].1@)],
        forall|p: (TokenId, TokenId)| #[trigger]
            merge_map(inv, merge_bytes(merges), n).contains_key(p) ==> exists|i: int|
                0 <= i < n && first_of_pair(inv, merges, i) && byte_parts(
                    inv,
                    #[trigger] merges[i],
                ) == p,
    decreases n,
{
    if n > 0 {
        lemma_merge_map_upto(inv, merges, n - 1);
        let before = merge_map(inv, merge_bytes(merges), n - 1);
        let now = merge_map(inv, merge_bytes(merges), n);
        let m = merges[n - 1];
        assert(merge_bytes(merges)[n - 1] == (unicode_bytes(m.0@), unicode_bytes(m.1@)));
        let q = byte_parts(inv, m);
        if bytes_have_tokens(inv, m) && !before.contains_key(q) {
            assert(first_of_pair(inv, merges, n - 1));
        }
        assert forall|i: int| 0 <= i < n && first_of_pair(inv, merges, i) implies now[byte_parts(
            inv,
            #[trigger] merges[i],
        )] == inv[unicode_bytes(merges[i].0@) + unicode_bytes(merges[i].1@)] by {
            if i == n - 1 {
                if before.contains_key(q) {
                    let h = choose|h: int|
                        0 <= h < n - 1 && first_of_pair(inv, merges, h) && byte_parts(
                            inv,
                            #[trigger] merges[h],
                        ) == q;
                    assert(bytes_have_tokens(inv, merges[h]));
                }
            } else {
                assert(before.contains_key(byte_parts(inv, merges[i])));
            }
        }
        assert forall|p: (TokenId, TokenId)| #[trigger] now.contains_key(p) implies exists|i: int|
            0 <= i < n && first_of_pair(inv, merges, i) && byte_parts(inv, #[trigger] merges[i])
                == p by {
            if before.contains_key(p) {
                let i = choose|i: int|
                    0 <= i < n - 1 && first_of_pair(inv, merges, i) && byte_parts(
                        inv,
                        #[trigger] merges[i],
                    ) == p;
                assert(byte_parts(inv, merges[i]) == p);
            } else {
                assert(byte_parts(inv, merges[n - 1]) == p);
            }
        }
    }
}

/// Every merge of a ByteLevel file whose two parts and whole have tokens is in the
/// table, and one that is the first for its pair of tokens yields the token of its
/// whole.
pub proof fn lemma_bpe_merge_is_kept(tj: TokenizerJson, i: int)
    requires
        0 <= i < tj.model.merges@.len(),
        bytes_have_tokens(byte_tokens(tj), tj.model.merges@[i]),
    ensures
        ({
            let merge = tj.model.merges@[i];
            let p = byte_parts(byte_tokens(tj), merge);
            &&& bpe_tables(tj).merges.contains_key(p)
            &&& first_of_pair(byte_tokens(tj), tj.model.merges@, i) ==> bpe_tables(tj).merges[p]
                == byte_tokens(tj)[unicode_bytes(merge.0@) + unicode_bytes(merge.1@)]
        }),
{
    lemma_merge_map_upto(byte_tokens(tj), tj.model.merges@, tj.model.merges@.len() as int);
    assert(merge_bytes(tj.model.merges@).len() == tj.model.merges@.len());
    assert(byte_parts(byte_tokens(tj), tj.model.merges@[i]) == byte_parts(
        byte_tokens(tj),
        tj.model.merges@[i],
    ));
}

/// Every pair of a ByteLevel table is that of a merge that the file lists, and yields
/// the token of its whole.
pub proof fn lemma_bpe_merge_is_listed(tj: TokenizerJson, p: (TokenId, TokenId)) -> (i: int)
    requires
        bpe_tables(tj).merges.contains_key(p),
    ensures
        0 <= i < tj.model.merges@.len(),
        bytes_have_tokens(byte_tokens(tj), tj.model.merges@[i]),
        p == byte_parts(byte_tokens(tj), tj.model.merges@[i]),
        bpe_tables(tj).merges[p] == byte_tokens(tj)[unicode_bytes(tj.model.merges@[i].0@)
            + unicode_bytes(tj.model.merges@[i].1@)],
{
    let merges = tj.model.merges@;
    lemma_merge_map_upto(byte_tokens(tj), merges, merges.len() as int);
    let i = choose|i: int|
        0 <= i < merges.len() && first_of_pair(byte_tokens(tj), merges, i) && byte_parts(
            byte_tokens(tj),
            #[trigger] merges[i],
        ) == p;
    assert(byte_parts(byte_tokens(tj), merges[i]) == p);
    i
}

} // verus!
