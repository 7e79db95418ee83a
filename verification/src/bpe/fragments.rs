//! Laws: encoding a document in parts is encoding it whole.

use vstd::prelude::*;
use vstd::utf8::{
    is_char_boundary_iff_not_is_continuation_byte, is_continuation_byte, length_of_first_scalar,
    pop_first_scalar, valid_first_scalar, valid_utf8, valid_utf8_split,
};

use crate::bpe::added::{
    added_at, first_added, lemma_first_added, lemma_winner, matching_order, winner, Added,
};
use crate::bpe::tiktoken::Encoding;
use crate::pretokenize::cuts::{lemma_valid_utf8_walks, lemma_word_end, safe_cut, word_end};
use crate::pretokenize::gpt2::pretokens;
use crate::pretokenize::options::PretokenizerType;
use crate::pretokenize::scan::letter_byte;
use crate::pretokenize::split::{
    cuts_added, lemma_split_ends, parts, ranges_of, split_ends, split_point, straddles,
};
use crate::seqs::occurs_at;
use crate::text::{lemma_nfc_cut, nfc_apart, nfc_bytes};
use crate::token::TokenId;

verus! {

/// The contents of added tokens.
pub open spec fn contents(added: Seq<Added>) -> Seq<Seq<u8>> {
    added.map_values(|a: Added| a.0)
}

/// What follows a valid beginning of valid UTF-8 is valid.
proof fn lemma_valid_rest(a: Seq<u8>, b: Seq<u8>)
    requires
        valid_utf8(a),
        valid_utf8(a + b),
    ensures
        valid_utf8(b),
    decreases a.len(),
{
    if a.len() == 0 {
        assert(a + b =~= b);
    } else {
        let s = a + b;
        assert(valid_first_scalar(a));
        assert(valid_first_scalar(s));
        let n = length_of_first_scalar(a);
        assert(s[0] == a[0]);
        assert(n == length_of_first_scalar(s));
        assert(pop_first_scalar(s) =~= pop_first_scalar(a) + b);
        lemma_valid_rest(pop_first_scalar(a), b);
    }
}

impl Encoding {
    /// Whether the added tokens are in matching order, and valid UTF-8.
    pub open spec fn added_texts(self) -> bool {
        &&& matching_order(self.added)
        &&& forall|k: int| 0 <= k < self.added.len() ==> valid_utf8((#[trigger] self.added[k]).0)
    }

    /// Whether putting text in NFC, where it is done, can be done apart before
    /// ASCII, as the normalizer of every [`Tokenizer`] in order can.
    pub open spec fn nfc_apart(self) -> bool {
        self.nfc ==> nfc_apart()
    }
}

/// Whether a segment can be cut at `p`: a word ends there, and behind its space
/// stands an ASCII letter or nothing.
spec fn word_cut(s: Seq<u8>, p: int) -> bool {
    word_end(s, p) && (p + 1 < s.len() ==> letter_byte(s[p + 1]))
}

/// Cutting a segment at the end of a word changes none of its tokens.
proof fn lemma_segment_cut(e: Encoding, s: Seq<u8>, p: int)
    requires
        valid_utf8(s),
        word_cut(s, p),
        e.scheme == PretokenizerType::GPT2,
        e.nfc_apart(),
    ensures
        e.segment_pieces(s) == e.segment_pieces(s.take(p)) + e.segment_pieces(s.skip(p)),
{
    let (t, q) = if e.nfc {
        (nfc_bytes(s), nfc_bytes(s.take(p)).len() as int)
    } else {
        (s, p)
    };
    if e.nfc {
        lemma_nfc_cut(s, p);
        assert(t.take(q) =~= nfc_bytes(s.take(p)));
        assert(t.skip(q) =~= nfc_bytes(s.skip(p)));
        assert(t[q - 1] == nfc_bytes(s.take(p)).last());
    }
    assert(word_end(t, q));
    assert(valid_utf8(t));
    lemma_valid_utf8_walks(t, q - 1);
    lemma_word_end(t, q);
    e.model.lemma_tokens_concat(pretokens(t.take(q)), pretokens(t.skip(q)));
}

/// Where an added token stands before a cut that none spans, it stands in the
/// part before the cut; at or behind the cut, in the part behind it.
proof fn lemma_added_parts(added: Seq<Added>, s: Seq<u8>, p: int, at: int)
    requires
        0 <= p <= s.len(),
        !cuts_added(s, contents(added), p),
        forall|i: int| 0 <= i < added.len() ==> (#[trigger] added[i]).0.len() > 0,
    ensures
        0 <= at < p ==> added_at(added, s.take(p), at) == added_at(added, s, at),
        0 <= at < p && added_at(added, s, at) ==> winner(added, s.take(p), at) == winner(
            added,
            s,
            at,
        ),
        p <= at ==> added_at(added, s.skip(p), at - p) == added_at(added, s, at),
        p <= at && added_at(added, s, at) ==> winner(added, s.skip(p), at - p) == winner(
            added,
            s,
            at,
        ),
{
    if 0 <= at < p {
        assert forall|k: int| 0 <= k < added.len() implies occurs_at(
            s.take(p),
            (#[trigger] added[k]).0,
            at,
        ) == occurs_at(s, added[k].0, at) by {
            let t = added[k].0;
            if occurs_at(s, t, at) {
                assert(contents(added)[k] == t);
                assert(!straddles(s, contents(added)[k], p));
                assert(at + t.len() <= p);
                assert(s.take(p).subrange(at, at + t.len()) =~= s.subrange(at, at + t.len()));
            }
            if occurs_at(s.take(p), t, at) {
                assert(s.take(p).subrange(at, at + t.len()) =~= s.subrange(at, at + t.len()));
            }
        }
        lemma_same_winner(added, s.take(p), at, s, at);
    }
    if p <= at {
        assert forall|k: int| 0 <= k < added.len() implies occurs_at(
            s.skip(p),
            (#[trigger] added[k]).0,
            at - p,
        ) == occurs_at(s, added[k].0, at) by {
            let t = added[k].0;
            if at + t.len() <= s.len() {
                assert(s.skip(p).subrange(at - p, at - p + t.len()) =~= s.subrange(
                    at,
                    at + t.len(),
                ));
            }
        }
        lemma_same_winner(added, s.skip(p), at - p, s, at);
    }
}

/// Where the same added tokens stand, the same one wins.
proof fn lemma_same_winner(added: Seq<Added>, s: Seq<u8>, a: int, t: Seq<u8>, b: int)
    requires
        forall|k: int|
            0 <= k < added.len() ==> occurs_at(s, (#[trigger] added[k]).0, a) == occurs_at(
                t,
                added[k].0,
                b,
            ),
    ensures
        added_at(added, s, a) == added_at(added, t, b),
        winner(added, s, a) == winner(added, t, b),
    decreases added.len(),
{
    if added_at(added, s, a) {
        let k = choose|k: int| 0 <= k < added.len() && occurs_at(s, (#[trigger] added[k]).0, a);
        assert(occurs_at(t, added[k].0, b));
    }
    if added_at(added, t, b) {
        let k = choose|k: int| 0 <= k < added.len() && occurs_at(t, (#[trigger] added[k]).0, b);
        assert(occurs_at(s, added[k].0, a));
    }
    if added.len() > 0 {
        let rest = added.drop_first();
        assert forall|k: int| 0 <= k < rest.len() implies occurs_at(s, (#[trigger] rest[k]).0, a)
            == occurs_at(t, rest[k].0, b) by {
            assert(rest[k] == added[k + 1]);
        }
        lemma_same_winner(rest, s, a, t, b);
    }
}

/// The first added token from `from` on, in the part before a cut.
proof fn lemma_first_in_prefix(added: Seq<Added>, s: Seq<u8>, p: int, from: int)
    requires
        0 <= from <= p <= s.len(),
        !cuts_added(s, contents(added), p),
        matching_order(added),
    ensures
        first_added(added, s.take(p), from) == match first_added(added, s, from) {
            Some(at) => if at < p {
                Some(at)
            } else {
                None
            },
            None => None,
        },
    decreases p - from,
{
    if from < p {
        lemma_added_parts(added, s, p, from);
        lemma_first_in_prefix(added, s, p, from + 1);
    } else {
        lemma_first_added(added, s, from);
    }
}

/// The first added token from `from` on, in the part behind a cut.
proof fn lemma_first_in_suffix(added: Seq<Added>, s: Seq<u8>, p: int, from: int)
    requires
        0 <= p <= from,
        p <= s.len(),
        !cuts_added(s, contents(added), p),
        forall|i: int| 0 <= i < added.len() ==> (#[trigger] added[i]).0.len() > 0,
    ensures
        first_added(added, s.skip(p), from - p) == match first_added(added, s, from) {
            Some(at) => Some(at - p),
            None => None,
        },
    decreases s.len() - from,
{
    if from < s.len() {
        lemma_added_parts(added, s, p, from);
        lemma_first_in_suffix(added, s, p, from + 1);
    }
}

/// The tokens from a place behind a cut on are those of the part behind it.
proof fn lemma_pieces_in_suffix(e: Encoding, s: Seq<u8>, p: int, from: int)
    requires
        0 <= p <= from,
        p <= s.len(),
        !cuts_added(s, contents(e.added), p),
        matching_order(e.added),
    ensures
        e.pieces_from(s.skip(p), from - p) == e.pieces_from(s, from),
    decreases s.len() - from,
{
    let u = s.skip(p);
    if from < s.len() {
        lemma_first_in_suffix(e.added, s, p, from);
        lemma_first_added(e.added, s, from);
        match first_added(e.added, s, from) {
            Some(at) => {
                lemma_added_parts(e.added, s, p, at);
                lemma_winner(e.added, s, at);
                let w = winner(e.added, s, at);
                let end = at + e.added[w].0.len();
                assert(u.subrange(from - p, at - p) =~= s.subrange(from, at));
                lemma_pieces_in_suffix(e, s, p, end);
            },
            None => {
                assert(u.skip(from - p) =~= s.skip(from));
            },
        }
    }
}

/// The tokens of a document from `from` on are those of the parts before and
/// behind a cut.
proof fn lemma_pieces_cut_from(e: Encoding, s: Seq<u8>, p: int, from: int)
    requires
        0 <= from <= p,
        safe_cut(s, p),
        !cuts_added(s, contents(e.added), p),
        valid_utf8(s.skip(from)),
        e.added_texts(),
        e.scheme == PretokenizerType::GPT2,
        e.nfc_apart(),
    ensures
        e.pieces_from(s, from) == e.pieces_from(s.take(p), from) + e.pieces_from(s.skip(p), 0),
    decreases p - from,
{
    let t = s.take(p);
    let u = s.skip(p);
    lemma_pieces_in_suffix(e, s, p, p);
    if from == p {
        assert(e.pieces_from(t, from) =~= Seq::<Seq<TokenId>>::empty());
        assert(e.pieces_from(s, p) =~= e.pieces_from(t, from) + e.pieces_from(u, 0));
    } else {
        let v = s.skip(from);
        lemma_first_in_prefix(e.added, s, p, from);
        lemma_first_added(e.added, s, from);
        assert(v[p - from] == s[p] && v[p - from - 1] == s[p - 1]);
        match first_added(e.added, s, from) {
            Some(at) => {
                lemma_winner(e.added, s, at);
                let w = winner(e.added, s, at);
                let c = e.added[w].0;
                let end = at + c.len();
                assert(contents(e.added)[w] == c);
                assert(!straddles(s, contents(e.added)[w], p));
                if at < p {
                    lemma_added_parts(e.added, s, p, at);
                    assert(end <= p);
                    lemma_after_added(s, from, at, c);
                    assert(t.subrange(from, at) =~= s.subrange(from, at));
                    lemma_pieces_cut_from(e, s, p, end);
                    let head = e.segment_pieces(s.subrange(from, at)) + seq![seq![e.added[w].1]];
                    assert(head + (e.pieces_from(t, end) + e.pieces_from(u, 0)) =~= head
                        + e.pieces_from(t, end) + e.pieces_from(u, 0));
                } else {
                    // The cut lies in the segment before the token.
                    lemma_pieces_behind(e, s, p, from, at);
                }
            },
            None => {
                lemma_pieces_behind(e, s, p, from, s.len() as int);
            },
        }
    }
}

/// What follows an added token is valid UTF-8.
proof fn lemma_after_added(s: Seq<u8>, from: int, at: int, c: Seq<u8>)
    requires
        0 <= from <= at,
        c.len() > 0,
        occurs_at(s, c, at),
        valid_utf8(c),
        valid_utf8(s.skip(from)),
    ensures
        valid_utf8(s.skip(at + c.len())),
{
    let v = s.skip(from);
    let k = at - from;
    assert(valid_first_scalar(c));
    assert(s.subrange(at, at + c.len())[0] == s[at]);
    assert(v[k] == c[0]);
    assert(!is_continuation_byte(v[k]));
    if k > 0 {
        is_char_boundary_iff_not_is_continuation_byte(v, k);
        valid_utf8_split(v, k);
    }
    assert(v.subrange(k, v.len() as int) =~= s.skip(at));
    assert(s.skip(at) =~= c + s.skip(at + c.len()));
    lemma_valid_rest(c, s.skip(at + c.len()));
}

/// The tokens of a document whose first added token from `from` on stands at
/// `at`, behind a cut, or that has none.
proof fn lemma_pieces_behind(e: Encoding, s: Seq<u8>, p: int, from: int, at: int)
    requires
        0 <= from < p <= at <= s.len(),
        safe_cut(s, p),
        !cuts_added(s, contents(e.added), p),
        valid_utf8(s.skip(from)),
        e.added_texts(),
        e.scheme == PretokenizerType::GPT2,
        e.nfc_apart(),
        first_added(e.added, s, from) == if at < s.len() {
            Some(at)
        } else {
            None
        },
        first_added(e.added, s.take(p), from) is None,
    ensures
        e.pieces_from(s, from) == e.pieces_from(s.take(p), from) + e.pieces_from(s.skip(p), 0),
{
    let t = s.take(p);
    let u = s.skip(p);
    let v = s.skip(from);
    lemma_pieces_in_suffix(e, s, p, p);
    lemma_first_added(e.added, s, from);
    lemma_first_added(e.added, s, p);
    // The first from the cut on is the first from `from` on.
    assert(first_added(e.added, s, p) == first_added(e.added, s, from)) by {
        match first_added(e.added, s, p) {
            Some(b) => {
                assert(added_at(e.added, s, b));
            },
            None => {
                if at < s.len() {
                    assert(added_at(e.added, s, at));
                }
            },
        }
    }
    let seg = s.subrange(from, at);
    let k = p - from;
    assert(t.skip(from) =~= s.subrange(from, p));
    assert(seg.take(k) =~= s.subrange(from, p)) by {
        assert(k <= seg.len());
    }
    assert(seg.skip(k) =~= s.subrange(p, at));
    let left = e.segment_pieces(s.subrange(from, p));
    let right = e.segment_pieces(s.subrange(p, at));
    assert(e.segment_pieces(seg) == left + right) by {
        if p < at {
            assert(seg[k] == s[p] && seg[k - 1] == s[p - 1]);
            assert(p + 1 < at ==> seg[k + 1] == s[p + 1]);
            assert(valid_utf8(seg)) by {
                if at < s.len() {
                    lemma_winner(e.added, s, at);
                    let c = e.added[winner(e.added, s, at)].0;
                    assert(valid_first_scalar(c));
                    assert(s.subrange(at, at + c.len())[0] == s[at]);
                    assert(v[at - from] == s[at]);
                    is_char_boundary_iff_not_is_continuation_byte(v, at - from);
                    valid_utf8_split(v, at - from);
                    assert(v.subrange(0, at - from) =~= seg);
                } else {
                    assert(seg =~= v);
                }
            }
            lemma_segment_cut(e, seg, k);
        } else {
            assert(seg =~= s.subrange(from, p));
            assert(s.subrange(p, at) =~= Seq::<u8>::empty());
            lemma_empty_segment(e);
            assert(left + right =~= left);
        }
    }
    assert(e.pieces_from(t, from) == left);
    if at < s.len() {
        let w = winner(e.added, s, at);
        lemma_winner(e.added, s, at);
        let end = at + e.added[w].0.len();
        let tail = seq![seq![e.added[w].1]] + e.pieces_from(s, end);
        assert(e.pieces_from(s, from) =~= e.segment_pieces(seg) + tail);
        assert(e.pieces_from(s, p) =~= right + tail);
        assert(left + right + tail =~= left + (right + tail));
    } else {
        assert(s.skip(from) =~= seg);
        assert(e.pieces_from(s, from) == e.segment_pieces(seg));
        assert(s.skip(p) =~= s.subrange(p, at));
        assert(e.pieces_from(s, p) == right);
    }
}

/// An empty segment has no tokens.
proof fn lemma_empty_segment(e: Encoding)
    requires
        e.scheme == PretokenizerType::GPT2,
    ensures
        e.segment_pieces(Seq::empty()) == Seq::<Seq<TokenId>>::empty(),
{
    let none = Seq::<u8>::empty();
    assert(!e.nfc ==> pretokens(none) =~= Seq::<Seq<u8>>::empty());
    assert(nfc_bytes(none) =~= none);
    assert(e.segment_pieces(none) =~= Seq::<Seq<TokenId>>::empty());
}

/// Cutting a document at a split point changes none of its tokens: those of the
/// two parts, one after the other, are those of the whole.
pub proof fn lemma_cut_keeps_tokens(e: Encoding, s: Seq<u8>, p: int)
    requires
        valid_utf8(s),
        split_point(s, contents(e.added), p),
        e.added_texts(),
        e.scheme == PretokenizerType::GPT2,
        e.nfc_apart(),
    ensures
        e.pieces(s) == e.pieces(s.take(p)) + e.pieces(s.skip(p)),
{
    assert(s.skip(0) =~= s);
    lemma_pieces_cut_from(e, s, p, 0);
}

impl Encoding {
    /// The tokens of texts, one after the other.
    pub open spec fn pieces_of_texts(self, texts: Seq<Seq<u8>>) -> Seq<Seq<TokenId>>
        decreases texts.len(),
    {
        if texts.len() == 0 {
            Seq::empty()
        } else {
            self.pieces(texts[0]) + self.pieces_of_texts(texts.drop_first())
        }
    }

    /// The tokens of two lists of texts, one after the other.
    pub proof fn lemma_texts_concat(self, a: Seq<Seq<u8>>, b: Seq<Seq<u8>>)
        ensures
            self.pieces_of_texts(a + b) == self.pieces_of_texts(a) + self.pieces_of_texts(b),
        decreases a.len(),
    {
        if a.len() == 0 {
            assert(a + b =~= b);
            assert(self.pieces_of_texts(a + b) =~= self.pieces_of_texts(a) + self.pieces_of_texts(
                b,
            ));
        } else {
            self.lemma_texts_concat(a.drop_first(), b);
            assert((a + b).drop_first() =~= a.drop_first() + b);
            assert((a + b)[0] == a[0]);
            assert(self.pieces_of_texts(a + b) =~= self.pieces_of_texts(a) + self.pieces_of_texts(
                b,
            ));
        }
    }

    /// The tokens of one text, as a list.
    pub proof fn lemma_texts_one(self, text: Seq<u8>)
        ensures
            self.pieces_of_texts(seq![text]) == self.pieces(text),
    {
        let one = seq![text];
        assert(one.drop_first() =~= Seq::<Seq<u8>>::empty());
        assert(self.pieces_of_texts(one.drop_first()) =~= Seq::<Seq<TokenId>>::empty());
        assert(self.pieces_of_texts(one) =~= self.pieces(text));
    }
}

proof fn lemma_split_keeps_tokens_from(e: Encoding, s: Seq<u8>, target: int, start: int)
    requires
        valid_utf8(s),
        0 <= start < s.len(),
        start == 0 || safe_cut(s, start),
        1 <= target,
        e.added_texts(),
        e.scheme == PretokenizerType::GPT2,
        e.nfc_apart(),
    ensures
        e.pieces_of_texts(
            parts(s, ranges_of(start, split_ends(s, contents(e.added), target, start))),
        ) == e.pieces(s.skip(start)),
    decreases s.len() - start,
{
    let added = contents(e.added);
    let ends = split_ends(s, added, target, start);
    lemma_split_ends(s, added, target, start);
    let end = ends[0];
    let all = parts(s, ranges_of(start, ends));
    let u = s.skip(start);
    lemma_skip_valid(s, start);
    assert(all[0] == s.subrange(start, end));
    if ends.len() == 1 {
        assert(all =~= seq![u]);
        e.lemma_texts_one(u);
    } else {
        let rest = split_ends(s, added, target, end);
        assert(ends =~= seq![end] + rest);
        assert(split_point(s, added, end));
        assert(all.drop_first() =~= parts(s, ranges_of(end, rest)));
        lemma_split_keeps_tokens_from(e, s, target, end);
        let q = end - start;
        assert(u.take(q) =~= s.subrange(start, end));
        assert(u.skip(q) =~= s.skip(end));
        assert(u[q] == s[end] && u[q - 1] == s[end - 1] && u[q + 1] == s[end + 1]);
        assert(!cuts_added(u, added, q)) by {
            if cuts_added(u, added, q) {
                let i = choose|i: int| 0 <= i < added.len() && straddles(u, #[trigger] added[i], q);
                let a = choose|a: int|
                    a < q && q < a + added[i].len() && #[trigger] occurs_at(u, added[i], a);
                assert(u.subrange(a, a + added[i].len()) =~= s.subrange(
                    start + a,
                    start + a + added[i].len(),
                ));
                assert(occurs_at(s, added[i], start + a));
                assert(straddles(s, added[i], end));
            }
        }
        lemma_cut_keeps_tokens(e, u, q);
    }
}

/// What starts at a safe cut of valid UTF-8 is valid.
proof fn lemma_skip_valid(s: Seq<u8>, start: int)
    requires
        valid_utf8(s),
        0 <= start < s.len(),
        start == 0 || safe_cut(s, start),
    ensures
        valid_utf8(s.skip(start)),
        valid_utf8(s.take(start)),
{
    if start == 0 {
        assert(s.skip(0) =~= s);
        assert(s.take(0) =~= Seq::<u8>::empty());
    } else {
        is_char_boundary_iff_not_is_continuation_byte(s, start);
        valid_utf8_split(s, start);
        assert(s.subrange(start, s.len() as int) =~= s.skip(start));
        assert(s.subrange(0, start) =~= s.take(start));
    }
}

/// Encoding the ranges of a document independently and concatenating their
/// tokens is encoding it in one pass.
pub proof fn lemma_split_keeps_tokens(e: Encoding, s: Seq<u8>, target: int)
    requires
        valid_utf8(s),
        s.len() > 0,
        1 <= target,
        e.added_texts(),
        e.scheme == PretokenizerType::GPT2,
        e.nfc_apart(),
    ensures
        e.pieces_of_texts(parts(s, ranges_of(0, split_ends(s, contents(e.added), target, 0))))
            == e.pieces(s),
{
    lemma_split_keeps_tokens_from(e, s, target, 0);
    assert(s.skip(0) =~= s);
}

/// The ranges of valid UTF-8 are valid.
pub proof fn lemma_parts_valid(s: Seq<u8>, added: Seq<Seq<u8>>, target: int, i: int)
    requires
        valid_utf8(s),
        s.len() > 0,
        1 <= target,
        0 <= i < split_ends(s, added, target, 0).len(),
    ensures
        valid_utf8(parts(s, ranges_of(0, split_ends(s, added, target, 0)))[i]),
        parts(s, ranges_of(0, split_ends(s, added, target, 0)))[i].len() > 0,
{
    let ends = split_ends(s, added, target, 0);
    lemma_split_ends(s, added, target, 0);
    let (a, b) = ranges_of(0, ends)[i];
    if i > 0 {
        assert(split_point(s, added, ends[i - 1]));
        assert(ends[i - 1] < ends[i]);
    }
    assert(a < b <= s.len()) by {
        assert(0 < ends[i]);
        if i < ends.len() - 1 {
            assert(ends[i] < ends[ends.len() - 1]);
        }
    }
    lemma_skip_valid(s, a);
    let u = s.skip(a);
    if b < s.len() {
        assert(split_point(s, added, ends[i]));
        assert(u[b - a] == s[b]);
        is_char_boundary_iff_not_is_continuation_byte(u, b - a);
        valid_utf8_split(u, b - a);
        assert(u.subrange(0, b - a) =~= s.subrange(a, b));
    } else {
        assert(u =~= s.subrange(a, b));
    }
}

} // verus!
