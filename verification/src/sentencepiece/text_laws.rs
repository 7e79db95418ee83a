//! Laws: how the text round added tokens is encoded, what symbols a text starts as, and
//! what tokens decode to.

use vstd::prelude::*;
use vstd::utf8::{
    encode_utf8, encode_utf8_decode_utf8, encode_utf8_valid_utf8, is_continuation_byte, valid_utf8,
};

use crate::bpe::added::{by_descending_len, lemma_by_descending_len, next_added, Added};
use crate::bpe::encoding_laws::{first_listed, lemma_leftmost_longest, lemma_next_in_rest};
use crate::pretokenize::regex_laws::lemma_first_character;
use crate::pretokenize::scan::width_at;
use crate::sentencepiece::laws::{
    lemma_first_char, lemma_raw_path_is_normalization, lemma_replaced_step, lemma_symbols_suffix,
};
use crate::sentencepiece::model::{
    first_empty, mark, match_list, metaspaced, next_found, steps_applied, PrependScheme, SpModel,
    TokenSpec,
};
use crate::sentencepiece::unit_laws::lemma_mark_char;
use crate::seqs::{lemma_flatten_concat, lemma_flatten_one, occurs_at};
use crate::string_laws::lemma_replace;
use crate::strings::{after_spaces, replaced, replaced_from, trimmed_end, trimmed_start};
use crate::text::lemma_encode_concat;
use crate::token::TokenId;

verus! {

// ---------------------------------------------------------------------------
// Symbols
// ---------------------------------------------------------------------------

/// The symbols of a text start with those of its first character: the token of its
/// UTF-8, or of the mark for a space where `raw`, and then come those of the rest.
pub proof fn lemma_first_symbols(m: SpModel, chars: Seq<char>, raw: bool)
    requires
        chars.len() > 0,
    ensures
        m.symbols_from(encode_utf8(Seq::empty()), 0, raw) == Seq::<TokenId>::empty(),
        m.symbols_from(encode_utf8(chars), 0, raw) == m.char_symbols(
            if raw && chars[0] == ' ' {
                encode_utf8(seq!['\u{2581}'])
            } else {
                encode_utf8(seq![chars[0]])
            },
        ) + m.symbols_from(encode_utf8(chars.drop_first()), 0, raw),
{
    let s = encode_utf8(chars);
    lemma_first_character(chars);
    lemma_mark_char();
    let w = width_at(s, 0);
    assert(s.subrange(0, w) =~= s.take(w));
    lemma_symbols_suffix(m, s, w, 0, raw);
}

/// A character with a token is that token; any other is the fallback tokens of its
/// bytes, in order, each byte that has one.
pub proof fn lemma_char_symbols(m: SpModel, ch: Seq<u8>)
    ensures
        m.inv.contains_key(ch) ==> m.char_symbols(ch) == seq![m.inv[ch]],
        !m.inv.contains_key(ch) ==> m.char_symbols(ch) == Seq::new(
            ch.len(),
            |i: int|
                match m.fallback[ch[i] as int] {
                    Some(id) => seq![id],
                    None => Seq::<TokenId>::empty(),
                },
        ).flatten(),
{
    lemma_fallback_flat(m, ch);
}

proof fn lemma_fallback_flat(m: SpModel, ch: Seq<u8>)
    ensures
        m.fallback_tokens(ch) == Seq::new(
            ch.len(),
            |i: int|
                match m.fallback[ch[i] as int] {
                    Some(id) => seq![id],
                    None => Seq::<TokenId>::empty(),
                },
        ).flatten(),
    decreases ch.len(),
{
    let f = |i: int|
        match m.fallback[ch[i] as int] {
            Some(id) => seq![id],
            None => Seq::<TokenId>::empty(),
        };
    let parts = Seq::new(ch.len(), f);
    if ch.len() > 0 {
        let init = ch.drop_last();
        let before = Seq::new(
            init.len(),
            |i: int|
                match m.fallback[init[i] as int] {
                    Some(id) => seq![id],
                    None => Seq::<TokenId>::empty(),
                },
        );
        let last = f(ch.len() - 1);
        lemma_fallback_flat(m, init);
        assert(parts =~= before + seq![last]);
        lemma_flatten_concat(before, seq![last]);
        lemma_flatten_one(last);
    } else {
        assert(parts =~= Seq::<Seq<TokenId>>::empty());
        assert(parts.flatten() =~= Seq::<TokenId>::empty());
    }
}

// ---------------------------------------------------------------------------
// Added tokens
// ---------------------------------------------------------------------------

/// The text between added tokens is encoded as what the normalizer and the
/// pre-tokenizer make of it, where no added token is matched in that.
pub proof fn lemma_section_is_normal_form(m: SpModel, s: Seq<u8>, first: bool)
    requires
        m.norm_added.len() == 0,
        m.merges_agree(),
        s.len() > 0,
        valid_utf8(s),
        m.text_decodes(s, 0, true),
        m.char_decodes(mark()),
    ensures
        m.section_tokens(s, first) == m.normalized_tokens(
            metaspaced(m.metaspace, steps_applied(m.steps, s), first),
        ),
{
    if m.raw_prepend() is Some {
        lemma_raw_path_is_normalization(m, s, first);
    }
}

/// Whether every added token of a list has content.
pub open spec fn all_have_content(specs: Seq<TokenSpec>) -> bool {
    forall|k: int| 0 <= k < specs.len() ==> (#[trigger] specs[k]).content.len() > 0
}

proof fn lemma_no_empty(specs: Seq<TokenSpec>, k: int)
    requires
        all_have_content(specs),
        0 <= k,
    ensures
        first_empty(specs, k) is None,
    decreases specs.len() - k,
{
    if k < specs.len() {
        lemma_no_empty(specs, k + 1);
    }
}

/// The added token that is found from a place on: the leftmost that stands there, the
/// longest of several, and of those with one content the first.
pub proof fn lemma_found(specs: Seq<TokenSpec>, s: Seq<u8>, from: int, behind: bool)
    requires
        all_have_content(specs),
        specs.len() <= u32::MAX,
        0 <= from,
    ensures
        match next_found(specs, s, from, behind) {
            Some((start, end, k)) => {
                &&& from <= start < end <= s.len()
                &&& k.0 < specs.len()
                &&& specs[k.0 as int].content == s.subrange(start, end)
                &&& forall|j: int|
                    0 <= j < k.0 ==> (#[trigger] specs[j]).content != s.subrange(start, end)
                &&& forall|j: int, i: int|
                    0 <= j < specs.len() && from <= i < start ==> !#[trigger] occurs_at(
                        s,
                        specs[j].content,
                        i,
                    )
                &&& forall|j: int|
                    0 <= j < specs.len() && #[trigger] occurs_at(s, specs[j].content, start)
                        ==> specs[j].content.len() <= end - start
            },
            None => forall|j: int, i: int|
                0 <= j < specs.len() && from <= i ==> !#[trigger] occurs_at(
                    s,
                    specs[j].content,
                    i,
                ),
        },
{
    let list: Seq<Added> = Seq::new(
        specs.len(),
        |i: int| (specs[i].content, TokenId(i as u32)),
    );
    lemma_no_empty(specs, 0);
    assert(match_list(specs) == by_descending_len(list));
    lemma_leftmost_longest(list, s, from);
    match next_added(match_list(specs), s, from) {
        Some((start, end, k)) => {
            let c = s.subrange(start, end);
            assert(first_listed(list, c, k));
            let i = choose|i: int|
                0 <= i < list.len() && #[trigger] list[i] == (c, k) && forall|j: int|
                    0 <= j < i ==> (#[trigger] list[j]).0 != c;
            assert(k == TokenId(i as u32));
            assert forall|j: int| 0 <= j < k.0 implies (#[trigger] specs[j]).content != c by {
                assert(list[j].0 != c);
            }
            assert forall|j: int, p: int|
                0 <= j < specs.len() && from <= p < start implies !#[trigger] occurs_at(
                s,
                specs[j].content,
                p,
            ) by {
                assert(!occurs_at(s, list[j].0, p));
            }
            assert forall|j: int|
                0 <= j < specs.len() && #[trigger] occurs_at(
                    s,
                    specs[j].content,
                    start,
                ) implies specs[j].content.len() <= end - start by {
                assert(occurs_at(s, list[j].0, start));
            }
        },
        None => {
            assert forall|j: int, p: int| 0 <= j < specs.len() && from <= p implies !#[trigger] occurs_at(
                s,
                specs[j].content,
                p,
            ) by {
                assert(!occurs_at(s, list[j].0, p));
            }
        },
    }
}

proof fn lemma_first_without_content(specs: Seq<TokenSpec>, i: int, k: int)
    requires
        0 <= i <= k < specs.len(),
        specs[k].content.len() == 0,
        forall|j: int| 0 <= j < k ==> (#[trigger] specs[j]).content.len() > 0,
    ensures
        first_empty(specs, i) == Some(k),
    decreases k - i,
{
    if i < k {
        assert(specs[i].content.len() > 0);
        lemma_first_without_content(specs, i + 1, k);
    }
}

/// An added token without content stands at every place, but not a second time at the
/// end of a match: the first such is found there, unless one with content stands no
/// further on.
pub proof fn lemma_found_without_content(
    specs: Seq<TokenSpec>,
    s: Seq<u8>,
    from: int,
    behind: bool,
    k: int,
)
    requires
        specs.len() <= u32::MAX,
        0 <= from <= s.len(),
        0 <= k < specs.len(),
        specs[k].content.len() == 0,
        forall|j: int| 0 <= j < k ==> (#[trigger] specs[j]).content.len() > 0,
    ensures
        ({
            let at = if behind {
                from + 1
            } else {
                from
            };
            match next_found(specs, s, from, behind) {
                Some((start, end, id)) => {
                    &&& from <= start <= at
                    &&& id.0 < specs.len()
                    &&& specs[id.0 as int].content == s.subrange(start, end)
                    &&& start == end ==> start == at && id.0 == k
                    &&& start == end ==> forall|j: int, i: int|
                        0 <= j < specs.len() && specs[j].content.len() > 0 && from <= i <= at
                            ==> !#[trigger] occurs_at(s, specs[j].content, i)
                    &&& start < end ==> occurs_at(s, specs[id.0 as int].content, start)
                },
                None => behind && from == s.len(),
            }
        }),
{
    let list: Seq<Added> = Seq::new(
        specs.len(),
        |i: int| (specs[i].content, TokenId(i as u32)),
    );
    lemma_first_without_content(specs, 0, k);
    assert(match_list(specs) == by_descending_len(list));
    lemma_leftmost_longest(list, s, from);
    let at = if behind {
        from + 1
    } else {
        from
    };
    let found = next_added(match_list(specs), s, from);
    if let Some((start, end, id)) = found {
        let c = s.subrange(start, end);
        assert(first_listed(list, c, id));
        let i = choose|i: int|
            0 <= i < list.len() && #[trigger] list[i] == (c, id) && forall|j: int|
                0 <= j < i ==> (#[trigger] list[j]).0 != c;
        assert(id == TokenId(i as u32));
    }
    if !(found matches Some(m) && m.0 <= at) {
        assert forall|j: int, i: int|
            0 <= j < specs.len() && specs[j].content.len() > 0 && from <= i
                <= at implies !#[trigger] occurs_at(s, specs[j].content, i) by {
            assert(list[j].0.len() > 0);
            assert(!occurs_at(s, list[j].0, i));
        }
        assert(at <= s.len() ==> s.subrange(at, at) =~= specs[k].content);
    }
}

impl SpModel {
    /// The tokens of a text that is, or is not, the first of an input.
    pub open spec fn text_tokens(self, s: Seq<u8>, first: bool) -> Seq<TokenId> {
        self.tokens_from(s, 0, false, 0, first)
    }
}

proof fn lemma_found_in_rest(specs: Seq<TokenSpec>, s: Seq<u8>, p: int, from: int)
    requires
        all_have_content(specs),
        0 <= p <= from,
        p <= s.len(),
    ensures
        next_found(specs, s.skip(p), from - p, true) == match next_found(specs, s, from, true) {
            Some((a, b, k)) => Some((a - p, b - p, k)),
            None => None,
        },
        next_found(specs, s, from, true) == next_found(specs, s, from, false),
        next_found(specs, s.skip(p), from - p, true) == next_found(
            specs,
            s.skip(p),
            from - p,
            false,
        ),
{
    let list: Seq<Added> = Seq::new(
        specs.len(),
        |i: int| (specs[i].content, TokenId(i as u32)),
    );
    lemma_no_empty(specs, 0);
    lemma_by_descending_len(list);
    lemma_next_in_rest(match_list(specs), s, p, from);
}

proof fn lemma_tokens_in_rest(m: SpModel, s: Seq<u8>, p: int, from: int, chunk: int, first: bool)
    requires
        all_have_content(m.added),
        m.added.len() <= u32::MAX,
        0 <= p <= from <= s.len(),
        p <= chunk <= s.len(),
    ensures
        m.tokens_from(s.skip(p), from - p, true, chunk - p, first) == m.tokens_from(
            s,
            from,
            true,
            chunk,
            first,
        ),
    decreases s.len() - from,
{
    let t = s.skip(p);
    lemma_found_in_rest(m.added, s, p, from);
    lemma_found(m.added, s, from, true);
    match next_found(m.added, s, from, true) {
        None => {
            assert(t.skip(chunk - p) =~= s.skip(chunk));
        },
        Some((start, end, k)) => {
            if start < chunk {
                lemma_tokens_in_rest(m, s, p, end, chunk, first);
            } else {
                let spec = m.added[k.0 as int];
                assert(t.subrange(chunk - p, start - p) =~= s.subrange(chunk, start));
                assert(t.skip(end - p) =~= s.skip(end));
                lemma_after_bounds(s.skip(end), 0);
                let next = if spec.rstrip {
                    end + after_spaces(s.skip(end), 0)
                } else {
                    end
                };
                lemma_tokens_in_rest(m, s, p, end, next, false);
            }
        },
    }
}

proof fn lemma_after_bounds(s: Seq<u8>, pos: int)
    requires
        0 <= pos <= s.len(),
    ensures
        pos <= after_spaces(s, pos) <= s.len(),
    decreases s.len() - pos,
{
    if pos < s.len() && crate::strings::space_at(s, pos) && 1 <= width_at(s, pos) {
        lemma_after_bounds(s, pos + width_at(s, pos));
    }
}

/// What was looked for up to a place where nothing stands before it is looked for from
/// there.
proof fn lemma_skip_found(m: SpModel, s: Seq<u8>, from: int, to: int, first: bool)
    requires
        all_have_content(m.added),
        m.added.len() <= u32::MAX,
        0 <= from <= to <= s.len(),
        forall|j: int, i: int|
            0 <= j < m.added.len() && from <= i < to ==> !#[trigger] occurs_at(
                s,
                m.added[j].content,
                i,
            ),
    ensures
        m.tokens_from(s, from, true, to, first) == m.tokens_from(s, to, true, to, first),
{
    lemma_found(m.added, s, from, true);
    lemma_found(m.added, s, to, true);
    match next_found(m.added, s, from, true) {
        Some((a, b, k)) => {
            let c = m.added[k.0 as int].content;
            assert(occurs_at(s, c, a));
            assert(a >= to);
            match next_found(m.added, s, to, true) {
                Some((x, y, l)) => {
                    let d = m.added[l.0 as int].content;
                    assert(occurs_at(s, d, x));
                    if a < x {
                        assert(!occurs_at(s, c, a));
                    }
                    if x < a {
                        assert(!occurs_at(s, d, x));
                    }
                    assert(a == x);
                    assert(c.len() <= y - x && d.len() <= b - a);
                    assert(c.len() == b - a && d.len() == y - x);
                    assert(b == y);
                    if k.0 < l.0 {
                        assert(m.added[k.0 as int].content != s.subrange(x, y));
                    }
                    if l.0 < k.0 {
                        assert(m.added[l.0 as int].content != s.subrange(a, b));
                    }
                    assert(k.0 == l.0);
                },
                None => {
                    assert(!occurs_at(s, c, a));
                },
            }
        },
        None => {
            match next_found(m.added, s, to, true) {
                Some((x, y, l)) => {
                    assert(!occurs_at(s, m.added[l.0 as int].content, x));
                },
                None => {},
            }
        },
    }
}

/// A text with an added token in it: what stands before the token, without the white
/// space at its end where the token strips it, is encoded by itself; then comes the
/// token; and then what stands behind it, without the white space at its start where
/// the token strips that and no added token starts in it, no longer as the first. A
/// text without an added token is encoded by itself.
pub proof fn lemma_added_token_splits(m: SpModel, s: Seq<u8>, first: bool)
    requires
        all_have_content(m.added),
        m.added.len() <= u32::MAX,
        s.len() > 0,
    ensures
        m.tokens(s) == m.text_tokens(s, true),
        match next_found(m.added, s, 0, false) {
            Some((start, end, k)) => {
                let spec = m.added[k.0 as int];
                let part = if spec.lstrip {
                    trimmed_end(s.take(start))
                } else {
                    s.take(start)
                };
                let before = if part.len() == 0 {
                    Seq::empty()
                } else {
                    m.section_tokens(part, first)
                };
                let rest = s.skip(end);
                &&& !spec.rstrip ==> m.text_tokens(s, first) == before + seq![spec.id]
                    + m.text_tokens(rest, false)
                &&& spec.rstrip && (forall|j: int, i: int|
                    0 <= j < m.added.len() && 0 <= i < rest.len() - trimmed_start(rest).len()
                        ==> !#[trigger] occurs_at(rest, m.added[j].content, i)) ==> m.text_tokens(
                    s,
                    first,
                ) == before + seq![spec.id] + m.text_tokens(trimmed_start(rest), false)
            },
            None => m.text_tokens(s, first) == m.section_tokens(s, first),
        },
{
    assert(s.skip(0) =~= s);
    lemma_found(m.added, s, 0, false);
    if m.added.len() == 0 {
        match next_found(m.added, s, 0, false) {
            Some((a, b, k)) => {},
            None => {},
        }
    }
    match next_found(m.added, s, 0, false) {
        Some((start, end, k)) => {
            let spec = m.added[k.0 as int];
            let rest = s.skip(end);
            assert(s.subrange(0, start) =~= s.take(start));
            lemma_after_bounds(rest, 0);
            if !spec.rstrip {
                lemma_tokens_in_rest(m, s, end, end, end, false);
                lemma_started(m, rest, false);
            } else if forall|j: int, i: int|
                0 <= j < m.added.len() && 0 <= i < rest.len() - trimmed_start(rest).len()
                    ==> !#[trigger] occurs_at(rest, m.added[j].content, i) {
                let g = after_spaces(rest, 0);
                assert(trimmed_start(rest).len() == rest.len() - g);
                lemma_tokens_in_rest(m, s, end, end, end + g, false);
                lemma_skip_found(m, rest, 0, g, false);
                lemma_tokens_in_rest(m, rest, g, g, g, false);
                lemma_started(m, trimmed_start(rest), false);
            }
        },
        None => {},
    }
}

proof fn lemma_started(m: SpModel, s: Seq<u8>, first: bool)
    requires
        all_have_content(m.added),
        m.added.len() <= u32::MAX,
    ensures
        m.tokens_from(s, 0, true, 0, first) == m.text_tokens(s, first),
{
    lemma_found_in_rest(m.added, s, 0, 0);
    lemma_found(m.added, s, 0, true);
    assert(next_found(m.added, s, 0, true) == next_found(m.added, s, 0, false));
}

/// Where added tokens are matched against what the normalizer gives, that is split at
/// them: what stands before the first one, without the white space at its end where it
/// strips that, is encoded by itself; then comes the token; then what stands behind it,
/// without the white space at its start where it strips that, no longer as the first.
/// Without one the whole is encoded by itself.
pub proof fn lemma_normalized_token_splits(m: SpModel, s: Seq<u8>, first: bool)
    requires
        all_have_content(m.norm_added),
        m.norm_added.len() <= u32::MAX,
        s.len() > 0,
    ensures
        m.section_from(Seq::empty(), first) == Seq::<TokenId>::empty(),
        match next_found(m.norm_added, s, 0, false) {
            Some((start, end, k)) => {
                let spec = m.norm_added[k.0 as int];
                let part = if spec.lstrip {
                    trimmed_end(s.take(start))
                } else {
                    s.take(start)
                };
                let rest = if spec.rstrip {
                    trimmed_start(s.skip(end))
                } else {
                    s.skip(end)
                };
                m.section_from(s, first) == (if part.len() == 0 {
                    Seq::empty()
                } else {
                    m.normalized_tokens(metaspaced(m.metaspace, part, first))
                }) + seq![spec.id] + m.section_from(rest, false)
            },
            None => m.section_from(s, first) == m.normalized_tokens(
                metaspaced(m.metaspace, s, first),
            ),
        },
{
    lemma_found(m.norm_added, s, 0, false);
    match next_found(m.norm_added, s, 0, false) {
        Some((start, end, k)) => {
            lemma_after_bounds(s.skip(end), 0);
        },
        None => {},
    }
}

/// A text that is normalized before added tokens are looked for in it.
pub proof fn lemma_section_with_normalized_tokens(m: SpModel, s: Seq<u8>, first: bool)
    requires
        m.norm_added.len() > 0,
    ensures
        m.section_tokens(s, first) == m.section_from(steps_applied(m.steps, s), first),
{
}

// ---------------------------------------------------------------------------
// Decoding
// ---------------------------------------------------------------------------

/// The bytes of tokens are the entries of the vocabulary at their ids, one after the
/// other; an id outside it has none.
pub proof fn lemma_raw_bytes_flat(m: SpModel, ids: Seq<TokenId>)
    ensures
        m.raw_bytes(ids) == Seq::new(
            ids.len(),
            |i: int|
                if ids[i].0 < m.vocab.len() {
                    m.vocab[ids[i].0 as int]
                } else {
                    Seq::empty()
                },
        ).flatten(),
    decreases ids.len(),
{
    let f = |i: int|
        if ids[i].0 < m.vocab.len() {
            m.vocab[ids[i].0 as int]
        } else {
            Seq::<u8>::empty()
        };
    let parts = Seq::new(ids.len(), f);
    if ids.len() > 0 {
        let init = ids.drop_last();
        let before = Seq::new(
            init.len(),
            |i: int|
                if init[i].0 < m.vocab.len() {
                    m.vocab[init[i].0 as int]
                } else {
                    Seq::<u8>::empty()
                },
        );
        let last = f(ids.len() - 1);
        lemma_raw_bytes_flat(m, init);
        assert(parts =~= before + seq![last]);
        lemma_flatten_concat(before, seq![last]);
        lemma_flatten_one(last);
    } else {
        assert(parts =~= Seq::<Seq<u8>>::empty());
        assert(parts.flatten() =~= Seq::<u8>::empty());
    }
}

/// A text with each mark made a space.
pub open spec fn spaced(chars: Seq<char>) -> Seq<char> {
    chars.map_values(
        |c: char|
            if c == '\u{2581}' {
                ' '
            } else {
                c
            },
    )
}

/// The mark stands where a text starts only where it is its first character.
proof fn lemma_mark_first(chars: Seq<char>, i: int)
    requires
        chars.len() > 0,
        0 <= i < encode_utf8(seq![chars[0]]).len(),
    ensures
        occurs_at(encode_utf8(chars), mark(), i) <==> i == 0 && chars[0] == '\u{2581}',
{
    let s = encode_utf8(chars);
    let one = encode_utf8(seq![chars[0]]);
    lemma_first_character(chars);
    encode_utf8_valid_utf8(chars);
    assert(s.skip(0) =~= s);
    lemma_first_char(s, 0);
    lemma_mark_char();
    let w = one.len() as int;
    if occurs_at(s, mark(), i) {
        assert(s.subrange(i, i + 3)[0] == s[i]);
        assert(s[i] == 0xE2);
        if i > 0 {
            assert(is_continuation_byte(s[i]));
        }
        assert(w == 3);
        assert(one =~= mark());
        encode_utf8_decode_utf8(seq![chars[0]]);
        encode_utf8_decode_utf8(seq!['\u{2581}']);
        assert(seq![chars[0]][0] == seq!['\u{2581}'][0]);
    }
    if i == 0 && chars[0] == '\u{2581}' {
        assert(one == mark());
        assert(s.subrange(0, 3) =~= s.take(3));
    }
}

proof fn lemma_kept_bytes(s: Seq<u8>, pos: int, w: int, pattern: Seq<u8>, content: Seq<u8>)
    requires
        0 <= pos <= w <= s.len(),
        pattern.len() > 0,
        forall|i: int| pos <= i < w ==> !#[trigger] occurs_at(s, pattern, i),
    ensures
        replaced_from(s, pos, pattern, content) == s.subrange(pos, w) + replaced_from(
            s,
            w,
            pattern,
            content,
        ),
    decreases w - pos,
{
    if pos < w {
        lemma_replaced_step(s, pos, pattern, content);
        lemma_kept_bytes(s, pos + 1, w, pattern, content);
        assert(s.subrange(pos, w) =~= seq![s[pos]] + s.subrange(pos + 1, w));
        assert(replaced_from(s, pos, pattern, content) =~= s.subrange(pos, w) + replaced_from(
            s,
            w,
            pattern,
            content,
        ));
    } else {
        assert(s.subrange(pos, w) =~= Seq::<u8>::empty());
    }
}

/// Making the marks of a text spaces changes no other character.
pub proof fn lemma_marks_made_spaces(chars: Seq<char>)
    ensures
        replaced(encode_utf8(chars), mark(), seq![0x20u8]) == encode_utf8(spaced(chars)),
    decreases chars.len(),
{
    let s = encode_utf8(chars);
    let space = seq![0x20u8];
    if chars.len() == 0 {
        assert(spaced(chars) =~= chars);
        lemma_replace(s, mark(), space, 0);
    } else {
        let rest = chars.drop_first();
        let one = encode_utf8(seq![chars[0]]);
        let w = one.len() as int;
        lemma_first_character(chars);
        lemma_marks_made_spaces(rest);
        lemma_mark_first(chars, 0);
        assert(spaced(chars) =~= spaced(seq![chars[0]]) + spaced(rest));
        lemma_encode_concat(spaced(seq![chars[0]]), spaced(rest));
        if chars[0] == '\u{2581}' {
            lemma_mark_char();
            assert(w == 3);
            lemma_replace(s, mark(), space, 0);
            assert(s.take(0) + space =~= space);
            assert(spaced(seq![chars[0]]) =~= seq![' ']);
            crate::text::lemma_ascii_text(0x20);
        } else {
            assert forall|i: int| 0 <= i < w implies !#[trigger] occurs_at(s, mark(), i) by {
                lemma_mark_first(chars, i);
            }
            lemma_kept_bytes(s, 0, w, mark(), space);
            assert(s.subrange(0, w) =~= one);
            crate::string_laws::lemma_replaced_in_rest(s, w, w, mark(), space);
            assert(spaced(seq![chars[0]]) =~= seq![chars[0]]);
        }
    }
}

/// What tokens of valid text decode to: the text with each mark made a space, without
/// the first character where that is then a space and encoding puts one there: where
/// the pre-tokenizer prepends, or a `Prepend` normalizer is among the steps.
pub proof fn lemma_decoded_text(m: SpModel, ids: Seq<TokenId>, chars: Seq<char>)
    requires
        m.raw_bytes(ids) == encode_utf8(chars),
    ensures
        ({
            let out = spaced(chars);
            let puts = (m.metaspace matches Some(ms) && ms.prepend != PrependScheme::Never)
                || exists|i: int| 0 <= i < m.steps.len() && (#[trigger] m.steps[i]) is Prepend;
            m.decoded(ids) == if puts && out.len() > 0 && out[0] == ' ' {
                encode_utf8(out.drop_first())
            } else {
                encode_utf8(out)
            }
        }),
{
    let out = spaced(chars);
    encode_utf8_valid_utf8(chars);
    lemma_marks_made_spaces(chars);
    let t = encode_utf8(out);
    if out.len() > 0 {
        lemma_first_character(out);
        if out[0] == ' ' {
            assert(t.skip(1) =~= encode_utf8(out.drop_first()));
        } else if t[0] == 0x20 {
            assert(out[0] <= '\u{7f}');
            assert(out[0] as int == 0x20);
        }
    } else {
        assert(t.len() == 0);
    }
}

/// Where one pair merges before another, the list of merges has it earlier.
pub proof fn lemma_merges_listed_by_rank(
    m: SpModel,
    pairs: Seq<(TokenId, TokenId)>,
    i: int,
    j: int,
)
    requires
        m.merge_order(pairs),
        0 <= i < pairs.len(),
        0 <= j < pairs.len(),
        m.rules[pairs[i]].1 < m.rules[pairs[j]].1,
    ensures
        i < j,
        m.rules.contains_key(pairs[i]),
{
    assert(pairs.contains(pairs[i]));
}

} // verus!
