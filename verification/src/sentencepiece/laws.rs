//! Laws: encoding unit by unit is encoding the whole, and decoding undoes it.

use vstd::prelude::*;
use vstd::utf8::{
    is_char_boundary_iff_not_is_continuation_byte, is_continuation_byte, length_of_first_scalar,
    pop_first_scalar, valid_first_scalar, valid_utf8, valid_utf8_concat, valid_utf8_split,
};

use crate::bpe::apart::{all_inked, lemma_merged_apart, nothing_spans, spans};
use crate::bpe::model::{joined, lemma_joined_concat, lemma_joined_one};
use crate::bpe::vocab::{
    decoded, in_vocab, lemma_decoded_concat, lemma_merged_in_vocab, lemma_merged_keeps_bytes,
    rules_keep_bytes,
};
use crate::pretokenize::cuts::{lemma_valid_utf8_walks, lemma_walk_forward, walks};
use crate::pretokenize::scan::{lead_width, width_at};
use crate::sentencepiece::model::{
    has_adjacent, mark, mark_char_at, mark_ends, mark_inside, mark_width, metaspaced, split_punct,
    steps_applied, NormStep, RawPrepend, SpModel, WordSplit,
};
use crate::search::{first_at, lemma_first_at};
use crate::seqs::occurs_at;
use crate::strings::{replaced, replaced_from};
use crate::token::TokenId;

verus! {

/// A text with its spaces made marks.
pub open spec fn marked(s: Seq<u8>) -> Seq<u8>
    decreases s.len(),
{
    if s.len() == 0 {
        Seq::empty()
    } else {
        marked(s.drop_last()) + if s.last() == 0x20 {
            mark()
        } else {
            seq![s.last()]
        }
    }
}

/// A text as it is in normalized mode.
pub open spec fn unmarked_as(s: Seq<u8>, raw: bool) -> Seq<u8> {
    if raw {
        marked(s)
    } else {
        s
    }
}

pub proof fn lemma_marked_concat(a: Seq<u8>, b: Seq<u8>)
    ensures
        marked(a + b) == marked(a) + marked(b),
    decreases b.len(),
{
    if b.len() == 0 {
        assert(a + b =~= a);
        assert(marked(a) + Seq::<u8>::empty() =~= marked(a));
    } else {
        lemma_marked_concat(a, b.drop_last());
        assert((a + b).drop_last() =~= a + b.drop_last());
        assert((a + b).last() == b.last());
        assert(marked(a + b) =~= marked(a) + marked(b));
    }
}

proof fn lemma_unmarked_concat(a: Seq<u8>, b: Seq<u8>, raw: bool)
    ensures
        unmarked_as(a + b, raw) == unmarked_as(a, raw) + unmarked_as(b, raw),
{
    lemma_marked_concat(a, b);
}

/// A text without spaces stays as it is.
pub proof fn lemma_marked_plain(s: Seq<u8>)
    requires
        forall|i: int| 0 <= i < s.len() ==> #[trigger] s[i] != 0x20,
    ensures
        marked(s) == s,
    decreases s.len(),
{
    if s.len() > 0 {
        let init = s.drop_last();
        assert forall|i: int| 0 <= i < init.len() implies #[trigger] init[i] != 0x20 by {
            assert(init[i] == s[i]);
        }
        lemma_marked_plain(init);
        assert(s[s.len() - 1] == s.last());
        assert(marked(s) =~= s);
    } else {
        assert(marked(s) =~= s);
    }
}

/// A space becomes one mark.
pub proof fn lemma_marked_space()
    ensures
        marked(seq![0x20u8]) == mark(),
{
    let one = seq![0x20u8];
    assert(one.drop_last() =~= Seq::<u8>::empty());
    assert(marked(one.drop_last()) =~= Seq::<u8>::empty());
    assert(Seq::<u8>::empty() + mark() =~= mark());
}

impl SpModel {
    /// Whether the initial symbols of a character stand for it.
    pub open spec fn char_decodes(self, ch: Seq<u8>) -> bool {
        &&& decoded(self.vocab, self.char_symbols(ch)) == ch
        &&& all_inked(self.vocab, self.char_symbols(ch))
        &&& in_vocab(self.vocab, self.char_symbols(ch))
    }

    /// Whether the initial symbols of each character of a text from `pos` on
    /// stand for it.
    pub open spec fn text_decodes(self, s: Seq<u8>, pos: int, raw: bool) -> bool
        decreases s.len() - pos,
    {
        if pos < 0 || pos >= s.len() || width_at(s, pos) < 1 {
            true
        } else {
            let w = width_at(s, pos);
            self.char_decodes(
                if raw && s[pos] == 0x20 {
                    mark()
                } else {
                    s.subrange(pos, pos + w)
                },
            ) && self.text_decodes(s, pos + w, raw)
        }
    }

    /// Whether each merge yields a piece of the vocabulary that is the pair's
    /// bytes and valid UTF-8.
    pub open spec fn merges_agree(self) -> bool {
        &&& rules_keep_bytes(self.rules, self.vocab)
        &&& forall|p: (TokenId, TokenId)| #[trigger]
            self.rules.contains_key(p) ==> self.rules[p].0.0 < self.vocab.len() && valid_utf8(
                self.vocab[self.rules[p].0.0 as int],
            )
    }
}

/// The first character of valid UTF-8.
pub proof fn lemma_first_char(s: Seq<u8>, pos: int)
    requires
        0 <= pos < s.len(),
        valid_utf8(s.skip(pos)),
    ensures
        1 <= width_at(s, pos) <= s.len() - pos,
        width_at(s, pos) == lead_width(s[pos]),
        valid_utf8(s.skip(pos + width_at(s, pos))),
        forall|i: int| pos < i < pos + width_at(s, pos) ==> is_continuation_byte(#[trigger] s[i]),
        !is_continuation_byte(s[pos]),
{
    let u = s.skip(pos);
    assert(valid_first_scalar(u));
    let n = length_of_first_scalar(u);
    assert(u[0] == s[pos]);
    assert(n == lead_width(s[pos]));
    assert(pop_first_scalar(u) =~= s.skip(pos + n));
    assert forall|i: int| pos < i < pos + n implies is_continuation_byte(#[trigger] s[i]) by {
        assert(u[i - pos] == s[i]);
        assert(is_continuation_byte(u[i - pos]));
    }
}

/// The initial symbols of a text stand for it.
proof fn lemma_symbols_decode(m: SpModel, s: Seq<u8>, pos: int, raw: bool)
    requires
        0 <= pos <= s.len(),
        valid_utf8(s.skip(pos)),
        m.text_decodes(s, pos, raw),
    ensures
        decoded(m.vocab, m.symbols_from(s, pos, raw)) == unmarked_as(s.skip(pos), raw),
        all_inked(m.vocab, m.symbols_from(s, pos, raw)),
        in_vocab(m.vocab, m.symbols_from(s, pos, raw)),
    decreases s.len() - pos,
{
    if pos < s.len() {
        lemma_first_char(s, pos);
        let w = width_at(s, pos);
        let ch = s.subrange(pos, pos + w);
        let c = if raw && s[pos] == 0x20 {
            mark()
        } else {
            ch
        };
        lemma_symbols_decode(m, s, pos + w, raw);
        lemma_decoded_concat(m.vocab, m.char_symbols(c), m.symbols_from(s, pos + w, raw));
        assert(s.skip(pos) =~= ch + s.skip(pos + w));
        lemma_unmarked_concat(ch, s.skip(pos + w), raw);
        assert(unmarked_as(ch, raw) == c) by {
            if raw {
                if s[pos] == 0x20 {
                    assert(ch =~= seq![0x20u8]);
                    lemma_marked_space();
                } else {
                    assert forall|i: int| 0 <= i < ch.len() implies #[trigger] ch[i] != 0x20 by {
                        assert(ch[i] == s[pos + i]);
                    }
                    lemma_marked_plain(ch);
                }
            }
        }
        let a = m.char_symbols(c);
        let b = m.symbols_from(s, pos + w, raw);
        assert forall|i: int| 0 <= i < (a + b).len() implies m.vocab[(#[trigger] (a + b)[i]).0 as int].len()
            > 0 by {
            if i >= a.len() {
                assert((a + b)[i] == b[i - a.len()]);
            }
        }
    } else {
        assert(s.skip(pos) =~= Seq::<u8>::empty());
        assert(marked(s.skip(pos)) =~= Seq::<u8>::empty());
    }
}

/// The symbols of a text from a character on are those of the text that starts
/// there.
pub proof fn lemma_symbols_suffix(m: SpModel, s: Seq<u8>, p: int, k: int, raw: bool)
    requires
        0 <= p <= s.len(),
        0 <= k <= s.len() - p,
    ensures
        m.symbols_from(s.skip(p), k, raw) == m.symbols_from(s, p + k, raw),
        m.text_decodes(s.skip(p), k, raw) == m.text_decodes(s, p + k, raw),
    decreases s.len() - p - k,
{
    let u = s.skip(p);
    if k < u.len() {
        let w = width_at(u, k);
        assert(u[k] == s[p + k]);
        assert(w == width_at(s, p + k));
        if w >= 1 {
            assert(u.subrange(k, k + w) =~= s.subrange(p + k, p + k + w));
            lemma_symbols_suffix(m, s, p, k + w, raw);
        }
    }
}

/// The symbols of a text are those of its parts, where a walk comes to the cut.
proof fn lemma_symbols_split(m: SpModel, s: Seq<u8>, pos: int, p: int, raw: bool)
    requires
        0 <= pos <= p <= s.len(),
        walks(s, pos, p),
    ensures
        m.symbols_from(s, pos, raw) == m.symbols_from(s.take(p), pos, raw) + m.symbols_from(
            s,
            p,
            raw,
        ),
        m.text_decodes(s, pos, raw) == (m.text_decodes(s.take(p), pos, raw) && m.text_decodes(
            s,
            p,
            raw,
        )),
    decreases p - pos,
{
    let t = s.take(p);
    if pos < p {
        let w = width_at(s, pos);
        assert(t[pos] == s[pos]);
        lemma_walk_forward(s, pos + w, p);
        assert(width_at(t, pos) == w);
        assert(t.subrange(pos, pos + w) =~= s.subrange(pos, pos + w));
        lemma_symbols_split(m, s, pos + w, p, raw);
        assert(m.symbols_from(s, pos, raw) =~= m.symbols_from(t, pos, raw) + m.symbols_from(
            s,
            p,
            raw,
        ));
    } else {
        assert(m.symbols_from(t, p, raw) =~= Seq::<TokenId>::empty());
        assert(m.symbols_from(s, p, raw) =~= m.symbols_from(t, p, raw) + m.symbols_from(
            s,
            p,
            raw,
        ));
    }
}

/// The last bytes of a marked text: a mark where the text ends with one.
proof fn lemma_marked_end(s: Seq<u8>, raw: bool)
    requires
        s.len() > 0,
    ensures
        unmarked_as(s, raw).len() > 0,
        unmarked_as(s, raw).last() == if raw && s.last() == 0x20 {
            0x81
        } else {
            s.last()
        },
        unmarked_as(s, raw).len() >= 3 && mark_char_at(
            unmarked_as(s, raw),
            unmarked_as(s, raw).len() - 3,
        ) ==> mark_ends(s, s.len() as int, raw),
    decreases s.len(),
{
    if raw && s.last() != 0x20 {
        let t = marked(s);
        let n = s.len() as int;
        let a = s.drop_last();
        if t.len() >= 3 && mark_char_at(t, t.len() - 3) {
            assert(t.last() == s.last());
            if a.len() > 0 {
                let ta = marked(a);
                assert(t[t.len() - 2] == ta.last());
                lemma_marked_end(a, raw);
                if a.last() != 0x20 {
                    let b = a.drop_last();
                    if b.len() > 0 {
                        let tb = marked(b);
                        assert(ta =~= tb + seq![a.last()]);
                        assert(t[t.len() - 3] == tb.last());
                        lemma_marked_end(b, raw);
                        assert(s[n - 1] == 0x81 && s[n - 2] == 0x96 && s[n - 3] == b.last());
                    } else {
                        assert(marked(b) =~= Seq::<u8>::empty());
                    }
                }
            } else {
                assert(marked(a) =~= Seq::<u8>::empty());
            }
        }
    }
}

/// A text that starts with a mark does so when it is marked.
proof fn lemma_marked_start(s: Seq<u8>, raw: bool)
    requires
        mark_width(s, 0, raw) > 0,
        s.len() > 0,
    ensures
        mark_char_at(unmarked_as(s, raw), 0),
{
    if raw {
        if s[0] == 0x20 {
            assert(s =~= seq![0x20u8] + s.skip(1));
            lemma_marked_concat(seq![0x20u8], s.skip(1));
            lemma_marked_space();
        } else {
            assert(s.take(3) =~= mark());
            assert(s =~= mark() + s.skip(3));
            lemma_marked_concat(mark(), s.skip(3));
            lemma_marked_plain(mark());
        }
    }
}

/// A text that starts with another byte than a space does so when it is marked.
proof fn lemma_marked_first(s: Seq<u8>, raw: bool)
    requires
        s.len() > 0,
        s[0] != 0x20,
    ensures
        unmarked_as(s, raw).len() > 0,
        unmarked_as(s, raw)[0] == s[0],
{
    if raw {
        assert(s =~= seq![s[0]] + s.skip(1));
        lemma_marked_concat(seq![s[0]], s.skip(1));
        lemma_marked_plain(seq![s[0]]);
    }
}

/// A piece with a mark at `i` behind a character that is none has one inside.
proof fn lemma_mark_inside(piece: Seq<u8>, j: int, i: int, prev: bool)
    requires
        0 <= j < i,
        walks(piece, j, i),
        mark_char_at(piece, i),
        !mark_char_at(piece, i - 3),
    ensures
        mark_inside(piece, j, prev),
    decreases i - j,
{
    let w = width_at(piece, j);
    lemma_walk_forward(piece, j + w, i);
    if mark_char_at(piece, j) {
        assert(w == 3);
        lemma_mark_inside(piece, j + 3, i, true);
        assert(mark_inside(piece, j, prev));
    } else if j + w < i {
        lemma_mark_inside(piece, j + w, i, false);
        assert(mark_inside(piece, j, prev));
    } else {
        assert(width_at(piece, i) == 3);
        assert(mark_inside(piece, i, false));
        assert(mark_inside(piece, j, prev) == mark_inside(piece, j + w, false));
    }
}

/// No rule yields a piece that spans the end of a unit.
proof fn lemma_nothing_spans_unit(
    m: SpModel,
    s: Seq<u8>,
    left: Seq<u8>,
    p: int,
    raw: bool,
)
    requires
        m.word_split() != WordSplit::Whole,
        m.merges_agree(),
        m.unit_ends(s, p, raw),
        mark_width(s, p, raw) > 0 ==> m.word_split() == WordSplit::SpaceRuns,
        left.len() > 0,
        left.last() == s[p - 1],
        mark_ends(left, left.len() as int, raw) ==> mark_ends(s, p, raw),
    ensures
        nothing_spans(m.rules, m.vocab, unmarked_as(left, raw), unmarked_as(s.skip(p), raw)),
{
    let right = s.skip(p);
    let a = unmarked_as(left, raw);
    let b = unmarked_as(right, raw);
    assert(right[0] == s[p]);
    lemma_marked_end(left, raw);
    assert forall|q: (TokenId, TokenId)| #[trigger] m.rules.contains_key(q) implies !spans(
        m.vocab[m.rules[q].0.0 as int],
        a,
        b,
    ) by {
        let k = m.rules[q].0.0 as int;
        let piece = m.vocab[k];
        if spans(piece, a, b) {
            let i = choose|i: int|
                0 < i < piece.len() && i <= a.len() && piece.len() - i <= b.len()
                    && #[trigger] piece.take(i) == a.skip(a.len() - i) && piece.skip(i) == b.take(
                    piece.len() - i,
                );
            assert(piece[i - 1] == piece.take(i)[i - 1]);
            assert(piece[i - 1] == a.last());
            assert(piece[i] == piece.skip(i)[0]);
            assert(piece[i] == b[0]);
            if mark_width(s, p, raw) > 0 {
                assert(mark_width(right, 0, raw) > 0);
                lemma_marked_start(right, raw);
                assert(piece[i] == 0xE2);
                is_char_boundary_iff_not_is_continuation_byte(piece, i);
                valid_utf8_split(piece, i);
                assert(piece.subrange(i, piece.len() as int) =~= piece.skip(i));
                lemma_first_char(piece, i);
                assert(width_at(piece, i) == 3);
                assert(piece[i + 1] == piece.skip(i)[1] && piece[i + 2] == piece.skip(i)[2]);
                assert(piece.skip(i)[1] == b[1] && piece.skip(i)[2] == b[2]);
                assert(mark_char_at(piece, i));
                lemma_valid_utf8_walks(piece, i);
                if mark_char_at(piece, i - 3) {
                    assert(piece[i - 3] == piece.take(i)[i - 3]);
                    assert(piece[i - 2] == piece.take(i)[i - 2]);
                    assert(a[a.len() - 3] == piece[i - 3]);
                    assert(a[a.len() - 2] == piece[i - 2]);
                    assert(mark_char_at(a, a.len() - 3));
                }
                lemma_mark_inside(piece, 0, i, true);
                assert(m.units_merge_safe());
                assert(valid_utf8(m.vocab[k]));
            } else {
                assert(split_punct(s[p]));
                lemma_marked_first(right, raw);
                let x = if raw && s[p - 1] == 0x20 {
                    0x81
                } else {
                    s[p - 1]
                };
                assert(piece[i - 1] == x && piece[i] == s[p]);
                assert(has_adjacent(piece, x, s[p]));
                assert(m.split_safe(x, s[p]));
                assert(!has_adjacent(m.vocab[k], x, s[p]));
            }
        }
    }
}

/// A text that no rule's piece spans at `l` merges apart there.
proof fn lemma_cut_apart(m: SpModel, w: Seq<u8>, l: int, raw: bool)
    requires
        m.merges_agree(),
        valid_utf8(w),
        m.text_decodes(w, 0, raw),
        0 < l < w.len(),
        !is_continuation_byte(w[l]),
        nothing_spans(
            m.rules,
            m.vocab,
            unmarked_as(w.take(l), raw),
            unmarked_as(w.skip(l), raw),
        ),
    ensures
        m.unit_tokens(w, raw) == m.unit_tokens(w.take(l), raw) + m.unit_tokens(w.skip(l), raw),
        valid_utf8(w.take(l)),
        valid_utf8(w.skip(l)),
        m.text_decodes(w.take(l), 0, raw),
        m.text_decodes(w.skip(l), 0, raw),
{
    let a = w.take(l);
    let b = w.skip(l);
    is_char_boundary_iff_not_is_continuation_byte(w, l);
    valid_utf8_split(w, l);
    assert(w.subrange(0, l) =~= a);
    assert(w.subrange(l, w.len() as int) =~= b);
    lemma_valid_utf8_walks(w, l);
    lemma_symbols_split(m, w, 0, l, raw);
    lemma_symbols_suffix(m, w, l, 0, raw);
    assert(a.skip(0) =~= a);
    assert(b.skip(0) =~= b);
    lemma_symbols_decode(m, a, 0, raw);
    lemma_symbols_decode(m, b, 0, raw);
    lemma_merged_apart(m.rules, m.vocab, m.symbols_from(a, 0, raw), m.symbols_from(b, 0, raw));
}

/// Units with `pre` before the first.
spec fn prefixed(units: Seq<Seq<u8>>, pre: Seq<u8>) -> Seq<Seq<u8>> {
    units.update(0, pre + units[0])
}

/// The units of a text from `start` on, with `pre` before the first, merge to
/// what the whole of it merges to.
proof fn lemma_units_merge(m: SpModel, s: Seq<u8>, start: int, p: int, pre: Seq<u8>, raw: bool)
    requires
        m.word_split() == WordSplit::SpaceRuns,
        m.merges_agree(),
        0 <= start <= p <= s.len(),
        start < s.len(),
        start == p ==> p == 0,
        pre.len() == 0 || (raw && pre == seq![0x20u8]),
        valid_utf8(pre + s.skip(start)),
        m.text_decodes(pre + s.skip(start), 0, raw),
    ensures
        m.units_from(s, start, p, raw).len() > 0,
        joined(m.unit_pieces(prefixed(m.units_from(s, start, p, raw), pre), raw)) == m.unit_tokens(
            pre + s.skip(start),
            raw,
        ),
    decreases s.len() - p,
{
    let w = pre + s.skip(start);
    let units = m.units_from(s, start, p, raw);
    if p >= s.len() {
        assert(units =~= seq![s.skip(start)]);
        assert(m.unit_pieces(prefixed(units, pre), raw) =~= seq![m.unit_tokens(w, raw)]);
        lemma_joined_one(m.unit_tokens(w, raw));
    } else if m.unit_ends(s, p, raw) {
        let left = pre + s.subrange(start, p);
        let l = left.len() as int;
        let right = s.skip(p);
        assert(w.take(l) =~= left);
        assert(w.skip(l) =~= right);
        assert(w[l] == s[p]);
        assert(left.last() == s[p - 1]);
        assert(mark_ends(left, l, raw) ==> mark_ends(s, p, raw)) by {
            if mark_char_at(left, l - 3) {
                let u = s.subrange(start, p);
                if u.len() >= 3 {
                    assert(left[l - 3] == s[p - 3]);
                    assert(left[l - 2] == s[p - 2]);
                } else {
                    assert(left[0] == pre[0]);
                }
            }
        }
        lemma_nothing_spans_unit(m, s, left, p, raw);
        lemma_cut_apart(m, w, l, raw);
        let none = Seq::<u8>::empty();
        assert(none + right =~= right);
        lemma_units_merge(m, s, p, p + 1, none, raw);
        let rest = m.units_from(s, p, p + 1, raw);
        assert(none + rest[0] =~= rest[0]);
        assert(prefixed(rest, none) =~= rest);
        assert(m.unit_pieces(prefixed(units, pre), raw) =~= seq![m.unit_tokens(left, raw)]
            + m.unit_pieces(rest, raw));
        lemma_joined_concat(seq![m.unit_tokens(left, raw)], m.unit_pieces(rest, raw));
        lemma_joined_one(m.unit_tokens(left, raw));
    } else {
        lemma_units_merge(m, s, start, p + 1, pre, raw);
    }
}

/// Where no vocab piece has a mark behind another char, encoding a text unit by
/// unit gives what merging it as a whole gives, with or without a space put
/// before it.
pub proof fn lemma_units_merge_as_whole(m: SpModel, s: Seq<u8>, virtual_prefix: bool, raw: bool)
    requires
        m.word_split() == WordSplit::SpaceRuns,
        m.merges_agree(),
        s.len() > 0,
        valid_utf8(s),
        m.text_decodes(s, 0, raw),
        virtual_prefix ==> raw && m.char_decodes(mark()),
    ensures
        joined(m.chunk_pieces(s, virtual_prefix, raw)) == m.unit_tokens(
            if virtual_prefix {
                seq![0x20u8] + s
            } else {
                s
            },
            raw,
        ),
{
    let pre = if virtual_prefix {
        seq![0x20u8]
    } else {
        Seq::empty()
    };
    let w = pre + s;
    assert(s.skip(0) =~= s);
    lemma_prefix_decodes(m, s, virtual_prefix, raw);
    lemma_units_merge(m, s, 0, 0, pre, raw);
    let units = m.units_from(s, 0, 0, raw);
    if !virtual_prefix {
        assert(w =~= s);
        assert(pre + units[0] =~= units[0]);
        assert(prefixed(units, pre) =~= units);
    }
}

/// A text with a space before it is valid where the text is.
proof fn lemma_prefix_decodes(m: SpModel, s: Seq<u8>, virtual_prefix: bool, raw: bool)
    requires
        valid_utf8(s),
        m.text_decodes(s, 0, raw),
        virtual_prefix ==> raw && m.char_decodes(mark()),
    ensures
        ({
            let pre = if virtual_prefix {
                seq![0x20u8]
            } else {
                Seq::empty()
            };
            valid_utf8(pre + s) && m.text_decodes(pre + s, 0, raw)
        }),
{
    if virtual_prefix {
        let pre = seq![0x20u8];
        let w = pre + s;
        assert(pop_first_scalar(pre) =~= Seq::<u8>::empty());
        assert(valid_utf8(Seq::<u8>::empty()));
        assert(valid_first_scalar(pre));
        assert(valid_utf8(pre));
        valid_utf8_concat(pre, s);
        assert(w.skip(1) =~= s);
        lemma_symbols_suffix(m, w, 1, 0, raw);
        assert(w[0] == 0x20);
        assert(width_at(w, 0) == 1);
    } else {
        assert(Seq::<u8>::empty() + s =~= s);
    }
}

/// Replacing each space with a mark is marking.
pub proof fn lemma_replaced_is_marked(s: Seq<u8>, pos: int)
    requires
        0 <= pos <= s.len(),
    ensures
        replaced_from(s, pos, seq![0x20u8], mark()) == marked(s.skip(pos)),
    decreases s.len() - pos,
{
    let pattern = seq![0x20u8];
    let rest = s.skip(pos);
    lemma_first_at(s, pattern, pos);
    assert forall|i: int| pos <= i < s.len() && s[i] == 0x20 implies occurs_at(
        s,
        pattern,
        i,
    ) by {
        assert(s.subrange(i, i + 1) =~= pattern);
    }
    match first_at(s, pattern, pos) {
        Some(at) => {
            let head = s.subrange(pos, at);
            assert(s[at] == s.subrange(at, at + 1)[0]);
            assert(rest =~= head + pattern + s.skip(at + 1));
            lemma_marked_concat(head + pattern, s.skip(at + 1));
            lemma_marked_concat(head, pattern);
            lemma_marked_space();
            assert forall|i: int| 0 <= i < head.len() implies #[trigger] head[i] != 0x20 by {
                assert(head[i] == s[pos + i]);
            }
            lemma_marked_plain(head);
            lemma_replaced_is_marked(s, at + 1);
        },
        None => {
            assert forall|i: int| 0 <= i < rest.len() implies #[trigger] rest[i] != 0x20 by {
                assert(rest[i] == s[pos + i]);
            }
            lemma_marked_plain(rest);
        },
    }
}

/// A marked text has no spaces.
proof fn lemma_marked_no_space(s: Seq<u8>, i: int)
    requires
        0 <= i < marked(s).len(),
    ensures
        marked(s)[i] != 0x20,
    decreases s.len(),
{
    let init = marked(s.drop_last());
    if i < init.len() {
        lemma_marked_no_space(s.drop_last(), i);
    }
}

/// What a marked text starts with.
pub proof fn lemma_mark_at_start(s: Seq<u8>)
    requires
        s.len() > 0,
    ensures
        mark_char_at(marked(s), 0) == (mark_width(s, 0, true) > 0),
        marked(s).len() > 0,
        s[0] != 0x20 ==> marked(s)[0] == s[0],
        s[0] == 0x20 ==> marked(s)[0] == 0xE2,
{
    if mark_width(s, 0, true) > 0 {
        lemma_marked_start(s, true);
        if s[0] != 0x20 {
            lemma_marked_first(s, true);
        }
    } else {
        lemma_marked_first(s, true);
        if mark_char_at(marked(s), 0) {
            let s1 = s.skip(1);
            assert(s =~= seq![s[0]] + s1);
            lemma_marked_concat(seq![s[0]], s1);
            lemma_marked_plain(seq![s[0]]);
            let m1 = marked(s1);
            assert(marked(s)[1] == m1[0]);
            if s1.len() == 0 {
                assert(marked(s1) =~= Seq::<u8>::empty());
            } else if s1[0] == 0x20 {
                lemma_marked_start(s1, true);
            } else {
                lemma_marked_first(s1, true);
                let s2 = s1.skip(1);
                assert(s1 =~= seq![s1[0]] + s2);
                lemma_marked_concat(seq![s1[0]], s2);
                lemma_marked_plain(seq![s1[0]]);
                assert(marked(s)[2] == marked(s2)[0]);
                if s2.len() == 0 {
                    assert(marked(s2) =~= Seq::<u8>::empty());
                } else if s2[0] == 0x20 {
                    lemma_marked_start(s2, true);
                } else {
                    lemma_marked_first(s2, true);
                    assert(s[1] == s1[0] && s[2] == s2[0]);
                }
            }
        }
    }
}

/// A text that ends with a mark does so when it is marked.
proof fn lemma_mark_at_end(s: Seq<u8>)
    requires
        s.len() > 0,
        mark_ends(s, s.len() as int, true),
    ensures
        mark_char_at(marked(s), marked(s).len() - 3),
{
    let n = s.len() as int;
    if s.last() != 0x20 {
        let head = s.take(n - 3);
        let tail = s.skip(n - 3);
        assert(tail =~= mark());
        assert(s =~= head + tail);
        lemma_marked_concat(head, tail);
        lemma_marked_plain(mark());
    }
}

/// Units end where they end in the marked text.
proof fn lemma_unit_ends_marked(m: SpModel, s: Seq<u8>, p: int)
    requires
        0 < p < s.len(),
    ensures
        marked(s) == marked(s.take(p)) + marked(s.skip(p)),
        0 < marked(s.take(p)).len() < marked(s).len(),
        m.unit_ends(s, p, true) == m.unit_ends(marked(s), marked(s.take(p)).len() as int, false),
{
    let a = s.take(p);
    let b = s.skip(p);
    let ma = marked(a);
    let mb = marked(b);
    let t = marked(s);
    let q = ma.len() as int;
    assert(s =~= a + b);
    lemma_marked_concat(a, b);
    assert(b[0] == s[p]);
    lemma_mark_at_start(b);
    lemma_marked_end(a, true);
    assert(a.last() == s[p - 1]);
    assert(mark_width(b, 0, true) == mark_width(s, p, true));
    assert(t[q] == mb[0]);
    assert(mark_char_at(t, q) == mark_char_at(mb, 0)) by {
        if q + 3 <= t.len() {
            assert(t[q + 1] == mb[1] && t[q + 2] == mb[2]);
        }
    }
    assert(mark_ends(a, p, true) == mark_ends(s, p, true)) by {
        if p >= 3 {
            assert(a[p - 3] == s[p - 3] && a[p - 2] == s[p - 2] && a[p - 1] == s[p - 1]);
        }
    }
    assert(mark_char_at(t, q - 3) == mark_char_at(ma, q - 3)) by {
        if q >= 3 {
            assert(t[q - 3] == ma[q - 3] && t[q - 2] == ma[q - 2] && t[q - 1] == ma[q - 1]);
        }
    }
    if mark_ends(a, p, true) {
        lemma_mark_at_end(a);
    }
    assert(mark_ends(t, q, false) == mark_ends(s, p, true));
    assert(t[q - 1] == ma.last());
}

/// No unit ends inside a mark.
proof fn lemma_no_end_inside_mark(m: SpModel, t: Seq<u8>, start: int, p: int)
    requires
        0 <= p,
        p + 3 <= t.len(),
        t[p + 1] == 0x96,
        t[p + 2] == 0x81,
    ensures
        m.units_from(t, start, p + 1, false) == m.units_from(t, start, p + 3, false),
{
    assert(!m.unit_ends(t, p + 1, false));
    assert(!m.unit_ends(t, p + 2, false));
    assert(m.units_from(t, start, p + 1, false) == m.units_from(t, start, p + 2, false));
    assert(m.units_from(t, start, p + 2, false) == m.units_from(t, start, p + 3, false));
}

/// The units of the marked text are the units of the text, marked.
#[verifier::rlimit(60)]
#[verifier::spinoff_prover]
proof fn lemma_units_marked(m: SpModel, s: Seq<u8>, start: int, p: int)
    requires
        0 <= start <= p <= s.len(),
    ensures
        m.units_from(
            marked(s),
            marked(s.take(start)).len() as int,
            marked(s.take(p)).len() as int,
            false,
        ) == m.units_from(s, start, p, true).map_values(|u: Seq<u8>| marked(u)),
    decreases s.len() - p,
{
    let t = marked(s);
    let f = |u: Seq<u8>| marked(u);
    let ms = marked(s.take(start)).len() as int;
    let mp = marked(s.take(p)).len() as int;
    assert(s =~= s.take(start) + s.skip(start));
    lemma_marked_concat(s.take(start), s.skip(start));
    assert(t.skip(ms) =~= marked(s.skip(start)));
    if p >= s.len() {
        assert(s.take(p) =~= s);
        if start < s.len() {
            lemma_mark_at_start(s.skip(start));
            assert(seq![s.skip(start)].map_values(f) =~= seq![marked(s.skip(start))]);
        } else {
            assert(s.take(start) =~= s);
            assert(Seq::<Seq<u8>>::empty().map_values(f) =~= Seq::<Seq<u8>>::empty());
        }
    } else {
        let b = s.skip(p);
        assert(s =~= s.take(p) + b);
        lemma_marked_concat(s.take(p), b);
        lemma_mark_at_start(b);
        if p > 0 {
            lemma_unit_ends_marked(m, s, p);
        } else {
            assert(s.take(p) =~= Seq::<u8>::empty());
        }
        assert(m.unit_ends(t, mp, false) == m.unit_ends(s, p, true));
        let from = if m.unit_ends(s, p, true) {
            p
        } else {
            start
        };
        lemma_units_marked(m, s, from, p + 1);
        let mf = marked(s.take(from)).len() as int;
        let mq = marked(s.take(p + 1)).len() as int;
        assert(s.take(p + 1) =~= s.take(p) + seq![s[p]]);
        lemma_marked_concat(s.take(p), seq![s[p]]);
        assert(m.units_from(t, mf, mp + 1, false) == m.units_from(t, mf, mq, false)) by {
            if s[p] == 0x20 {
                lemma_marked_space();
                assert(b =~= seq![0x20u8] + b.skip(1));
                lemma_marked_concat(seq![0x20u8], b.skip(1));
                assert(t[mp + 1] == marked(b)[1] && t[mp + 2] == marked(b)[2]);
                assert(marked(b)[1] == 0x96 && marked(b)[2] == 0x81);
                lemma_no_end_inside_mark(m, t, mf, mp);
            } else {
                lemma_marked_plain(seq![s[p]]);
            }
        }
        if m.unit_ends(s, p, true) {
            let mid = s.subrange(start, p);
            assert(s.take(p) =~= s.take(start) + mid);
            lemma_marked_concat(s.take(start), mid);
            assert(t.subrange(ms, mp) =~= marked(mid));
            let rest = m.units_from(s, p, p + 1, true);
            assert((seq![mid] + rest).map_values(f) =~= seq![marked(mid)] + rest.map_values(f));
        }
    }
}

/// The symbols of the marked text are those of the text in raw mode.
proof fn lemma_symbols_marked(m: SpModel, s: Seq<u8>)
    requires
        valid_utf8(s),
    ensures
        m.symbols_from(marked(s), 0, false) == m.symbols_from(s, 0, true),
    decreases s.len(),
{
    if s.len() == 0 {
        assert(marked(s) =~= Seq::<u8>::empty());
    } else {
        assert(s.skip(0) =~= s);
        lemma_first_char(s, 0);
        let w = width_at(s, 0);
        let ch = s.subrange(0, w);
        let rest = s.skip(w);
        lemma_symbols_marked(m, rest);
        lemma_symbols_suffix(m, s, w, 0, true);
        assert(s =~= ch + rest);
        lemma_marked_concat(ch, rest);
        let c = if s[0] == 0x20 {
            mark()
        } else {
            ch
        };
        if s[0] == 0x20 {
            assert(ch =~= seq![0x20u8]);
            lemma_marked_space();
        } else {
            assert forall|i: int| 0 <= i < ch.len() implies #[trigger] ch[i] != 0x20 by {
                assert(ch[i] == s[i]);
            }
            lemma_marked_plain(ch);
        }
        let t = marked(s);
        assert(t == c + marked(rest));
        assert(t[0] == c[0]);
        assert(width_at(t, 0) == c.len());
        assert(t.subrange(0, c.len() as int) =~= c);
        assert(t.skip(c.len() as int) =~= marked(rest));
        lemma_symbols_suffix(m, t, c.len() as int, 0, false);
    }
}

/// The units of valid UTF-8 are valid.
proof fn lemma_units_valid(m: SpModel, s: Seq<u8>, start: int, p: int, raw: bool)
    requires
        0 <= start <= p <= s.len(),
        valid_utf8(s.skip(start)),
    ensures
        forall|i: int|
            0 <= i < m.units_from(s, start, p, raw).len() ==> valid_utf8(
                #[trigger] m.units_from(s, start, p, raw)[i],
            ),
    decreases s.len() - p,
{
    if p < s.len() {
        if m.unit_ends(s, p, raw) {
            let u = s.skip(start);
            if start < p {
                assert(u[p - start] == s[p]);
                is_char_boundary_iff_not_is_continuation_byte(u, p - start);
                valid_utf8_split(u, p - start);
                assert(u.subrange(p - start, u.len() as int) =~= s.skip(p));
                assert(u.subrange(0, p - start) =~= s.subrange(start, p));
            } else {
                assert(s.subrange(start, p) =~= Seq::<u8>::empty());
                assert(valid_utf8(Seq::<u8>::empty()));
            }
            lemma_units_valid(m, s, p, p + 1, raw);
            let rest = m.units_from(s, p, p + 1, raw);
            assert forall|i: int| 0 <= i < rest.len() + 1 implies valid_utf8(
                #[trigger] m.units_from(s, start, p, raw)[i],
            ) by {
                if i > 0 {
                    assert(m.units_from(s, start, p, raw)[i] == rest[i - 1]);
                }
            }
        } else {
            lemma_units_valid(m, s, start, p + 1, raw);
            assert(m.units_from(s, start, p, raw) == m.units_from(s, start, p + 1, raw));
        }
    }
}

/// Raw mode gives for a text what normalized mode gives for the marked text.
pub proof fn lemma_raw_is_marked(m: SpModel, s: Seq<u8>)
    requires
        valid_utf8(s),
    ensures
        m.chunk_pieces(s, false, true) == m.chunk_pieces(marked(s), false, false),
{
    let f = |u: Seq<u8>| marked(u);
    let units = m.units_from(s, 0, 0, true);
    assert(s.take(0) =~= Seq::<u8>::empty());
    assert(marked(s.take(0)) =~= Seq::<u8>::empty());
    lemma_units_marked(m, s, 0, 0);
    assert(s.skip(0) =~= s);
    lemma_units_valid(m, s, 0, 0, true);
    let raw = m.unit_pieces(units, true);
    let normal = m.unit_pieces(units.map_values(f), false);
    assert forall|i: int| 0 <= i < units.len() implies raw[i] == normal[i] by {
        assert(valid_utf8(units[i]));
        lemma_symbols_marked(m, units[i]);
    }
    assert(raw =~= normal);
}

/// Behind a space, units end where they end without it.
proof fn lemma_unit_ends_shift(m: SpModel, s: Seq<u8>, p: int)
    requires
        1 <= p < s.len(),
    ensures
        m.unit_ends(seq![0x20u8] + s, p + 1, true) == m.unit_ends(s, p, true),
{
    let t = seq![0x20u8] + s;
    assert forall|i: int| 0 <= i < s.len() implies t[i + 1] == #[trigger] s[i] by {}
    assert(mark_width(t, p + 1, true) == mark_width(s, p, true)) by {
        assert(t[p + 1] == s[p]);
        if p + 3 <= s.len() {
            assert(t[p + 2] == s[p + 1] && t[p + 3] == s[p + 2]);
        }
    }
    assert(t[p] == s[p - 1]);
    assert(mark_ends(t, p + 1, true) == mark_ends(s, p, true)) by {
        if p >= 3 {
            assert(t[p - 2] == s[p - 3] && t[p - 1] == s[p - 2]);
        } else if p == 2 {
            assert(t[0] == 0x20);
        }
    }
}

/// Behind a space, the units behind the first stay.
proof fn lemma_units_shift(m: SpModel, s: Seq<u8>, start: int, p: int)
    requires
        0 <= start <= p <= s.len(),
        1 <= p,
    ensures
        m.units_from(seq![0x20u8] + s, start + 1, p + 1, true) == m.units_from(s, start, p, true),
        start == 0 && s.len() > 0 ==> m.units_from(s, 0, p, true).len() > 0 && m.units_from(
            seq![0x20u8] + s,
            0,
            p + 1,
            true,
        ) == prefixed(m.units_from(s, 0, p, true), seq![0x20u8]),
    decreases s.len() - p,
{
    let pre = seq![0x20u8];
    let t = pre + s;
    if p >= s.len() {
        assert(t.skip(start + 1) =~= s.skip(start));
        if start == 0 {
            assert(t.skip(0) =~= pre + s.skip(0));
            assert(prefixed(seq![s.skip(0)], pre) =~= seq![pre + s.skip(0)]);
        }
    } else {
        lemma_unit_ends_shift(m, s, p);
        if m.unit_ends(s, p, true) {
            lemma_units_shift(m, s, p, p + 1);
            assert(t.subrange(start + 1, p + 1) =~= s.subrange(start, p));
            if start == 0 {
                let rest = m.units_from(s, p, p + 1, true);
                assert(t.subrange(0, p + 1) =~= pre + s.subrange(0, p));
                assert(prefixed(seq![s.subrange(0, p)] + rest, pre) =~= seq![pre + s.subrange(0, p)]
                    + rest);
            }
        } else {
            lemma_units_shift(m, s, start, p + 1);
        }
    }
}

/// The first unit is a prefix of the text.
proof fn lemma_first_unit(m: SpModel, s: Seq<u8>, p: int, raw: bool) -> (e: int)
    requires
        0 <= p <= s.len(),
        s.len() > 0,
    ensures
        0 < e <= s.len(),
        m.units_from(s, 0, p, raw).len() > 0,
        m.units_from(s, 0, p, raw)[0] == s.take(e),
        e < s.len() ==> m.unit_ends(s, e, raw),
    decreases s.len() - p,
{
    if p >= s.len() {
        assert(s.skip(0) =~= s.take(s.len() as int));
        s.len() as int
    } else if m.unit_ends(s, p, raw) {
        assert(s.subrange(0, p) =~= s.take(p));
        p
    } else {
        lemma_first_unit(m, s, p + 1, raw)
    }
}

/// A space put before a chunk gives what the chunk with the space gives.
proof fn lemma_virtual_prefix(m: SpModel, s: Seq<u8>)
    requires
        m.word_split() != WordSplit::Whole,
        m.word_split() == WordSplit::EveryMark ==> mark_width(s, 0, true) == 0,
        m.merges_agree(),
        s.len() > 0,
        valid_utf8(s),
        m.text_decodes(s, 0, true),
        m.char_decodes(mark()),
    ensures
        joined(m.chunk_pieces(s, true, true)) == joined(
            m.chunk_pieces(seq![0x20u8] + s, false, true),
        ),
{
    let pre = seq![0x20u8];
    let t = pre + s;
    let units = m.units_from(s, 0, 0, true);
    assert(units == m.units_from(s, 0, 1, true));
    lemma_units_shift(m, s, 0, 1);
    assert(t[1] == s[0]);
    assert(mark_width(t, 1, true) == mark_width(s, 0, true)) by {
        if s.len() >= 3 {
            assert(t[2] == s[1] && t[3] == s[2]);
        }
    }
    assert(m.units_from(t, 0, 0, true) == m.units_from(t, 0, 1, true));
    if m.unit_ends(t, 1, true) {
        assert(mark_ends(t, 1, true));
        assert(mark_width(s, 0, true) == 0);
        let e = lemma_first_unit(m, s, 1, true);
        let u = units[0];
        let w = pre + u;
        if e < s.len() {
            assert(!is_continuation_byte(s[e]));
            is_char_boundary_iff_not_is_continuation_byte(s, e);
            valid_utf8_split(s, e);
            assert(s.subrange(0, e) =~= u);
            lemma_valid_utf8_walks(s, e);
            lemma_symbols_split(m, s, 0, e, true);
        } else {
            assert(u =~= s);
        }
        lemma_prefix_decodes(m, u, true, true);
        assert(w.take(1) =~= pre);
        assert(w.skip(1) =~= u);
        assert(w[1] == s[0]);
        assert(mark_width(w, 1, true) == 0) by {
            if w.len() >= 4 {
                assert(w[2] == s[1] && w[3] == s[2]);
            }
        }
        assert(w[0] == t[0]);
        assert(m.unit_ends(w, 1, true));
        lemma_nothing_spans_unit(m, w, pre, 1, true);
        lemma_cut_apart(m, w, 1, true);
        let rest = m.unit_pieces(units.skip(1), true);
        let a = m.unit_tokens(pre, true);
        let b = m.unit_tokens(u, true);
        assert(t.subrange(0, 1) =~= pre);
        assert(m.chunk_pieces(s, true, true) =~= seq![a + b] + rest);
        assert(m.units_from(t, 0, 1, true) == seq![pre] + units);
        assert(m.chunk_pieces(t, false, true) =~= seq![a] + (seq![b] + rest));
        lemma_joined_concat(seq![a + b], rest);
        lemma_joined_concat(seq![a], seq![b] + rest);
        lemma_joined_concat(seq![b], rest);
        lemma_joined_one(a);
        lemma_joined_one(b);
        lemma_joined_one(a + b);
        assert(a + b + joined(rest) =~= a + (b + joined(rest)));
    } else {
        assert(m.units_from(t, 0, 1, true) == m.units_from(t, 0, 2, true));
    }
}

/// Where the raw fast path applies, it gives what running the normalizer and
/// the pre-tokenizer and encoding their output gives.
pub proof fn lemma_raw_path_is_normalization(m: SpModel, s: Seq<u8>, first_chunk: bool)
    requires
        m.raw_prepend() is Some,
        m.merges_agree(),
        s.len() > 0,
        valid_utf8(s),
        m.text_decodes(s, 0, true),
        m.char_decodes(mark()),
    ensures
        m.section_tokens(s, first_chunk) == m.normalized_tokens(
            metaspaced(m.metaspace, steps_applied(m.steps, s), first_chunk),
        ),
{
    let prepend = m.raw_prepend()->0;
    let t = marked(s);
    let pre = seq![0x20u8];
    assert(s.skip(0) =~= s);
    lemma_replaced_is_marked(s, 0);
    assert forall|i: int| 0 <= i < t.len() implies #[trigger] t[i] != 0x20 by {
        lemma_marked_no_space(s, i);
    }
    lemma_marked_plain(t);
    assert(t.skip(0) =~= t);
    lemma_replaced_is_marked(t, 0);
    lemma_mark_at_start(s);
    lemma_raw_is_marked(m, s);
    lemma_marked_concat(pre, s);
    lemma_marked_space();
    lemma_prefix_decodes(m, s, true, true);
    lemma_raw_is_marked(m, pre + s);
    if prepend == RawPrepend::Unguarded {
        let ms = mark() + s;
        lemma_marked_concat(mark(), s);
        lemma_marked_plain(mark());
        assert(ms.skip(0) =~= ms);
        lemma_replaced_is_marked(ms, 0);
        let out = mark() + t;
        assert(m.steps.drop_last().drop_last() =~= Seq::<NormStep>::empty());
        assert(m.steps.drop_last().last() == m.steps[0]);
        assert(steps_applied(m.steps.drop_last().drop_last(), s) == s);
        assert(steps_applied(m.steps.drop_last(), s) == ms);
        assert(steps_applied(m.steps, s) == out);
        assert(out.skip(0) =~= out);
        lemma_replaced_is_marked(out, 0);
        assert forall|i: int| 0 <= i < out.len() implies #[trigger] out[i] != 0x20 by {
            if i >= 3 {
                assert(out[i] == t[i - 3]);
            }
        }
        lemma_marked_plain(out);
        assert(mark_char_at(out, 0));
        lemma_virtual_prefix(m, s);
    } else {
        if m.steps.len() == 1 {
            assert(m.steps.drop_last() =~= Seq::<NormStep>::empty());
            assert(steps_applied(m.steps.drop_last(), s) == s);
            assert(steps_applied(m.steps, s) == t);
        } else {
            assert(steps_applied(m.steps, s) == s);
        }
        if m.prefixes(prepend, s, first_chunk) {
            lemma_virtual_prefix(m, s);
        }
    }
}

/// The tokens of the units of a text stand for it.
proof fn lemma_units_decode(m: SpModel, s: Seq<u8>, start: int, p: int, raw: bool)
    requires
        m.merges_agree(),
        0 <= start <= p <= s.len(),
        start == p ==> p == 0,
        valid_utf8(s.skip(start)),
        m.text_decodes(s.skip(start), 0, raw),
    ensures
        decoded(m.vocab, joined(m.unit_pieces(m.units_from(s, start, p, raw), raw))) == unmarked_as(
            s.skip(start),
            raw,
        ),
        in_vocab(m.vocab, joined(m.unit_pieces(m.units_from(s, start, p, raw), raw))),
    decreases s.len() - p,
{
    let u = s.skip(start);
    let units = m.units_from(s, start, p, raw);
    assert(u.skip(0) =~= u);
    if p >= s.len() {
        if start < s.len() {
            assert(units =~= seq![u]);
            assert(m.unit_pieces(units, raw) =~= seq![m.unit_tokens(u, raw)]);
            lemma_joined_one(m.unit_tokens(u, raw));
            lemma_unit_decodes(m, u, raw);
        } else {
            assert(units =~= Seq::<Seq<u8>>::empty());
            assert(u =~= Seq::<u8>::empty());
            assert(marked(u) =~= Seq::<u8>::empty());
        }
    } else if m.unit_ends(s, p, raw) {
        let l = p - start;
        let a = u.take(l);
        let b = s.skip(p);
        assert(u[l] == s[p]);
        is_char_boundary_iff_not_is_continuation_byte(u, l);
        valid_utf8_split(u, l);
        assert(u.subrange(0, l) =~= a);
        assert(u.subrange(l, u.len() as int) =~= b);
        assert(u.skip(l) =~= b);
        assert(s.subrange(start, p) =~= a);
        lemma_valid_utf8_walks(u, l);
        lemma_symbols_split(m, u, 0, l, raw);
        lemma_symbols_suffix(m, u, l, 0, raw);
        lemma_unit_decodes(m, a, raw);
        lemma_units_decode(m, s, p, p + 1, raw);
        let rest = m.unit_pieces(m.units_from(s, p, p + 1, raw), raw);
        let x = m.unit_tokens(a, raw);
        assert(m.unit_pieces(units, raw) =~= seq![x] + rest);
        lemma_joined_concat(seq![x], rest);
        lemma_joined_one(x);
        lemma_decoded_concat(m.vocab, x, joined(rest));
        assert(u =~= a + b);
        lemma_unmarked_concat(a, b, raw);
    } else {
        lemma_units_decode(m, s, start, p + 1, raw);
    }
}

/// The tokens of a unit stand for it.
proof fn lemma_unit_decodes(m: SpModel, u: Seq<u8>, raw: bool)
    requires
        m.merges_agree(),
        valid_utf8(u),
        m.text_decodes(u, 0, raw),
    ensures
        decoded(m.vocab, m.unit_tokens(u, raw)) == unmarked_as(u, raw),
        in_vocab(m.vocab, m.unit_tokens(u, raw)),
{
    assert(u.skip(0) =~= u);
    lemma_symbols_decode(m, u, 0, raw);
    lemma_merged_keeps_bytes(m.rules, m.vocab, m.symbols_from(u, 0, raw));
    lemma_merged_in_vocab(m.rules, m.vocab, m.symbols_from(u, 0, raw));
}

/// The bytes of tokens of the vocabulary.
proof fn lemma_raw_bytes(m: SpModel, ids: Seq<TokenId>)
    requires
        in_vocab(m.vocab, ids),
    ensures
        m.raw_bytes(ids) == decoded(m.vocab, ids),
    decreases ids.len(),
{
    if ids.len() > 0 {
        assert(ids[ids.len() - 1] == ids.last());
        assert forall|i: int| 0 <= i < ids.drop_last().len() implies (#[trigger] ids.drop_last()[i]).0
            < m.vocab.len() by {
            assert(ids.drop_last()[i] == ids[i]);
        }
        lemma_raw_bytes(m, ids.drop_last());
    }
}

/// Marking valid UTF-8 leaves it valid.
proof fn lemma_marked_valid(s: Seq<u8>)
    requires
        valid_utf8(s),
    ensures
        valid_utf8(marked(s)),
    decreases s.len(),
{
    if s.len() == 0 {
        assert(marked(s) =~= Seq::<u8>::empty());
    } else {
        assert(s.skip(0) =~= s);
        lemma_first_char(s, 0);
        let w = width_at(s, 0);
        let ch = s.subrange(0, w);
        let rest = s.skip(w);
        lemma_marked_valid(rest);
        assert(s =~= ch + rest);
        lemma_marked_concat(ch, rest);
        if s[0] == 0x20 {
            assert(ch =~= seq![0x20u8]);
            lemma_marked_space();
            lemma_mark_valid();
            valid_utf8_concat(mark(), marked(rest));
        } else {
            assert forall|i: int| 0 <= i < ch.len() implies #[trigger] ch[i] != 0x20 by {
                assert(ch[i] == s[i]);
            }
            lemma_marked_plain(ch);
            if w < s.len() {
                assert(rest[0] == s[w]);
                assert(rest.skip(0) =~= rest);
                lemma_first_char(rest, 0);
                is_char_boundary_iff_not_is_continuation_byte(s, w);
                valid_utf8_split(s, w);
            } else {
                assert(ch =~= s);
            }
            valid_utf8_concat(ch, marked(rest));
        }
    }
}

proof fn lemma_mark_valid()
    ensures
        valid_utf8(mark()),
{
    let m = mark();
    assert(is_continuation_byte(0x96u8) && is_continuation_byte(0x81u8));
    assert(0xE2u8 & 0x0F == 0x02 && 0x96u8 & 0x3F == 0x16 && 0x81u8 & 0x3F == 0x01) by (bit_vector);
    assert((0x02u32 << 12) | (0x16u32 << 6) | 0x01u32 == 0x2581) by (bit_vector);
    assert(valid_first_scalar(m));
    assert(pop_first_scalar(m) =~= Seq::<u8>::empty());
    assert(valid_utf8(Seq::<u8>::empty()));
}

/// Where `pattern` does not stand, replacing keeps the byte.
pub proof fn lemma_replaced_step(s: Seq<u8>, pos: int, pattern: Seq<u8>, content: Seq<u8>)
    requires
        0 <= pos < s.len(),
        pattern.len() > 0,
        !occurs_at(s, pattern, pos),
    ensures
        replaced_from(s, pos, pattern, content) == seq![s[pos]] + replaced_from(
            s,
            pos + 1,
            pattern,
            content,
        ),
{
    lemma_first_at(s, pattern, pos + 1);
    match first_at(s, pattern, pos + 1) {
        Some(at) => {
            assert(s.subrange(pos, at) =~= seq![s[pos]] + s.subrange(pos + 1, at));
            let tail = replaced_from(s, at + pattern.len(), pattern, content);
            assert(s.subrange(pos, at) + content + tail =~= seq![s[pos]] + (s.subrange(pos + 1, at)
                + content + tail));
        },
        None => {
            assert(s.skip(pos) =~= seq![s[pos]] + s.skip(pos + 1));
        },
    }
}

/// Making the marks of a marked text spaces gives the text back, where it has
/// no marks of its own.
proof fn lemma_marks_undone(s: Seq<u8>, p: int)
    requires
        0 <= p <= s.len(),
        forall|i: int| 0 <= i < s.len() ==> !#[trigger] mark_char_at(s, i),
    ensures
        replaced_from(marked(s), marked(s.take(p)).len() as int, mark(), seq![0x20u8]) == s.skip(p),
    decreases s.len() - p,
{
    let t = marked(s);
    let q = marked(s.take(p)).len() as int;
    let b = s.skip(p);
    assert(s =~= s.take(p) + b);
    lemma_marked_concat(s.take(p), b);
    assert(t.skip(q) =~= marked(b));
    if p < s.len() {
        lemma_marks_undone(s, p + 1);
        assert(s.take(p + 1) =~= s.take(p) + seq![s[p]]);
        lemma_marked_concat(s.take(p), seq![s[p]]);
        assert(b =~= seq![s[p]] + s.skip(p + 1));
        lemma_mark_at_start(b);
        assert(t[q] == marked(b)[0]);
        if s[p] == 0x20 {
            lemma_marked_space();
            lemma_marked_concat(seq![0x20u8], s.skip(p + 1));
            assert(t.subrange(q, q + 3) =~= mark());
            assert(occurs_at(t, mark(), q));
            assert(t.subrange(q, q) =~= Seq::<u8>::empty());
        } else {
            lemma_marked_plain(seq![s[p]]);
            assert(!mark_char_at(s, p));
            assert(mark_width(b, 0, true) == 0);
            if occurs_at(t, mark(), q) {
                let o = t.subrange(q, q + 3);
                assert(o[0] == mark()[0] && o[1] == mark()[1] && o[2] == mark()[2]);
                assert(marked(b)[1] == t[q + 1] && marked(b)[2] == t[q + 2]);
                assert(mark_char_at(marked(b), 0));
            }
            lemma_replaced_step(t, q, mark(), seq![0x20u8]);
        }
    } else {
        assert(s.take(p) =~= s);
        assert(b =~= Seq::<u8>::empty());
        lemma_first_at(t, mark(), q);
        assert(!occurs_at(t, mark(), q));
        assert(first_at(t, mark(), q) is None);
        assert(t.skip(q) =~= Seq::<u8>::empty());
    }
}

/// A marked text decodes where the text does in raw mode.
proof fn lemma_marked_decodes(m: SpModel, s: Seq<u8>)
    requires
        valid_utf8(s),
        m.text_decodes(s, 0, true),
    ensures
        m.text_decodes(marked(s), 0, false),
    decreases s.len(),
{
    if s.len() == 0 {
        assert(marked(s) =~= Seq::<u8>::empty());
    } else {
        assert(s.skip(0) =~= s);
        lemma_first_char(s, 0);
        let w = width_at(s, 0);
        let ch = s.subrange(0, w);
        let rest = s.skip(w);
        lemma_symbols_suffix(m, s, w, 0, true);
        lemma_marked_decodes(m, rest);
        assert(s =~= ch + rest);
        lemma_marked_concat(ch, rest);
        let c = if s[0] == 0x20 {
            mark()
        } else {
            ch
        };
        if s[0] == 0x20 {
            assert(ch =~= seq![0x20u8]);
            lemma_marked_space();
        } else {
            assert forall|i: int| 0 <= i < ch.len() implies #[trigger] ch[i] != 0x20 by {
                assert(ch[i] == s[i]);
            }
            lemma_marked_plain(ch);
        }
        let t = marked(s);
        assert(t == c + marked(rest));
        assert(t[0] == c[0]);
        assert(width_at(t, 0) == c.len());
        assert(t.subrange(0, c.len() as int) =~= c);
        assert(t.skip(c.len() as int) =~= marked(rest));
        lemma_symbols_suffix(m, t, c.len() as int, 0, false);
    }
}

/// The tokens of normalized text stand for it.
proof fn lemma_normalized_decodes(m: SpModel, t: Seq<u8>)
    requires
        m.merges_agree(),
        valid_utf8(t),
        m.text_decodes(t, 0, false),
    ensures
        m.raw_bytes(m.normalized_tokens(t)) == t,
{
    assert(t.skip(0) =~= t);
    if m.word_split() == WordSplit::Whole {
        lemma_unit_decodes(m, t, false);
    } else {
        lemma_units_decode(m, t, 0, 0, false);
    }
    lemma_raw_bytes(m, m.normalized_tokens(t));
}

/// Decoding the tokens of a text in which no added token stands gives the text as
/// the normalizer and the pre-tokenizer left it, with marks made spaces and
/// without the space in front that encoding puts there.
pub proof fn lemma_normal_round_trip(m: SpModel, s: Seq<u8>)
    requires
        m.merges_agree(),
        m.no_added_in(s),
        s.len() > 0,
        valid_utf8(m.normal_form(s)),
        m.text_decodes(m.normal_form(s), 0, false),
        m.raw_prepend() is Some ==> valid_utf8(s) && m.text_decodes(s, 0, true) && m.char_decodes(
            mark(),
        ),
    ensures
        m.decoded(m.tokens(s)) == m.shown(m.normal_form(s)),
{
    let t = m.normal_form(s);
    let normed = steps_applied(m.steps, s);
    assert(s.skip(0) =~= s);
    assert(m.tokens(s) == m.section_tokens(s, true));
    lemma_normalized_decodes(m, t);
    if m.raw_prepend() is Some {
        lemma_raw_path_is_normalization(m, s, true);
    } else if m.norm_added.len() > 0 && normed.len() == 0 {
        lemma_first_at(normed, seq![0x20u8], 0);
        assert(replaced(normed, seq![0x20u8], mark()) =~= normed);
        assert(t =~= Seq::<u8>::empty());
        assert(m.raw_bytes(m.tokens(s)) =~= t);
    }
}

/// Where all that normalization does is to make spaces marks and to put a mark
/// first, it marks the text, or the text with a space before it.
proof fn lemma_only_marks(m: SpModel, s: Seq<u8>)
    requires
        m.only_marks(),
        s.len() > 0,
        forall|i: int| 0 <= i < s.len() ==> !#[trigger] mark_char_at(s, i),
        m.steps.len() < 2 && m.prepends_space() ==> s[0] != 0x20,
    ensures
        m.normal_form(s) == marked(
            if m.prepends_space() {
                seq![0x20u8] + s
            } else {
                s
            },
        ),
{
    let t = marked(s);
    let pre = seq![0x20u8];
    assert(s.skip(0) =~= s);
    lemma_replaced_is_marked(s, 0);
    assert forall|i: int| 0 <= i < t.len() implies #[trigger] t[i] != 0x20 by {
        lemma_marked_no_space(s, i);
    }
    lemma_marked_plain(t);
    assert(t.skip(0) =~= t);
    lemma_replaced_is_marked(t, 0);
    lemma_mark_at_start(s);
    lemma_marked_concat(pre, s);
    lemma_marked_space();
    assert(!mark_char_at(s, 0));
    if m.steps.len() == 2 {
        let ms = mark() + s;
        lemma_marked_concat(mark(), s);
        lemma_marked_plain(mark());
        assert(ms.skip(0) =~= ms);
        lemma_replaced_is_marked(ms, 0);
        let out = mark() + t;
        assert(m.steps.drop_last().drop_last() =~= Seq::<NormStep>::empty());
        assert(m.steps.drop_last().last() == m.steps[0]);
        assert(steps_applied(m.steps.drop_last().drop_last(), s) == s);
        assert(steps_applied(m.steps.drop_last(), s) == ms);
        assert(steps_applied(m.steps, s) == out);
        assert(out.skip(0) =~= out);
        lemma_replaced_is_marked(out, 0);
        assert forall|i: int| 0 <= i < out.len() implies #[trigger] out[i] != 0x20 by {
            if i >= 3 {
                assert(out[i] == t[i - 3]);
            }
        }
        lemma_marked_plain(out);
        assert(mark_char_at(out, 0));
        assert(m.steps[0] is Prepend);
    } else if m.steps.len() == 1 {
        assert(m.steps.drop_last() =~= Seq::<NormStep>::empty());
        assert(steps_applied(m.steps.drop_last(), s) == s);
        assert(steps_applied(m.steps, s) == t);
    } else {
        assert(steps_applied(m.steps, s) == s);
    }
}

/// Nothing stays nothing where normalization does no more than to mark.
proof fn lemma_empty_stays(m: SpModel)
    requires
        m.only_marks(),
    ensures
        m.normal_form(Seq::empty()) == Seq::<u8>::empty(),
{
    let none = Seq::<u8>::empty();
    lemma_replaced_is_marked(none, 0);
    assert(none.skip(0) =~= none);
    assert(marked(none) =~= none);
    if m.steps.len() == 2 {
        assert(m.steps.drop_last().drop_last() =~= Seq::<NormStep>::empty());
        assert(m.steps.drop_last().last() == m.steps[0]);
        assert(steps_applied(m.steps.drop_last().drop_last(), none) == none);
        assert(steps_applied(m.steps.drop_last(), none) == none);
    } else if m.steps.len() == 1 {
        assert(m.steps.drop_last() =~= Seq::<NormStep>::empty());
        assert(steps_applied(m.steps.drop_last(), none) == none);
    }
    assert(steps_applied(m.steps, none) == none);
}

/// No text has no tokens.
proof fn lemma_empty_tokens(m: SpModel)
    requires
        m.only_marks(),
        m.merges_agree(),
        m.no_added_in(Seq::empty()),
    ensures
        m.raw_bytes(m.tokens(Seq::empty())) == Seq::<u8>::empty(),
{
    let none = Seq::<u8>::empty();
    lemma_empty_stays(m);
    assert(valid_utf8(none));
    lemma_normalized_decodes(m, none);
    if m.added.len() > 0 || m.raw_prepend() is Some {
        assert(m.tokens(none) =~= Seq::<TokenId>::empty());
    } else if m.norm_added.len() > 0 {
        if steps_applied(m.steps, none).len() == 0 {
            assert(m.tokens(none) =~= Seq::<TokenId>::empty());
        }
    }
}

/// Decoding the tokens of a text gives the text back, where normalization only
/// marks spaces and puts a mark first, no added token stands in the text, and the
/// text has no marks of its own. A model that puts a mark first only where none
/// is adds none to a text that starts with a space, so that decoding takes the
/// space off: such a text is left out.
pub proof fn lemma_round_trip(m: SpModel, s: Seq<u8>)
    requires
        m.only_marks(),
        m.merges_agree(),
        m.no_added_in(s),
        valid_utf8(s),
        m.text_decodes(s, 0, true),
        m.char_decodes(mark()),
        forall|i: int| 0 <= i < s.len() ==> !#[trigger] mark_char_at(s, i),
        s.len() > 0 && m.steps.len() < 2 && m.prepends_space() ==> s[0] != 0x20,
    ensures
        m.decoded(m.tokens(s)) == s,
{
    let none = Seq::<u8>::empty();
    if s.len() == 0 {
        assert(s =~= none);
        lemma_empty_tokens(m);
        assert(valid_utf8(none));
        lemma_first_at(none, mark(), 0);
        assert(replaced(none, mark(), seq![0x20u8]) =~= none);
    } else {
        let pre = m.prepends_space();
        let w = if pre {
            seq![0x20u8] + s
        } else {
            s
        };
        if pre {
            lemma_prefix_decodes(m, s, true, true);
            assert forall|i: int| 0 <= i < w.len() implies !#[trigger] mark_char_at(w, i) by {
                if i > 0 && i + 3 <= w.len() {
                    assert(!mark_char_at(s, i - 1));
                    assert(w[i] == s[i - 1] && w[i + 1] == s[i] && w[i + 2] == s[i + 1]);
                }
            }
            assert(w.skip(1) =~= s);
        }
        lemma_only_marks(m, s);
        lemma_marked_valid(w);
        lemma_marked_decodes(m, w);
        lemma_normal_round_trip(m, s);
        assert(w.take(0) =~= none);
        assert(marked(w.take(0)) =~= none);
        lemma_marks_undone(w, 0);
        assert(w.skip(0) =~= w);
        assert(replaced(marked(w), mark(), seq![0x20u8]) == w);
    }
}

proof fn lemma_raw_bytes_concat(m: SpModel, a: Seq<TokenId>, b: Seq<TokenId>)
    ensures
        m.raw_bytes(a + b) == m.raw_bytes(a) + m.raw_bytes(b),
    decreases b.len(),
{
    if b.len() == 0 {
        assert(a + b =~= a);
        assert(m.raw_bytes(b) =~= Seq::<u8>::empty());
        assert(m.raw_bytes(a) + Seq::<u8>::empty() =~= m.raw_bytes(a));
    } else {
        lemma_raw_bytes_concat(m, a, b.drop_last());
        assert((a + b).drop_last() =~= a + b.drop_last());
        assert((a + b).last() == b.last());
        assert(m.raw_bytes(a + b) =~= m.raw_bytes(a) + m.raw_bytes(b));
    }
}

/// An id outside the vocabulary changes nothing of what tokens decode to.
pub proof fn lemma_unknown_id_skipped(m: SpModel, a: Seq<TokenId>, x: TokenId, b: Seq<TokenId>)
    requires
        x.0 >= m.vocab.len(),
    ensures
        m.decoded(a + seq![x] + b) == m.decoded(a + b),
{
    let one = seq![x];
    lemma_raw_bytes_concat(m, a + one, b);
    lemma_raw_bytes_concat(m, a, one);
    lemma_raw_bytes_concat(m, a, b);
    assert(one.drop_last() =~= Seq::<TokenId>::empty());
    assert(m.raw_bytes(one.drop_last()) =~= Seq::<u8>::empty());
    assert(m.raw_bytes(one) =~= Seq::<u8>::empty());
    assert(m.raw_bytes(a) + m.raw_bytes(one) =~= m.raw_bytes(a));
}

} // verus!
