//! The data of a SentencePiece BPE model, and what a text becomes under it.

use vstd::prelude::*;
use vstd::utf8::{encode_utf8, valid_utf8};

use crate::bpe::added::{by_descending_len, next_added, Added};
use crate::bpe::merge::{bpe_merged, Rules};
use crate::bpe::model::joined;
use crate::pretokenize::scan::width_at;
use crate::sentencepiece::charsmap::normalized_bytes;
use crate::strings::{after_spaces, collapsed_from, replaced, trimmed_end, trimmed_start};
use crate::text::lossy_text;
use crate::token::TokenId;

verus! {

/// How text divides into independently-encodable (and cacheable) word units.
/// Computed once at load from the pre-tokenizer config and the vocab.
#[derive(Debug, Clone, Copy, PartialEq, Eq, Structural)]
pub enum WordSplit {
    /// A unit starts at each mark that does not follow another. Valid when no
    /// vocab piece has a mark after another char, so that no merge can cross a
    /// unit boundary and per-unit BPE equals the global merge.
    SpaceRuns,
    /// Metaspace `split=true`: a unit starts at every mark.
    EveryMark,
    /// The vocab has boundary-crossing pieces; whole chunks are merged.
    Whole,
}

/// How the raw fast path prepends the dummy-prefix mark to a chunk.
#[derive(Debug, Clone, Copy, PartialEq, Eq, Structural)]
pub enum RawPrepend {
    Never,
    /// `Prepend` normalizer: unconditional (Llama 2).
    Unguarded,
    /// Metaspace `always`: skipped when the chunk already starts with a mark.
    GuardedAlways,
    /// Metaspace `first`: like `GuardedAlways`, first chunk of the input only.
    GuardedFirst,
}

/// When the Metaspace pre-tokenizer prepends a mark to a chunk.
#[derive(Debug, Clone, Copy, PartialEq, Eq, Structural)]
pub enum PrependScheme {
    Never,
    Always,
    /// Only the chunk at the very start of the input; chunks after an added
    /// token don't count.
    First,
}

/// `Metaspace` pre-tokenizer: replaces spaces with marks, then prepends a mark
/// per `prepend` (unless the chunk already starts with one), and, with `split`,
/// keeps BPE merges from crossing word boundaries.
#[derive(Debug, Clone, Copy, PartialEq, Eq, Structural)]
pub struct Metaspace {
    pub prepend: PrependScheme,
    pub split: bool,
}

/// An added token, matched atomically in text before encoding.
pub struct AddedTokenSpec {
    /// What to find in the text.
    pub content: String,
    pub id: TokenId,
    /// Consume whitespace immediately before the match.
    pub lstrip: bool,
    /// Consume whitespace immediately after the match.
    pub rstrip: bool,
}

/// What an added token is.
#[verifier::ext_equal]
pub struct TokenSpec {
    pub content: Seq<u8>,
    pub id: TokenId,
    pub lstrip: bool,
    pub rstrip: bool,
}

impl View for AddedTokenSpec {
    type V = TokenSpec;

    open spec fn view(&self) -> TokenSpec {
        TokenSpec {
            content: encode_utf8(self.content@),
            id: self.id,
            lstrip: self.lstrip,
            rstrip: self.rstrip,
        }
    }
}

/// One step of a normalizer.
pub enum NormStep {
    /// An unconditional prefix; an empty text stays empty.
    Prepend(Seq<u8>),
    /// Each occurrence of a pattern becomes another text.
    Replace { pattern: Seq<u8>, content: Seq<u8> },
    /// Each run of 2 or more spaces becomes another text.
    CollapseSpaces { content: Seq<u8> },
    /// Without the white space at the ends.
    Strip { left: bool, right: bool },
    /// A charsmap.
    Precompiled(Seq<u8>),
}

impl NormStep {
    /// What a text becomes.
    pub open spec fn applied(self, s: Seq<u8>) -> Seq<u8> {
        match self {
            NormStep::Prepend(prefix) => if s.len() == 0 {
                s
            } else {
                prefix + s
            },
            NormStep::Replace { pattern, content } => replaced(s, pattern, content),
            NormStep::CollapseSpaces { content } => collapsed_from(s, 0, content),
            NormStep::Strip { left, right } => {
                let t = if left {
                    trimmed_start(s)
                } else {
                    s
                };
                if right {
                    trimmed_end(t)
                } else {
                    t
                }
            },
            NormStep::Precompiled(blob) => if valid_utf8(s) {
                normalized_bytes(blob, s)
            } else {
                s
            },
        }
    }
}

/// What a text becomes under steps in order.
pub open spec fn steps_applied(steps: Seq<NormStep>, s: Seq<u8>) -> Seq<u8>
    decreases steps.len(),
{
    if steps.len() == 0 {
        s
    } else {
        steps.last().applied(steps_applied(steps.drop_last(), s))
    }
}

/// The space marker U+2581 in UTF-8.
pub open spec fn mark() -> Seq<u8> {
    seq![0xE2u8, 0x96u8, 0x81u8]
}

/// Whether a space marker stands at `p`.
pub open spec fn mark_char_at(s: Seq<u8>, p: int) -> bool {
    0 <= p && p + 3 <= s.len() && s[p] == 0xE2 && s[p + 1] == 0x96 && s[p + 2] == 0x81
}

/// How wide the unit mark at `p` is, 0 where there is none: in raw mode both a
/// space and a space marker count, in normalized mode only the latter does.
pub open spec fn mark_width(s: Seq<u8>, p: int, raw: bool) -> int {
    if raw && 0 <= p < s.len() && s[p] == 0x20 {
        1
    } else if mark_char_at(s, p) {
        3
    } else {
        0
    }
}

/// Whether a unit mark ends at `p`.
pub open spec fn mark_ends(s: Seq<u8>, p: int, raw: bool) -> bool {
    (raw && 1 <= p <= s.len() && s[p - 1] == 0x20) || mark_char_at(s, p - 3)
}

/// A text after the Metaspace pre-tokenizer's replacement and prepend.
pub open spec fn metaspaced(metaspace: Option<Metaspace>, s: Seq<u8>, first_chunk: bool) -> Seq<u8> {
    match metaspace {
        None => s,
        Some(ms) => {
            let t = replaced(s, seq![0x20u8], mark());
            let prepend = match ms.prepend {
                PrependScheme::Always => true,
                PrependScheme::First => first_chunk,
                PrependScheme::Never => false,
            };
            if prepend && t.len() > 0 && !mark_char_at(t, 0) {
                mark() + t
            } else {
                t
            }
        },
    }
}

/// Punctuation to split units before.
pub open spec fn split_punct(b: u8) -> bool {
    b == 0x2E || b == 0x2C || b == 0x22 || b == 0x29 || b == 0x3B || b == 0x3A || b == 0x21 || b
        == 0x3F
}

/// Whether `x` stands right before `y` in a piece.
pub open spec fn has_adjacent(piece: Seq<u8>, x: u8, y: u8) -> bool {
    exists|i: int| 0 <= i && i + 1 < piece.len() && #[trigger] piece[i] == x && piece[i + 1] == y
}

/// Whether a piece from `i` on has a mark behind another char; `prev` says
/// whether the char before `i` is a mark.
pub open spec fn mark_inside(piece: Seq<u8>, i: int, prev: bool) -> bool
    decreases piece.len() - i,
{
    if i < 0 || i >= piece.len() || width_at(piece, i) < 1 {
        false
    } else if mark_char_at(piece, i) {
        !prev || mark_inside(piece, i + 3, true)
    } else {
        mark_inside(piece, i + width_at(piece, i), false)
    }
}

/// What a SentencePiece BPE model holds.
#[verifier::ext_equal]
pub struct SpModel {
    /// The merges, by explicit rank.
    pub rules: Rules,
    pub vocab: Seq<Seq<u8>>,
    /// The token of a byte string.
    pub inv: Map<Seq<u8>, TokenId>,
    /// The token of each byte through `<0xHH>`, where there is one.
    pub fallback: Seq<Option<TokenId>>,
    /// Added tokens that are matched in the raw input.
    pub added: Seq<TokenSpec>,
    /// Added tokens that are matched against normalizer output.
    pub norm_added: Seq<TokenSpec>,
    pub steps: Seq<NormStep>,
    pub metaspace: Option<Metaspace>,
}

/// Added tokens with their places for ids, in matching order; those without content
/// are left out.
pub open spec fn match_list(specs: Seq<TokenSpec>) -> Seq<Added> {
    by_descending_len(Seq::new(specs.len(), |i: int| (specs[i].content, TokenId(i as u32))))
}

/// The first added token without content from place `k` on.
pub open spec fn first_empty(specs: Seq<TokenSpec>, k: int) -> Option<int>
    decreases specs.len() - k,
{
    if k < 0 || k >= specs.len() {
        None
    } else if specs[k].content.len() == 0 {
        Some(k)
    } else {
        first_empty(specs, k + 1)
    }
}

/// The leftmost added token at or after `from`, the longest of several: its start,
/// its end and its place. One without content stands everywhere, but, `behind` a
/// match that ends at `from`, not there again.
pub open spec fn next_found(specs: Seq<TokenSpec>, s: Seq<u8>, from: int, behind: bool) -> Option<
    (int, int, TokenId),
> {
    let found = next_added(match_list(specs), s, from);
    let at = if behind {
        from + 1
    } else {
        from
    };
    match first_empty(specs, 0) {
        Some(k) if !(found matches Some(m) && m.0 <= at) => if at <= s.len() {
            Some((at, at, TokenId(k as u32)))
        } else {
            None
        },
        _ => found,
    }
}

impl SpModel {
    /// The tokens of bytes through byte fallback. A byte without one has none.
    pub open spec fn fallback_tokens(self, bytes: Seq<u8>) -> Seq<TokenId>
        decreases bytes.len(),
    {
        if bytes.len() == 0 {
            Seq::empty()
        } else {
            self.fallback_tokens(bytes.drop_last()) + match self.fallback[bytes.last() as int] {
                Some(id) => seq![id],
                None => Seq::empty(),
            }
        }
    }

    /// The initial symbols of a character: its vocab piece, or its UTF-8 bytes
    /// through byte fallback.
    pub open spec fn char_symbols(self, ch: Seq<u8>) -> Seq<TokenId> {
        if self.inv.contains_key(ch) {
            seq![self.inv[ch]]
        } else {
            self.fallback_tokens(ch)
        }
    }

    /// The initial symbols of a text from `pos` on. In raw mode spaces
    /// initialize as the space marker.
    pub open spec fn symbols_from(self, s: Seq<u8>, pos: int, raw: bool) -> Seq<TokenId>
        decreases s.len() - pos,
    {
        if pos < 0 || pos >= s.len() || width_at(s, pos) < 1 {
            Seq::empty()
        } else {
            let w = width_at(s, pos);
            self.char_symbols(
                if raw && s[pos] == 0x20 {
                    mark()
                } else {
                    s.subrange(pos, pos + w)
                },
            ) + self.symbols_from(s, pos + w, raw)
        }
    }

    /// The tokens of one unit.
    pub open spec fn unit_tokens(self, unit: Seq<u8>, raw: bool) -> Seq<TokenId> {
        bpe_merged(self.rules, self.symbols_from(unit, 0, raw))
    }

    /// Whether every vocab piece stays inside one unit of marks followed by
    /// other chars: no piece has a mark after another char. Pieces that are not
    /// valid UTF-8 have none.
    pub open spec fn units_merge_safe(self) -> bool {
        forall|k: int|
            0 <= k < self.vocab.len() && valid_utf8(#[trigger] self.vocab[k]) ==> !mark_inside(
                self.vocab[k],
                0,
                true,
            )
    }

    /// How text divides into units.
    pub open spec fn word_split(self) -> WordSplit {
        if self.metaspace matches Some(ms) && ms.split {
            WordSplit::EveryMark
        } else if self.units_merge_safe() {
            WordSplit::SpaceRuns
        } else {
            WordSplit::Whole
        }
    }

    /// Whether units can be split between bytes `x` and `y`: no piece has `x`
    /// immediately before `y`.
    pub open spec fn split_safe(self, x: u8, y: u8) -> bool {
        forall|k: int| 0 <= k < self.vocab.len() ==> !has_adjacent(#[trigger] self.vocab[k], x, y)
    }

    /// Raw-fast-path eligibility: the normalizer sequence must reduce to an
    /// optional mark prepend and a literal space to mark, with no normalized
    /// added tokens.
    pub open spec fn raw_prepend(self) -> Option<RawPrepend> {
        let from_metaspace = match self.metaspace {
            None => RawPrepend::Never,
            Some(ms) => match ms.prepend {
                PrependScheme::Never => RawPrepend::Never,
                PrependScheme::Always => RawPrepend::GuardedAlways,
                PrependScheme::First => RawPrepend::GuardedFirst,
            },
        };
        if self.word_split() == WordSplit::Whole || self.norm_added.len() > 0 {
            None
        } else if self.steps.len() == 2 && prepends_mark(self.steps[0]) && marks_spaces(
            self.steps[1],
        ) {
            if self.word_split() == WordSplit::EveryMark {
                None
            } else {
                Some(RawPrepend::Unguarded)
            }
        } else if self.steps.len() == 1 && marks_spaces(self.steps[0]) {
            Some(from_metaspace)
        } else if self.steps.len() == 0 && self.metaspace is Some {
            Some(from_metaspace)
        } else {
            None
        }
    }

    /// Whether a unit ends at `p`.
    pub open spec fn unit_ends(self, s: Seq<u8>, p: int, raw: bool) -> bool {
        &&& 0 < p < s.len()
        &&& if mark_width(s, p, raw) > 0 {
            self.word_split() == WordSplit::EveryMark || !mark_ends(s, p, raw)
        } else {
            split_punct(s[p]) && self.split_safe(
                if raw && s[p - 1] == 0x20 {
                    0x81
                } else {
                    s[p - 1]
                },
                s[p],
            )
        }
    }

    /// The units of a text from `start` on, with no end before `p`.
    pub open spec fn units_from(self, s: Seq<u8>, start: int, p: int, raw: bool) -> Seq<Seq<u8>>
        decreases s.len() - p,
    {
        if p >= s.len() {
            if start < s.len() {
                seq![s.skip(start)]
            } else {
                Seq::empty()
            }
        } else if self.unit_ends(s, p, raw) {
            seq![s.subrange(start, p)] + self.units_from(s, p, p + 1, raw)
        } else {
            self.units_from(s, start, p + 1, raw)
        }
    }

    /// The tokens of each unit.
    pub open spec fn unit_pieces(self, units: Seq<Seq<u8>>, raw: bool) -> Seq<Seq<TokenId>> {
        units.map_values(|u: Seq<u8>| self.unit_tokens(u, raw))
    }

    /// The tokens of a chunk, unit by unit. `virtual_prefix` puts one space
    /// before the first unit.
    pub open spec fn chunk_pieces(self, s: Seq<u8>, virtual_prefix: bool, raw: bool) -> Seq<
        Seq<TokenId>,
    > {
        let units = self.units_from(s, 0, 0, raw);
        self.unit_pieces(
            if virtual_prefix && units.len() > 0 {
                units.update(0, seq![0x20u8] + units[0])
            } else {
                units
            },
            raw,
        )
    }

    /// Whether the raw fast path puts a space before a chunk.
    pub open spec fn prefixes(self, prepend: RawPrepend, s: Seq<u8>, first_chunk: bool) -> bool {
        match prepend {
            RawPrepend::Unguarded => true,
            RawPrepend::GuardedAlways => mark_width(s, 0, true) == 0,
            RawPrepend::GuardedFirst => first_chunk && mark_width(s, 0, true) == 0,
            RawPrepend::Never => false,
        }
    }

    /// The tokens of already-normalized text.
    pub open spec fn normalized_tokens(self, s: Seq<u8>) -> Seq<TokenId> {
        if self.word_split() == WordSplit::Whole {
            self.unit_tokens(s, false)
        } else {
            joined(self.chunk_pieces(s, false, false))
        }
    }

    /// The tokens of normalizer output, with normalized added tokens split out.
    /// What follows a token that is found without end, one without content that
    /// nothing is stripped behind, has none.
    pub open spec fn section_from(self, s: Seq<u8>, first: bool) -> Seq<TokenId>
        decreases s.len(),
    {
        if s.len() == 0 {
            Seq::empty()
        } else {
            match next_found(self.norm_added, s, 0, false) {
                None => self.normalized_tokens(metaspaced(self.metaspace, s, first)),
                Some((start, end, k)) => if 0 <= start <= end <= s.len() {
                    let spec = self.norm_added[k.0 as int];
                    let part = if spec.lstrip {
                        trimmed_end(s.take(start))
                    } else {
                        s.take(start)
                    };
                    let rest = if spec.rstrip {
                        trimmed_start(s.skip(end))
                    } else {
                        s.skip(end)
                    };
                    (if part.len() == 0 {
                        Seq::empty()
                    } else {
                        self.normalized_tokens(metaspaced(self.metaspace, part, first))
                    }) + seq![spec.id] + if rest.len() < s.len() {
                        self.section_from(rest, false)
                    } else {
                        Seq::empty()
                    }
                } else {
                    Seq::empty()
                },
            }
        }
    }

    /// The tokens of one raw section, without raw-matched added tokens.
    pub open spec fn section_tokens(self, s: Seq<u8>, first_chunk: bool) -> Seq<TokenId> {
        match self.raw_prepend() {
            Some(prepend) => if s.len() == 0 {
                Seq::empty()
            } else {
                joined(self.chunk_pieces(s, self.prefixes(prepend, s, first_chunk), true))
            },
            None => {
                let normed = steps_applied(self.steps, s);
                if self.norm_added.len() == 0 {
                    self.normalized_tokens(metaspaced(self.metaspace, normed, first_chunk))
                } else {
                    self.section_from(normed, first_chunk)
                }
            },
        }
    }

    /// The tokens of a text from `chunk` on, where added tokens have been looked
    /// for up to `from`, `behind` one that ends there or from the start. A match
    /// that starts before `chunk` was swallowed by the one before it.
    pub open spec fn tokens_from(
        self,
        s: Seq<u8>,
        from: int,
        behind: bool,
        chunk: int,
        first: bool,
    ) -> Seq<TokenId>
        decreases s.len() - from, if behind { 0int } else { 1int },
    {
        match next_found(self.added, s, from, behind) {
            None => if chunk < s.len() {
                self.section_tokens(s.skip(chunk), first)
            } else {
                Seq::empty()
            },
            Some((start, end, k)) => if !(from <= start <= end <= s.len()) || (end == from
                && behind) {
                Seq::empty()
            } else if start < chunk {
                self.tokens_from(s, end, true, chunk, first)
            } else {
                let spec = self.added[k.0 as int];
                let part = if spec.lstrip {
                    trimmed_end(s.subrange(chunk, start))
                } else {
                    s.subrange(chunk, start)
                };
                let next = if spec.rstrip {
                    end + after_spaces(s.skip(end), 0)
                } else {
                    end
                };
                (if part.len() == 0 {
                    Seq::empty()
                } else {
                    self.section_tokens(part, first)
                }) + seq![spec.id] + self.tokens_from(s, end, true, next, false)
            },
        }
    }

    /// The tokens of raw (un-normalized) text.
    pub open spec fn tokens(self, s: Seq<u8>) -> Seq<TokenId> {
        if self.added.len() == 0 {
            self.section_tokens(s, true)
        } else {
            self.tokens_from(s, 0, false, 0, true)
        }
    }

    /// Whether encoding puts a mark in front of ordinary text.
    pub open spec fn prepends_space(self) -> bool {
        (self.metaspace matches Some(ms) && ms.prepend != PrependScheme::Never) || exists|i: int|
            0 <= i < self.steps.len() && (#[trigger] self.steps[i]) is Prepend
    }
}

impl SpModel {
    /// The bytes of tokens; ids outside the vocabulary have none.
    pub open spec fn raw_bytes(self, ids: Seq<TokenId>) -> Seq<u8>
        decreases ids.len(),
    {
        if ids.len() == 0 {
            Seq::empty()
        } else {
            self.raw_bytes(ids.drop_last()) + if ids.last().0 < self.vocab.len() {
                self.vocab[ids.last().0 as int]
            } else {
                Seq::empty()
            }
        }
    }

    /// A text with marks made spaces, and without the leading space where
    /// encoding puts one.
    pub open spec fn shown(self, text: Seq<u8>) -> Seq<u8> {
        let out = replaced(text, mark(), seq![0x20u8]);
        if self.prepends_space() && out.len() > 0 && out[0] == 0x20 {
            out.skip(1)
        } else {
            out
        }
    }

    /// What tokens decode to: their text with marks made spaces, and without
    /// the leading space where encoding puts one.
    pub open spec fn decoded(self, ids: Seq<TokenId>) -> Seq<u8> {
        let raw = self.raw_bytes(ids);
        self.shown(
            if valid_utf8(raw) {
                raw
            } else {
                encode_utf8(lossy_text(raw))
            },
        )
    }

    /// What the normalizer and the pre-tokenizer make of a text.
    pub open spec fn normal_form(self, s: Seq<u8>) -> Seq<u8> {
        metaspaced(self.metaspace, steps_applied(self.steps, s), true)
    }

    /// Whether no added token stands in a text, and none that is matched against
    /// normalizer output in what the normalizer makes of it.
    pub open spec fn no_added_in(self, s: Seq<u8>) -> bool {
        &&& next_found(self.added, s, 0, false) is None
        &&& next_found(self.norm_added, steps_applied(self.steps, s), 0, false) is None
    }

    /// Whether all that normalization does is to make spaces marks and to put a
    /// mark first.
    pub open spec fn only_marks(self) -> bool {
        ||| self.steps.len() == 0 && self.metaspace is Some
        ||| self.steps.len() == 1 && marks_spaces(self.steps[0])
        ||| self.steps.len() == 2 && prepends_mark(self.steps[0]) && marks_spaces(self.steps[1])
    }

    /// Whether every pair that merges is of tokens of the vocabulary.
    pub open spec fn rules_in_vocab(self) -> bool {
        forall|p: (TokenId, TokenId)| #[trigger]
            self.rules.contains_key(p) ==> p.0.0 < self.vocab.len() && p.1.0 < self.vocab.len()
    }

    /// Whether `pairs` lists the pairs that merge, each once, by rank.
    pub open spec fn merge_order(self, pairs: Seq<(TokenId, TokenId)>) -> bool {
        &&& pairs.no_duplicates()
        &&& forall|p: (TokenId, TokenId)| #[trigger]
            self.rules.contains_key(p) <==> pairs.contains(p)
        &&& forall|i: int, j: int|
            0 <= i < j < pairs.len() ==> self.rules[#[trigger] pairs[i]].1
                <= self.rules[#[trigger] pairs[j]].1
    }

    /// The bytes of pairs of tokens.
    pub open spec fn pair_bytes(self, pairs: Seq<(TokenId, TokenId)>) -> Seq<(Seq<u8>, Seq<u8>)> {
        pairs.map_values(
            |p: (TokenId, TokenId)| (self.vocab[p.0.0 as int], self.vocab[p.1.0 as int]),
        )
    }
}

/// Whether a step prepends a mark.
pub open spec fn prepends_mark(step: NormStep) -> bool {
    step == NormStep::Prepend(mark())
}

/// Whether a step makes each space a mark.
pub open spec fn marks_spaces(step: NormStep) -> bool {
    step == (NormStep::Replace { pattern: seq![0x20u8], content: mark() })
}

} // verus!
