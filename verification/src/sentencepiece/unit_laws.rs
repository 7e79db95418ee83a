//! Laws: what a pre-tokenizer does to a text, and which parts of it merge together.

use vstd::prelude::*;
use vstd::utf8::{encode_utf8, valid_utf8};

use crate::bpe::merge::bpe_merged;
use crate::bpe::model::joined;
use crate::sentencepiece::laws::{
    lemma_mark_at_start, lemma_raw_path_is_normalization, lemma_replaced_is_marked,
    lemma_units_merge_as_whole, marked,
};
use crate::sentencepiece::model::{
    mark, mark_char_at, mark_width, metaspaced, steps_applied, Metaspace, PrependScheme, SpModel,
    WordSplit,
};
use crate::seqs::{lemma_flatten_concat, lemma_flatten_one};
use crate::strings::replaced;

verus! {

/// The mark is U+2581.
pub proof fn lemma_mark_char()
    ensures
        mark() == encode_utf8(seq!['\u{2581}']),
{
    let c = seq!['\u{2581}'];
    assert(c.drop_first() =~= Seq::<char>::empty());
    reveal_with_fuel(encode_utf8, 2);
    assert(0xE0u8 | (((0x2581u32 >> 12) & 0x0F) as u8) == 0xE2u8) by (bit_vector);
    assert(0x80u8 | (((0x2581u32 >> 6) & 0x3F) as u8) == 0x96u8) by (bit_vector);
    assert(0x80u8 | ((0x2581u32 & 0x3F) as u8) == 0x81u8) by (bit_vector);
    assert(encode_utf8(c) =~= mark());
}

/// What a Metaspace pre-tokenizer makes of a text: each space becomes a mark; then,
/// always or for the first chunk alone, a mark is put first, unless the text is empty
/// or starts with a space or a mark. Without one a text stays as it is.
pub proof fn lemma_metaspaced(metaspace: Option<Metaspace>, s: Seq<u8>, first_chunk: bool)
    ensures
        metaspace is None ==> metaspaced(metaspace, s, first_chunk) == s,
        metaspace matches Some(ms) ==> {
            let puts = match ms.prepend {
                PrependScheme::Always => true,
                PrependScheme::First => first_chunk,
                PrependScheme::Never => false,
            };
            let starts = s.len() > 0 && (s[0] == 0x20 || mark_char_at(s, 0));
            metaspaced(metaspace, s, first_chunk) == if puts && s.len() > 0 && !starts {
                mark() + marked(s)
            } else {
                marked(s)
            }
        },
{
    assert(s.skip(0) =~= s);
    lemma_replaced_is_marked(s, 0);
    assert(replaced(s, seq![0x20u8], mark()) == marked(s));
    if s.len() > 0 {
        lemma_mark_at_start(s);
    } else {
        assert(marked(s) =~= Seq::<u8>::empty());
    }
}

/// The tokens of a text in which no added token stands are those of its normal form.
proof fn lemma_tokens_of_normal_form(m: SpModel, s: Seq<u8>)
    requires
        m.merges_agree(),
        m.no_added_in(s),
        s.len() > 0,
        valid_utf8(s),
        m.norm_added.len() == 0 || steps_applied(m.steps, s).len() > 0,
        m.text_decodes(s, 0, true),
        m.char_decodes(mark()),
    ensures
        m.tokens(s) == m.normalized_tokens(m.normal_form(s)),
{
    assert(s.skip(0) =~= s);
    assert(m.tokens(s) == m.section_tokens(s, true));
    if m.raw_prepend() is Some {
        lemma_raw_path_is_normalization(m, s, true);
    }
}

/// Where the pre-tokenizer does not split, the tokens of a text in which no added
/// token stands are those of merging its normal form whole: a merge may cross every
/// mark.
pub proof fn lemma_unsplit_merges_whole(m: SpModel, s: Seq<u8>)
    requires
        m.metaspace matches Some(ms) ==> !ms.split,
        m.merges_agree(),
        m.no_added_in(s),
        s.len() > 0,
        valid_utf8(s),
        m.normal_form(s).len() > 0,
        m.norm_added.len() == 0 || steps_applied(m.steps, s).len() > 0,
        valid_utf8(m.normal_form(s)),
        m.text_decodes(s, 0, true),
        m.text_decodes(m.normal_form(s), 0, false),
        m.char_decodes(mark()),
    ensures
        m.tokens(s) == bpe_merged(m.rules, m.symbols_from(m.normal_form(s), 0, false)),
{
    lemma_tokens_of_normal_form(m, s);
    if m.word_split() == WordSplit::SpaceRuns {
        lemma_units_merge_as_whole(m, m.normal_form(s), false, false);
    }
}

/// The units of a text, from `start` on with no end before `p`, are the text, one
/// after the other; none is empty, and behind the first byte of none stands a mark
/// where every mark starts one.
proof fn lemma_units_part(m: SpModel, s: Seq<u8>, start: int, p: int, raw: bool)
    requires
        0 <= start <= p <= s.len(),
        start < p || p == 0,
        forall|q: int| start < q < p ==> !#[trigger] m.unit_ends(s, q, raw),
    ensures
        m.units_from(s, start, p, raw).flatten() == s.skip(start),
        forall|i: int|
            0 <= i < m.units_from(s, start, p, raw).len() ==> (#[trigger] m.units_from(
                s,
                start,
                p,
                raw,
            )[i]).len() > 0,
        m.word_split() == WordSplit::EveryMark ==> forall|i: int, q: int|
            0 <= i < m.units_from(s, start, p, raw).len() && 0 < q < m.units_from(
                s,
                start,
                p,
                raw,
            )[i].len() ==> #[trigger] mark_width(m.units_from(s, start, p, raw)[i], q, raw) == 0,
    decreases s.len() - p,
{
    let units = m.units_from(s, start, p, raw);
    if p >= s.len() {
        if start < s.len() {
            let u = s.skip(start);
            lemma_flatten_one(u);
            assert forall|i: int, q: int|
                m.word_split() == WordSplit::EveryMark && 0 <= i < units.len() && 0 < q
                    < units[i].len() implies #[trigger] mark_width(units[i], q, raw) == 0 by {
                assert(!m.unit_ends(s, start + q, raw));
                assert(mark_width(s, start + q, raw) == 0);
            }
        } else {
            assert(units =~= Seq::<Seq<u8>>::empty());
            assert(units.flatten() =~= s.skip(start));
        }
    } else if m.unit_ends(s, p, raw) {
        lemma_units_part(m, s, p, p + 1, raw);
        let rest = m.units_from(s, p, p + 1, raw);
        let u = s.subrange(start, p);
        lemma_flatten_concat(seq![u], rest);
        lemma_flatten_one(u);
        assert(u + s.skip(p) =~= s.skip(start));
        assert forall|i: int| 0 <= i < units.len() implies (#[trigger] units[i]).len() > 0 by {
            if i > 0 {
                assert(units[i] == rest[i - 1]);
            }
        }
        assert forall|i: int, q: int|
            m.word_split() == WordSplit::EveryMark && 0 <= i < units.len() && 0 < q
                < units[i].len() implies #[trigger] mark_width(units[i], q, raw) == 0 by {
            if i == 0 {
                assert(!m.unit_ends(s, start + q, raw));
                assert(mark_width(s, start + q, raw) == 0);
            } else {
                assert(units[i] == rest[i - 1]);
                assert(mark_width(rest[i - 1], q, raw) == 0);
            }
        }
    } else {
        lemma_units_part(m, s, start, p + 1, raw);
    }
}

/// Where the pre-tokenizer splits, no merge crosses a mark: the normal form of a text
/// falls into parts, none with a mark behind its start, and the tokens are those of
/// merging each part by itself.
pub proof fn lemma_split_merges_apart(m: SpModel, s: Seq<u8>) -> (parts: Seq<Seq<u8>>)
    requires
        m.metaspace matches Some(ms) && ms.split,
        m.merges_agree(),
        m.no_added_in(s),
        s.len() > 0,
        valid_utf8(s),
        m.norm_added.len() == 0 || steps_applied(m.steps, s).len() > 0,
        m.text_decodes(s, 0, true),
        m.char_decodes(mark()),
    ensures
        parts.flatten() == m.normal_form(s),
        forall|i: int| 0 <= i < parts.len() ==> (#[trigger] parts[i]).len() > 0,
        forall|i: int, q: int|
            0 <= i < parts.len() && 0 < q < parts[i].len() ==> !#[trigger] mark_char_at(
                parts[i],
                q,
            ),
        m.tokens(s) == joined(
            parts.map_values(
                |p: Seq<u8>| bpe_merged(m.rules, m.symbols_from(p, 0, false)),
            ),
        ),
{
    lemma_tokens_of_normal_form(m, s);
    let t = m.normal_form(s);
    let parts = m.units_from(t, 0, 0, false);
    lemma_units_part(m, t, 0, 0, false);
    assert(t.skip(0) =~= t);
    assert forall|i: int, q: int| 0 <= i < parts.len() && 0 < q < parts[i].len() implies
        !#[trigger] mark_char_at(parts[i], q) by {
        assert(mark_width(parts[i], q, false) == 0);
    }
    assert(m.unit_pieces(parts, false) =~= parts.map_values(
        |p: Seq<u8>| bpe_merged(m.rules, m.symbols_from(p, 0, false)),
    ));
    parts
}

} // verus!
