//! Laws: what the settings of a file do to the texts of its tokenizer.

use vstd::prelude::*;
use vstd::utf8::{encode_utf8, valid_utf8};

use crate::bpe::merge::bpe_merged;
use crate::load_tokenizer::config::{
    AddedToken, Fault, NormalizerJson, PreTokenizerJson, TokenizerJson,
};
use crate::load_tokenizer::hf::{added_specs, sp_model, sp_tables};
use crate::load_tokenizer::laws::{
    all_bytes_fall_back, clean_vocab, lemma_sp_char_decodes, lemma_sp_merges_agree,
    lemma_sp_text_decodes, plain_merges,
};
use crate::load_tokenizer::normalizer::{
    nfc_normalizer, nfc_of, nfc_parts, norm_steps, one_step, parts_regexes, parts_steps,
    pretokenizer_scheme, split_regexes,
};
use crate::pretokenize::options::PretokenizerType;
use crate::sentencepiece::laws::marked;
use crate::sentencepiece::model::{
    mark, mark_char_at, metaspaced, steps_applied, Metaspace, NormStep, SpModel, TokenSpec,
};
use crate::sentencepiece::unit_laws::{lemma_metaspaced, lemma_unsplit_merges_whole};
use crate::strings::{collapsed_from, replaced, trimmed_end, trimmed_start};
use crate::token::TokenId;

verus! {

// ---------------------------------------------------------------------------
// Metaspace
// ---------------------------------------------------------------------------

/// The Metaspace pre-tokenizer of a file: the file's pre-tokenizer, or the one part of
/// its sequence.
pub open spec fn is_metaspace(pre: Option<PreTokenizerJson>, pt: PreTokenizerJson) -> bool {
    &&& pt.kind@ == "Metaspace"@
    &&& pre matches Some(top) && (top == pt || (top.kind@ == "Sequence"@ && top.kind@
        != "Metaspace"@ && top.pretokenizers@.len() == 1 && top.pretokenizers@[0] == pt))
}

/// Whether a file has a Metaspace pre-tokenizer that is told not to split.
pub open spec fn told_not_to_split(tj: TokenizerJson) -> bool {
    exists|pt: PreTokenizerJson| #[trigger]
        is_metaspace(tj.pre_tokenizer, pt) && pt.split == Some(false)
}

/// The Metaspace of a file with `split` false does not split; one with `split` true,
/// or without the field, does. A file without a pre-tokenizer has none.
pub proof fn lemma_file_split(tj: TokenizerJson, m: SpModel, pt: PreTokenizerJson)
    requires
        sp_model(tj) == Ok::<SpModel, Fault>(m),
    ensures
        tj.pre_tokenizer is None ==> m.metaspace is None,
        is_metaspace(tj.pre_tokenizer, pt) ==> {
            &&& m.metaspace is Some
            &&& pt.split == Some(false) ==> !m.metaspace->0.split
            &&& pt.split == Some(true) ==> m.metaspace->0.split
            &&& pt.split is None ==> m.metaspace->0.split
        },
{
}

/// Where a file's pre-tokenizer is told not to split, or there is none, the tokens of a
/// text without added tokens are those of merging its normal form whole.
pub proof fn lemma_file_unsplit_merges_whole(tj: TokenizerJson, m: SpModel, s: Seq<u8>)
    requires
        sp_model(tj) == Ok::<SpModel, Fault>(m),
        clean_vocab(tj),
        plain_merges(tj),
        all_bytes_fall_back(tj),
        tj.pre_tokenizer is None || told_not_to_split(tj),
        m.no_added_in(s),
        s.len() > 0,
        valid_utf8(s),
        m.normal_form(s).len() > 0,
        m.norm_added.len() == 0 || steps_applied(m.steps, s).len() > 0,
        valid_utf8(m.normal_form(s)),
    ensures
        m.tokens(s) == bpe_merged(m.rules, m.symbols_from(m.normal_form(s), 0, false)),
{
    if tj.pre_tokenizer is Some {
        let pt = choose|pt: PreTokenizerJson| #[trigger]
            is_metaspace(tj.pre_tokenizer, pt) && pt.split == Some(false);
        lemma_file_split(tj, m, pt);
    }
    let steps = m.steps;
    let metaspace = m.metaspace;
    assert(m == sp_tables(tj, steps, metaspace));
    lemma_sp_merges_agree(tj, steps, metaspace);
    lemma_sp_text_decodes(tj, steps, metaspace, s, 0, true);
    lemma_sp_text_decodes(tj, steps, metaspace, m.normal_form(s), 0, false);
    lemma_sp_char_decodes(tj, steps, metaspace, mark());
    lemma_unsplit_merges_whole(m, s);
}

/// What the Metaspace of a file makes of a text, by its `prepend_scheme`: "never" only
/// makes spaces marks; "always" puts a mark before it, unless it is empty or starts
/// with a space or a mark; "first" does so for the first chunk alone. Without a scheme
/// it is "never" where `add_prefix_space` is false, and else "always".
pub proof fn lemma_file_prepend(
    tj: TokenizerJson,
    m: SpModel,
    pt: PreTokenizerJson,
    s: Seq<u8>,
    first_chunk: bool,
)
    requires
        sp_model(tj) == Ok::<SpModel, Fault>(m),
        is_metaspace(tj.pre_tokenizer, pt),
        s.len() > 0,
        s[0] != 0x20,
        !mark_char_at(s, 0),
    ensures
        ({
            let out = metaspaced(m.metaspace, s, first_chunk);
            &&& pt.prepend_scheme is Some && pt.prepend_scheme->0@ == "never"@ ==> out == marked(s)
            &&& pt.prepend_scheme is Some && pt.prepend_scheme->0@ == "always"@ ==> out == mark() + marked(s)
            &&& pt.prepend_scheme is Some && pt.prepend_scheme->0@ == "first"@ ==> out == if first_chunk {
                mark() + marked(s)
            } else {
                marked(s)
            }
            &&& pt.prepend_scheme is None && pt.add_prefix_space == Some(false) ==> out == marked(s)
            &&& pt.prepend_scheme is None && pt.add_prefix_space != Some(false) ==> out == mark()
                + marked(s)
        }),
{
    reveal_strlit("never");
    reveal_strlit("always");
    reveal_strlit("first");
    assert("never"@.len() == 5 && "always"@.len() == 6 && "first"@.len() == 5);
    assert("never"@[0] != "first"@[0]);
    lemma_metaspaced(m.metaspace, s, first_chunk);
}

/// A text that is empty, or starts with a space or a mark, gets no mark put first,
/// whatever the scheme.
pub proof fn lemma_file_no_second_mark(
    tj: TokenizerJson,
    m: SpModel,
    pt: PreTokenizerJson,
    s: Seq<u8>,
    first_chunk: bool,
)
    requires
        sp_model(tj) == Ok::<SpModel, Fault>(m),
        is_metaspace(tj.pre_tokenizer, pt),
        s.len() == 0 || s[0] == 0x20 || mark_char_at(s, 0),
    ensures
        metaspaced(m.metaspace, s, first_chunk) == marked(s),
{
    lemma_metaspaced(m.metaspace, s, first_chunk);
}

/// A Metaspace that replaces spaces with anything but U+2581, or whose scheme is none
/// of the three, gives no tokenizer.
pub proof fn lemma_file_metaspace_refused(tj: TokenizerJson, pt: PreTokenizerJson)
    requires
        is_metaspace(tj.pre_tokenizer, pt),
        (pt.replacement matches Some(r) && r@ != "\u{2581}"@) || (pt.prepend_scheme matches Some(x)
            && x@ != "never"@ && x@ != "always"@ && x@ != "first"@),
    ensures
        sp_model(tj) is Err,
{
}

/// A pre-tokenizer that is no Metaspace, nor a sequence of one, gives no tokenizer.
pub proof fn lemma_file_pre_tokenizer_refused(tj: TokenizerJson)
    requires
        tj.pre_tokenizer is Some,
        forall|pt: PreTokenizerJson| !#[trigger] is_metaspace(tj.pre_tokenizer, pt),
    ensures
        sp_model(tj) is Err,
{
    let top = tj.pre_tokenizer->0;
    assert(!is_metaspace(tj.pre_tokenizer, top));
    assert(!is_metaspace(tj.pre_tokenizer, top.pretokenizers@[0]));
}

// ---------------------------------------------------------------------------
// Normalizers
// ---------------------------------------------------------------------------

/// Steps behind steps apply to what those before them give.
pub proof fn lemma_steps_in_turn(a: Seq<NormStep>, b: Seq<NormStep>, s: Seq<u8>)
    ensures
        steps_applied(a + b, s) == steps_applied(b, steps_applied(a, s)),
    decreases b.len(),
{
    if b.len() == 0 {
        assert(a + b =~= a);
    } else {
        assert((a + b).drop_last() =~= a + b.drop_last());
        assert((a + b).last() == b.last());
        lemma_steps_in_turn(a, b.drop_last(), s);
    }
}

/// What a normalizer makes of a text, where it can be followed.
pub open spec fn normalized_by(n: NormalizerJson, s: Seq<u8>) -> Seq<u8> {
    steps_applied(norm_steps(n)->Ok_0, s)
}

/// A file's tokenizer normalizes as its normalizer says; without one texts stay.
pub proof fn lemma_file_normalizer(tj: TokenizerJson, m: SpModel, s: Seq<u8>)
    requires
        sp_model(tj) == Ok::<SpModel, Fault>(m),
    ensures
        tj.normalizer is None ==> steps_applied(m.steps, s) == s,
        tj.normalizer matches Some(n) ==> norm_steps(n) is Ok && steps_applied(m.steps, s)
            == normalized_by(n, s),
        m.normal_form(s) == metaspaced(m.metaspace, steps_applied(m.steps, s), true),
{
}

/// A `Prepend` normalizer puts its text before every text but the empty one.
pub proof fn lemma_prepend_normalizer(n: NormalizerJson, s: Seq<u8>)
    requires
        n.kind@ == "Prepend"@,
        n.prepend is Some,
    ensures
        norm_steps(n) is Ok,
        s.len() > 0 ==> normalized_by(n, s) == encode_utf8(n.prepend->0@) + s,
        s.len() == 0 ==> normalized_by(n, s) == s,
{
    reveal_strlit("Prepend");
    reveal_strlit("Sequence");
    assert("Prepend"@.len() != "Sequence"@.len());
    let step = one_step(n)->Ok_0;
    assert(norm_steps(n) == Ok::<Seq<NormStep>, Fault>(seq![step]));
    lemma_one_step_applies(step, s);
}

/// A `Replace` normalizer with a literal pattern replaces it with its content.
pub proof fn lemma_replace_normalizer(n: NormalizerJson, s: Seq<u8>)
    requires
        n.kind@ == "Replace"@,
        n.pattern is Some,
        n.pattern->0.literal is Some,
        n.content is Some,
    ensures
        norm_steps(n) is Ok,
        normalized_by(n, s) == replaced(
            s,
            encode_utf8(n.pattern->0.literal->0@),
            encode_utf8(n.content->0@),
        ),
{
    lemma_kinds_differ();
    let step = one_step(n)->Ok_0;
    assert(norm_steps(n) == Ok::<Seq<NormStep>, Fault>(seq![step]));
    lemma_one_step_applies(step, s);
}

/// A `Replace` normalizer with a regex and no literal collapses runs of spaces where
/// the regex is ` {2,}`, and is refused where it is another.
pub proof fn lemma_collapse_normalizer(n: NormalizerJson, s: Seq<u8>)
    requires
        n.kind@ == "Replace"@,
        n.pattern is Some,
        n.pattern->0.literal is None,
        n.pattern->0.regex is Some,
        n.content is Some,
    ensures
        n.pattern->0.regex->0@ == " {2,}"@ ==> norm_steps(n) is Ok && normalized_by(n, s)
            == collapsed_from(s, 0, encode_utf8(n.content->0@)),
        n.pattern->0.regex->0@ != " {2,}"@ ==> norm_steps(n) == Err::<Seq<NormStep>, Fault>(
            Fault::UnsupportedReplaceRegex(n.pattern->0.regex->0@),
        ),
{
    lemma_kinds_differ();
    if n.pattern->0.regex->0@ == " {2,}"@ {
        let step = one_step(n)->Ok_0;
        assert(norm_steps(n) == Ok::<Seq<NormStep>, Fault>(seq![step]));
        lemma_one_step_applies(step, s);
    }
}

/// A `Strip` normalizer trims the sides that it does not say false of.
pub proof fn lemma_strip_normalizer(n: NormalizerJson, s: Seq<u8>)
    requires
        n.kind@ == "Strip"@,
    ensures
        norm_steps(n) is Ok,
        n.strip_left != Some(false) && n.strip_right != Some(false) ==> normalized_by(n, s)
            == trimmed_end(trimmed_start(s)),
        n.strip_left != Some(false) && n.strip_right == Some(false) ==> normalized_by(n, s)
            == trimmed_start(s),
        n.strip_left == Some(false) && n.strip_right != Some(false) ==> normalized_by(n, s)
            == trimmed_end(s),
        n.strip_left == Some(false) && n.strip_right == Some(false) ==> normalized_by(n, s) == s,
{
    lemma_kinds_differ();
    let step = one_step(n)->Ok_0;
    assert(norm_steps(n) == Ok::<Seq<NormStep>, Fault>(seq![step]));
    lemma_one_step_applies(step, s);
}

/// A SentencePiece normalizer of any other kind, or without what its kind needs, is
/// refused, and so is a sequence that holds one.
pub proof fn lemma_normalizer_refused(n: NormalizerJson, k: int)
    ensures
        n.kind@ != "Sequence"@ && n.kind@ != "Prepend"@ && n.kind@ != "Replace"@ && n.kind@
            != "Strip"@ && n.kind@ != "Precompiled"@ ==> norm_steps(n) == Err::<
            Seq<NormStep>,
            Fault,
        >(Fault::UnsupportedNormalizer(n.kind@)),
        n.kind@ == "Prepend"@ && n.prepend is None ==> norm_steps(n) == Err::<
            Seq<NormStep>,
            Fault,
        >(Fault::PrependWithoutPrefix),
        n.kind@ == "Replace"@ && n.content is None ==> norm_steps(n) == Err::<
            Seq<NormStep>,
            Fault,
        >(Fault::ReplaceWithoutContent),
        n.kind@ == "Replace"@ && n.content is Some && n.pattern is None ==> norm_steps(n) == Err::<
            Seq<NormStep>,
            Fault,
        >(Fault::ReplaceWithoutPattern),
        n.kind@ == "Precompiled"@ && n.precompiled_charsmap is None ==> norm_steps(n) == Err::<
            Seq<NormStep>,
            Fault,
        >(Fault::PrecompiledWithoutCharsmap),
        n.kind@ == "Sequence"@ && 0 <= k < n.normalizers@.len() && norm_steps(
            n.normalizers@[k],
        ) is Err ==> norm_steps(n) is Err,
{
    lemma_kinds_differ();
    if n.kind@ == "Sequence"@ && 0 <= k < n.normalizers@.len() && norm_steps(
        n.normalizers@[k],
    ) is Err && norm_steps(n) is Ok {
        lemma_parts_ok(n.normalizers@, k as nat + 1, n.normalizers@.len());
    }
}

proof fn lemma_kinds_differ()
    ensures
        "Replace"@ != "Sequence"@,
        "Strip"@ != "Sequence"@,
        "Prepend"@ != "Sequence"@,
        "Precompiled"@ != "Sequence"@,
        "Prepend"@ != "Replace"@,
        "Strip"@ != "Replace"@,
        "Strip"@ != "Prepend"@,
        "Precompiled"@ != "Replace"@,
        "Precompiled"@ != "Prepend"@,
        "Precompiled"@ != "Strip"@,
{
    reveal_strlit("Replace");
    reveal_strlit("Sequence");
    reveal_strlit("Strip");
    reveal_strlit("Prepend");
    reveal_strlit("Precompiled");
    assert("Replace"@.len() == 7 && "Sequence"@.len() == 8 && "Strip"@.len() == 5);
    assert("Prepend"@.len() == 7 && "Precompiled"@.len() == 11);
    assert("Prepend"@[0] != "Replace"@[0]);
}

/// The normalizer of a ByteLevel file: none does nothing, `NFC` puts texts in NFC, a
/// sequence does so where one of its parts does and all can be followed, and any
/// other is refused.
pub proof fn lemma_byte_level_normalizer(normalizer: Option<NormalizerJson>)
    ensures
        match normalizer {
            None => nfc_normalizer(normalizer) == Ok::<bool, Fault>(false),
            Some(n) => {
                &&& n.kind@ == "NFC"@ ==> nfc_normalizer(normalizer) == Ok::<bool, Fault>(true)
                &&& n.kind@ != "NFC"@ && n.kind@ != "Sequence"@ ==> nfc_normalizer(normalizer)
                    == Err::<bool, Fault>(Fault::UnsupportedNormalizer(n.kind@))
                &&& n.kind@ == "Sequence"@ ==> {
                    &&& nfc_normalizer(normalizer) is Ok <==> forall|k: int|
                        0 <= k < n.normalizers@.len() ==> nfc_of(
                            #[trigger] n.normalizers@[k],
                        ) is Ok
                    &&& nfc_normalizer(normalizer) is Ok ==> (nfc_normalizer(normalizer)
                        == Ok::<bool, Fault>(true) <==> exists|k: int|
                        0 <= k < n.normalizers@.len() && nfc_of(#[trigger] n.normalizers@[k])
                            == Ok::<bool, Fault>(true))
                }
            },
        },
{
    if let Some(n) = normalizer {
        reveal_strlit("NFC");
        reveal_strlit("Sequence");
        assert("NFC"@.len() != "Sequence"@.len());
        lemma_nfc_of_parts(n.normalizers@, n.normalizers@.len());
    }
}

proof fn lemma_nfc_of_parts(parts: Seq<NormalizerJson>, k: nat)
    requires
        k <= parts.len(),
    ensures
        nfc_parts(parts, k) is Ok <==> forall|i: int|
            0 <= i < k ==> nfc_of(#[trigger] parts[i]) is Ok,
        nfc_parts(parts, k) is Ok ==> (nfc_parts(parts, k) == Ok::<bool, Fault>(true)
            <==> exists|i: int|
            0 <= i < k && nfc_of(#[trigger] parts[i]) == Ok::<bool, Fault>(true)),
    decreases k,
{
    if k > 0 {
        lemma_nfc_of_parts(parts, (k - 1) as nat);
        let last = parts[k - 1];
        assert(nfc_of(parts[k - 1]) == nfc_of(last));
    }
}

/// The scheme of a ByteLevel file without a pre-tokenizer, or with a bare `ByteLevel`,
/// is that of GPT-2; a pre-tokenizer of another kind that names no regex is refused.
pub proof fn lemma_byte_level_scheme(pre: Option<PreTokenizerJson>)
    ensures
        pre is None ==> pretokenizer_scheme(pre) == Ok::<PretokenizerType, Fault>(
            PretokenizerType::GPT2,
        ),
        pre is Some && pre->0.kind@ == "ByteLevel"@ && pre->0.pretokenizers@.len() == 0
            ==> pretokenizer_scheme(pre) == Ok::<PretokenizerType, Fault>(PretokenizerType::GPT2),
        pre is Some && pre->0.kind@ != "ByteLevel"@ && pre->0.pretokenizers@.len() == 0 && (
        pre->0.pattern is None || pre->0.pattern->0.regex is None || pre->0.kind@ != "Split"@)
            ==> pretokenizer_scheme(pre) == Err::<PretokenizerType, Fault>(
            Fault::UnsupportedPreTokenizer(pre->0.kind@),
        ),
{
    reveal_strlit("ByteLevel");
    reveal_strlit("Split");
    assert("ByteLevel"@.len() != "Split"@.len());
    if let Some(pt) = pre {
        if pt.pretokenizers@.len() == 0 {
            assert(parts_regexes(pt.pretokenizers@, 0) =~= Seq::<Seq<char>>::empty());
        }
    }
}

/// A `Split` with the regex of GPT-2, alone or as the part of a sequence that names a
/// regex, gives its scheme; one with another is refused with what it named.
pub proof fn lemma_split_scheme(pt: PreTokenizerJson, split: PreTokenizerJson, r: Seq<char>)
    requires
        split.kind@ == "Split"@,
        split.pretokenizers@.len() == 0,
        split.pattern is Some,
        split.pattern->0.regex is Some,
        r == split.pattern->0.regex->0@,
        pt == split || (pt.kind@ == "Sequence"@ && pt.pretokenizers@.len() == 2
            && pt.pretokenizers@[0] == split && pt.pretokenizers@[1].kind@ != "Split"@
            && pt.pretokenizers@[1].pretokenizers@.len() == 0),
    ensures
        r
            == "'(?:[sdmt]|ll|ve|re)| ?\\p{L}+| ?\\p{N}+| ?[^\\s\\p{L}\\p{N}]+|\\s+(?!\\S)|\\s+"@
            ==> pretokenizer_scheme(Some(pt)) == Ok::<PretokenizerType, Fault>(
            PretokenizerType::GPT2,
        ),
        r
            != "'(?:[sdmt]|ll|ve|re)| ?\\p{L}+| ?\\p{N}+| ?[^\\s\\p{L}\\p{N}]+|\\s+(?!\\S)|\\s+"@
            ==> pretokenizer_scheme(Some(pt)) == Err::<PretokenizerType, Fault>(
            Fault::UnknownSplitRegexes(seq![r]),
        ),
{
    reveal_strlit("Sequence");
    reveal_strlit("Split");
    assert("Sequence"@.len() != "Split"@.len());
    assert(parts_regexes(split.pretokenizers@, 0) =~= Seq::<Seq<char>>::empty());
    assert(split_regexes(split) =~= seq![r]);
    if pt != split {
        let parts = pt.pretokenizers@;
        assert(parts_regexes(parts[1].pretokenizers@, 0) =~= Seq::<Seq<char>>::empty());
        assert(split_regexes(parts[1]) =~= Seq::<Seq<char>>::empty());
        assert(parts_regexes(parts, 0) =~= Seq::<Seq<char>>::empty());
        assert(parts_regexes(parts, 1) =~= seq![r]);
        assert(parts_regexes(parts, 2) =~= seq![r]);
        assert(split_regexes(pt) =~= seq![r]);
    }
}

proof fn lemma_one_step_applies(step: NormStep, s: Seq<u8>)
    ensures
        steps_applied(seq![step], s) == step.applied(s),
{
    assert(seq![step].drop_last() =~= Seq::<NormStep>::empty());
    assert(steps_applied(seq![step].drop_last(), s) == s);
}

/// The parts of a `Sequence` normalizer apply one after the other, the first part
/// first.
pub proof fn lemma_sequence_normalizer(n: NormalizerJson, s: Seq<u8>, k: int)
    requires
        n.kind@ == "Sequence"@,
        norm_steps(n) is Ok,
        0 <= k < n.normalizers@.len(),
    ensures
        norm_steps(n.normalizers@[k]) is Ok,
        parts_steps(n.normalizers@, k as nat) is Ok,
        parts_steps(n.normalizers@, k as nat + 1) is Ok,
        steps_applied(parts_steps(n.normalizers@, 0)->Ok_0, s) == s,
        steps_applied(parts_steps(n.normalizers@, k as nat + 1)->Ok_0, s) == normalized_by(
            n.normalizers@[k],
            steps_applied(parts_steps(n.normalizers@, k as nat)->Ok_0, s),
        ),
        normalized_by(n, s) == steps_applied(
            parts_steps(n.normalizers@, n.normalizers@.len())->Ok_0,
            s,
        ),
{
    let parts = n.normalizers@;
    lemma_parts_ok(parts, k as nat + 1, parts.len());
    lemma_steps_in_turn(
        parts_steps(parts, k as nat)->Ok_0,
        norm_steps(parts[k])->Ok_0,
        s,
    );
}

proof fn lemma_parts_ok(parts: Seq<NormalizerJson>, a: nat, b: nat)
    requires
        a <= b <= parts.len(),
        parts_steps(parts, b) is Ok,
    ensures
        parts_steps(parts, a) is Ok,
    decreases b - a,
{
    if a < b {
        lemma_parts_ok(parts, a, (b - 1) as nat);
    }
}

// ---------------------------------------------------------------------------
// Added tokens
// ---------------------------------------------------------------------------

/// Whether a token is matched as a file says.
pub open spec fn matched_as(spec: TokenSpec, t: AddedToken, steps: Seq<NormStep>) -> bool {
    &&& spec.id == TokenId(t.id)
    &&& spec.lstrip == t.lstrip
    &&& spec.rstrip == t.rstrip
    &&& spec.content == if t.normalized {
        steps_applied(steps, encode_utf8(t.content@))
    } else {
        encode_utf8(t.content@)
    }
}

proof fn lemma_spec_of(
    added: Seq<AddedToken>,
    normalized: bool,
    steps: Seq<NormStep>,
    i: int,
) -> (k: int)
    requires
        0 <= i < added.len(),
        added[i].normalized == normalized,
    ensures
        0 <= k < added_specs(added, normalized, steps).len(),
        matched_as(added_specs(added, normalized, steps)[k], added[i], steps),
    decreases added.len(),
{
    let init = added.drop_last();
    if i < init.len() {
        lemma_spec_of(init, normalized, steps, i)
    } else {
        added_specs(init, normalized, steps).len() as int
    }
}

proof fn lemma_spec_from(
    added: Seq<AddedToken>,
    normalized: bool,
    steps: Seq<NormStep>,
    k: int,
) -> (i: int)
    requires
        0 <= k < added_specs(added, normalized, steps).len(),
    ensures
        0 <= i < added.len(),
        added[i].normalized == normalized,
        matched_as(added_specs(added, normalized, steps)[k], added[i], steps),
    decreases added.len(),
{
    let init = added.drop_last();
    if k < added_specs(init, normalized, steps).len() {
        lemma_spec_from(init, normalized, steps, k)
    } else {
        added.len() - 1
    }
}

/// Every added token of a SentencePiece file is matched, with its id and its strips:
/// one that is `normalized` against normalizer output, with its content normalized the
/// same way, any other in the raw text.
pub proof fn lemma_file_added(tj: TokenizerJson, m: SpModel, i: int) -> (k: int)
    requires
        sp_model(tj) == Ok::<SpModel, Fault>(m),
        0 <= i < tj.added_tokens@.len(),
    ensures
        !tj.added_tokens@[i].normalized ==> 0 <= k < m.added.len() && matched_as(
            m.added[k],
            tj.added_tokens@[i],
            m.steps,
        ),
        tj.added_tokens@[i].normalized ==> 0 <= k < m.norm_added.len() && matched_as(
            m.norm_added[k],
            tj.added_tokens@[i],
            m.steps,
        ),
{
    lemma_spec_of(tj.added_tokens@, tj.added_tokens@[i].normalized, m.steps, i)
}

/// What a SentencePiece tokenizer matches is an added token of its file: in the raw
/// text one that is not `normalized`, against normalizer output one that is.
pub proof fn lemma_matched_is_added(tj: TokenizerJson, m: SpModel, normalized: bool, k: int) -> (i:
    int)
    requires
        sp_model(tj) == Ok::<SpModel, Fault>(m),
        0 <= k < if normalized {
            m.norm_added.len()
        } else {
            m.added.len()
        },
    ensures
        0 <= i < tj.added_tokens@.len(),
        tj.added_tokens@[i].normalized == normalized,
        matched_as(
            if normalized {
                m.norm_added[k]
            } else {
                m.added[k]
            },
            tj.added_tokens@[i],
            m.steps,
        ),
{
    lemma_spec_from(tj.added_tokens@, normalized, m.steps, k)
}

} // verus!
