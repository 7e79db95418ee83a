//! What the `normalizer` and `pre_tokenizer` of a file ask for.

use base64::Engine;
use vstd::prelude::*;
use vstd::utf8::encode_utf8;

use crate::load_tokenizer::config::{
    Fault, LoadError, NormalizerJson, PatternJson, PreTokenizerJson,
};
use crate::pretokenize::options::{scheme_of, texts, PretokenizerType};
use crate::sentencepiece::bpe::{step_views, NormOp};
use crate::sentencepiece::charsmap::{
    charsmap_parses, charsmap_opens, CharsmapError, PrecompiledCharsmap,
};
use crate::sentencepiece::model::{Metaspace, NormStep, PrependScheme};
use crate::strings::text_is;

verus! {

#[verifier::external_type_specification]
#[verifier::external_body]
pub struct ExDecodeError(base64::DecodeError);

/// What a text stands for in the standard base64 alphabet with padding, where
/// it stands for anything.
pub uninterp spec fn base64_bytes(text: Seq<u8>) -> Option<Seq<u8>>;

/// `decode` of base64's `STANDARD` engine: the bytes that the text stands for,
/// or an error where it is no base64.
#[verifier::external_body]
pub(crate) fn base64_decode(text: &[u8]) -> (r: Result<Vec<u8>, base64::DecodeError>)
    ensures
        match r {
            Ok(bytes) => base64_bytes(text@) == Some(bytes@),
            Err(_) => base64_bytes(text@) is None,
        },
{
    base64::engine::general_purpose::STANDARD.decode(text)
}

/// Whether a `Replace` pattern is a literal, and which.
pub open spec fn literal_of(p: Option<PatternJson>) -> Option<Seq<char>> {
    match p {
        Some(p) => match p.literal {
            Some(s) => Some(s@),
            None => None,
        },
        None => None,
    }
}

/// Whether a pattern is a regex, and which.
pub open spec fn regex_of(p: Option<PatternJson>) -> Option<Seq<char>> {
    match p {
        Some(p) => match p.regex {
            Some(s) => Some(s@),
            None => None,
        },
        None => None,
    }
}

/// The step of a normalizer that is no sequence.
pub open spec fn one_step(n: NormalizerJson) -> Result<NormStep, Fault> {
    if n.kind@ == "Prepend"@ {
        match n.prepend {
            Some(prefix) => Ok(NormStep::Prepend(encode_utf8(prefix@))),
            None => Err(Fault::PrependWithoutPrefix),
        }
    } else if n.kind@ == "Replace"@ {
        match n.content {
            Some(content) => match literal_of(n.pattern) {
                Some(pattern) => Ok(
                    NormStep::Replace {
                        pattern: encode_utf8(pattern),
                        content: encode_utf8(content@),
                    },
                ),
                None => match regex_of(n.pattern) {
                    Some(regex) => if regex == " {2,}"@ {
                        Ok(NormStep::CollapseSpaces { content: encode_utf8(content@) })
                    } else {
                        Err(Fault::UnsupportedReplaceRegex(regex))
                    },
                    None => Err(Fault::ReplaceWithoutPattern),
                },
            },
            None => Err(Fault::ReplaceWithoutContent),
        }
    } else if n.kind@ == "Strip"@ {
        Ok(
            NormStep::Strip {
                left: n.strip_left != Some(false),
                right: n.strip_right != Some(false),
            },
        )
    } else if n.kind@ == "Precompiled"@ {
        match n.precompiled_charsmap {
            Some(text) => match base64_bytes(encode_utf8(text@)) {
                Some(blob) => if charsmap_opens(blob) {
                    Ok(NormStep::Precompiled(blob))
                } else if charsmap_parses(blob) {
                    Err(Fault::CharsmapUnsound)
                } else {
                    Err(Fault::CharsmapNotParsed)
                },
                None => Err(Fault::CharsmapNotBase64),
            },
            None => Err(Fault::PrecompiledWithoutCharsmap),
        }
    } else {
        Err(Fault::UnsupportedNormalizer(n.kind@))
    }
}

/// The steps of a normalizer: of a sequence those of its parts in order, or the
/// first fault.
pub open spec fn norm_steps(n: NormalizerJson) -> Result<Seq<NormStep>, Fault>
    decreases n, 0nat,
{
    if n.kind@ == "Sequence"@ {
        parts_steps(n.normalizers@, n.normalizers@.len())
    } else {
        match one_step(n) {
            Ok(step) => Ok(seq![step]),
            Err(e) => Err(e),
        }
    }
}

/// The steps of the first `k` of a list of normalizers.
pub open spec fn parts_steps(parts: Seq<NormalizerJson>, k: nat) -> Result<Seq<NormStep>, Fault>
    decreases parts, k,
{
    if k == 0 || k > parts.len() {
        Ok(Seq::empty())
    } else {
        match parts_steps(parts, (k - 1) as nat) {
            Err(e) => Err(e),
            Ok(before) => match norm_steps(parts[k - 1]) {
                Err(e) => Err(e),
                Ok(steps) => Ok(before + steps),
            },
        }
    }
}

/// The step of a normalizer that is no sequence.
fn parse_one(n: &NormalizerJson) -> (r: Result<NormOp, LoadError>)
    ensures
        match r {
            Ok(op) => op.wf() && one_step(*n) == Ok::<NormStep, Fault>(op@),
            Err(e) => one_step(*n) == Err::<NormStep, Fault>(e@),
        },
{
    let kind: &str = n.kind.as_str();
    if text_is(kind, "Prepend") {
        match &n.prepend {
            Some(prefix) => Ok(NormOp::Prepend(prefix.clone())),
            None => Err(LoadError::PrependWithoutPrefix),
        }
    } else if text_is(kind, "Replace") {
        let content: String = match &n.content {
            Some(content) => content.clone(),
            None => return Err(LoadError::ReplaceWithoutContent),
        };
        match &n.pattern {
            Some(PatternJson { literal: Some(pattern), .. }) => Ok(
                NormOp::Replace { pattern: pattern.clone(), content },
            ),
            Some(PatternJson { literal: None, regex: Some(regex) }) => {
                // `remove_extra_whitespaces` of sentencepiece comes as this
                // exact regex.
                if text_is(regex.as_str(), " {2,}") {
                    Ok(NormOp::CollapseSpaces { content })
                } else {
                    Err(LoadError::UnsupportedReplaceRegex(regex.clone()))
                }
            },
            _ => Err(LoadError::ReplaceWithoutPattern),
        }
    } else if text_is(kind, "Strip") {
        let left: bool = match n.strip_left {
            Some(b) => b,
            None => true,
        };
        let right: bool = match n.strip_right {
            Some(b) => b,
            None => true,
        };
        Ok(NormOp::Strip { left, right })
    } else if text_is(kind, "Precompiled") {
        let text: &String = match &n.precompiled_charsmap {
            Some(text) => text,
            None => return Err(LoadError::PrecompiledWithoutCharsmap),
        };
        let blob: Vec<u8> = match base64_decode(text.as_str().as_bytes()) {
            Ok(blob) => blob,
            Err(_) => return Err(LoadError::CharsmapNotBase64),
        };
        match PrecompiledCharsmap::new(blob.as_slice()) {
            Ok(charsmap) => Ok(NormOp::Precompiled(charsmap)),
            Err(CharsmapError::Parse) => Err(LoadError::CharsmapNotParsed),
            Err(CharsmapError::Unsound) => Err(LoadError::CharsmapUnsound),
        }
    } else {
        Err(LoadError::UnsupportedNormalizer(n.kind.clone()))
    }
}

/// Whether the charsmaps of steps are in order.
pub open spec fn ops_wf(ops: Seq<NormOp>) -> bool {
    forall|i: int| 0 <= i < ops.len() ==> (#[trigger] ops[i]).wf()
}

/// Translate a `normalizer` into [`NormOp`]s, erroring on anything unsupported:
/// silently skipping a normalizer would change token ids.
pub fn parse_sp_normalizer(n: &NormalizerJson, out: &mut Vec<NormOp>) -> (r: Result<(), LoadError>)
    requires
        ops_wf(old(out)@),
    ensures
        match r {
            Ok(_) => {
                &&& norm_steps(*n) is Ok
                &&& ops_wf(final(out)@)
                &&& step_views(final(out)@) == step_views(old(out)@) + norm_steps(*n)->Ok_0
            },
            Err(e) => norm_steps(*n) == Err::<Seq<NormStep>, Fault>(e@),
        },
    decreases *n,
{
    let ghost before = step_views(out@);
    if text_is(n.kind.as_str(), "Sequence") {
        let ghost parts = n.normalizers@;
        assert(before + Seq::<NormStep>::empty() =~= before);
        for i in 0..n.normalizers.len()
            invariant
                parts == n.normalizers@,
                n.kind@ == "Sequence"@,
                ops_wf(out@),
                parts_steps(parts, i as nat) is Ok,
                step_views(out@) == before + parts_steps(parts, i as nat)->Ok_0,
        {
            assert(decreases_to!(*n => n.normalizers@[i as int]));
            let ghost mid = step_views(out@);
            let child: &NormalizerJson = &n.normalizers[i];
            let done: Result<(), LoadError> = parse_sp_normalizer(child, out);
            if let Err(e) = done {
                proof {
                    lemma_fault_stays(parts, i as nat + 1, parts.len());
                }
                return Err(e);
            }
            proof {
                let a = parts_steps(parts, i as nat)->Ok_0;
                let b = norm_steps(parts[i as int])->Ok_0;
                assert(before + a + b =~= before + (a + b));
            }
        }
        Ok(())
    } else {
        match parse_one(n) {
            Ok(op) => {
                let ghost ops = out@;
                out.push(op);
                proof {
                    assert(step_views(out@) =~= before + seq![op@]);
                    assert forall|i: int| 0 <= i < out@.len() implies (#[trigger] out@[i]).wf() by {
                        if i < ops.len() {
                            assert(out@[i] == ops[i]);
                        }
                    }
                }
                Ok(())
            },
            Err(e) => Err(e),
        }
    }
}

/// A fault of some parts is one of more.
proof fn lemma_fault_stays(parts: Seq<NormalizerJson>, a: nat, b: nat)
    requires
        1 <= a <= b <= parts.len(),
        parts_steps(parts, a) is Err,
    ensures
        parts_steps(parts, b) == parts_steps(parts, a),
    decreases b - a,
{
    if a < b {
        lemma_fault_stays(parts, a, (b - 1) as nat);
    }
}

/// The prepend scheme of a Metaspace pre-tokenizer.
pub open spec fn prepend_of(pt: PreTokenizerJson) -> Result<PrependScheme, Fault> {
    match pt.prepend_scheme {
        Some(scheme) => if scheme@ == "never"@ {
            Ok(PrependScheme::Never)
        } else if scheme@ == "always"@ {
            Ok(PrependScheme::Always)
        } else if scheme@ == "first"@ {
            Ok(PrependScheme::First)
        } else {
            Err(Fault::UnsupportedPrependScheme(scheme@))
        },
        None => if pt.add_prefix_space == Some(false) {
            Ok(PrependScheme::Never)
        } else {
            Ok(PrependScheme::Always)
        },
    }
}

/// What a Metaspace pre-tokenizer says.
pub open spec fn metaspace_of(pt: PreTokenizerJson) -> Result<Metaspace, Fault> {
    if pt.replacement is Some && pt.replacement->0@ != "\u{2581}"@ {
        Err(Fault::UnsupportedMetaspaceReplacement(pt.replacement->0@))
    } else {
        match prepend_of(pt) {
            Ok(prepend) => Ok(Metaspace { prepend, split: pt.split != Some(false) }),
            Err(e) => Err(e),
        }
    }
}

/// The Metaspace pre-tokenizer of a file, alone or as the one part of a
/// sequence, where there is any pre-tokenizer.
pub open spec fn sp_metaspace(pre_tokenizer: Option<PreTokenizerJson>) -> Result<
    Option<Metaspace>,
    Fault,
> {
    match pre_tokenizer {
        None => Ok(None),
        Some(pt) => {
            let meta = if pt.kind@ == "Metaspace"@ {
                Some(metaspace_of(pt))
            } else if pt.kind@ == "Sequence"@ && pt.pretokenizers@.len() == 1
                && pt.pretokenizers@[0].kind@ == "Metaspace"@ {
                Some(metaspace_of(pt.pretokenizers@[0]))
            } else {
                None
            };
            match meta {
                Some(Ok(ms)) => Ok(Some(ms)),
                Some(Err(e)) => Err(e),
                None => Err(Fault::UnsupportedPreTokenizer(pt.kind@)),
            }
        },
    }
}

fn from_metaspace(pt: &PreTokenizerJson) -> (r: Result<Metaspace, LoadError>)
    ensures
        match r {
            Ok(ms) => metaspace_of(*pt) == Ok::<Metaspace, Fault>(ms),
            Err(e) => metaspace_of(*pt) == Err::<Metaspace, Fault>(e@),
        },
{
    if let Some(replacement) = &pt.replacement {
        if !text_is(replacement.as_str(), "\u{2581}") {
            return Err(LoadError::UnsupportedMetaspaceReplacement(replacement.clone()));
        }
    }
    let prepend: PrependScheme = match &pt.prepend_scheme {
        Some(scheme) => if text_is(scheme.as_str(), "never") {
            PrependScheme::Never
        } else if text_is(scheme.as_str(), "always") {
            PrependScheme::Always
        } else if text_is(scheme.as_str(), "first") {
            PrependScheme::First
        } else {
            return Err(LoadError::UnsupportedPrependScheme(scheme.clone()));
        },
        None => match pt.add_prefix_space {
            Some(false) => PrependScheme::Never,
            _ => PrependScheme::Always,
        },
    };
    let split: bool = match pt.split {
        Some(b) => b,
        None => true,
    };
    Ok(Metaspace { prepend, split })
}

/// Translate a `pre_tokenizer` into a [`Metaspace`] config. No pre-tokenizer
/// (e.g. Llama 2) leaves spaces to the normalizer and lets merges cross word
/// boundaries.
pub fn parse_sp_metaspace(pre_tokenizer: &Option<PreTokenizerJson>) -> (r: Result<
    Option<Metaspace>,
    LoadError,
>)
    ensures
        match r {
            Ok(ms) => sp_metaspace(*pre_tokenizer) == Ok::<Option<Metaspace>, Fault>(ms),
            Err(e) => sp_metaspace(*pre_tokenizer) == Err::<Option<Metaspace>, Fault>(e@),
        },
{
    let pt: &PreTokenizerJson = match pre_tokenizer {
        Some(pt) => pt,
        None => return Ok(None),
    };
    let found: Result<Metaspace, LoadError> = if text_is(pt.kind.as_str(), "Metaspace") {
        from_metaspace(pt)
    } else if text_is(pt.kind.as_str(), "Sequence") && pt.pretokenizers.len() == 1 && text_is(
        pt.pretokenizers[0].kind.as_str(),
        "Metaspace",
    ) {
        from_metaspace(&pt.pretokenizers[0])
    } else {
        Err(LoadError::UnsupportedPreTokenizer(pt.kind.clone()))
    };
    match found {
        Ok(ms) => Ok(Some(ms)),
        Err(e) => Err(e),
    }
}

/// Whether a normalizer is NFC, the only kind there is for ByteLevel BPE.
pub open spec fn nfc_of(n: NormalizerJson) -> Result<bool, Fault>
    decreases n, 0nat,
{
    if n.kind@ == "NFC"@ {
        Ok(true)
    } else if n.kind@ == "Sequence"@ {
        nfc_parts(n.normalizers@, n.normalizers@.len())
    } else {
        Err(Fault::UnsupportedNormalizer(n.kind@))
    }
}

/// Whether one of the first `k` of a list of normalizers is NFC.
pub open spec fn nfc_parts(parts: Seq<NormalizerJson>, k: nat) -> Result<bool, Fault>
    decreases parts, k,
{
    if k == 0 || k > parts.len() {
        Ok(false)
    } else {
        match nfc_parts(parts, (k - 1) as nat) {
            Err(e) => Err(e),
            Ok(before) => match nfc_of(parts[k - 1]) {
                Err(e) => Err(e),
                Ok(nfc) => Ok(before || nfc),
            },
        }
    }
}

/// A fault of some parts is one of more.
proof fn lemma_nfc_fault_stays(parts: Seq<NormalizerJson>, a: nat, b: nat)
    requires
        1 <= a <= b <= parts.len(),
        nfc_parts(parts, a) is Err,
    ensures
        nfc_parts(parts, b) == nfc_parts(parts, a),
    decreases b - a,
{
    if a < b {
        lemma_nfc_fault_stays(parts, a, (b - 1) as nat);
    }
}

fn is_nfc(n: &NormalizerJson) -> (r: Result<bool, LoadError>)
    ensures
        match r {
            Ok(b) => nfc_of(*n) == Ok::<bool, Fault>(b),
            Err(e) => nfc_of(*n) == Err::<bool, Fault>(e@),
        },
    decreases *n,
{
    if text_is(n.kind.as_str(), "NFC") {
        Ok(true)
    } else if text_is(n.kind.as_str(), "Sequence") {
        let ghost parts = n.normalizers@;
        let mut any: bool = false;
        for i in 0..n.normalizers.len()
            invariant
                parts == n.normalizers@,
                n.kind@ != "NFC"@,
                n.kind@ == "Sequence"@,
                nfc_parts(parts, i as nat) == Ok::<bool, Fault>(any),
        {
            assert(decreases_to!(*n => n.normalizers@[i as int]));
            match is_nfc(&n.normalizers[i]) {
                Ok(b) => {
                    any = any || b;
                },
                Err(e) => {
                    proof {
                        lemma_nfc_fault_stays(parts, i as nat + 1, parts.len());
                    }
                    return Err(e);
                },
            }
        }
        Ok(any)
    } else {
        Err(LoadError::UnsupportedNormalizer(n.kind.clone()))
    }
}

/// Whether a file's normalizer is NFC; none is not.
pub open spec fn nfc_normalizer(normalizer: Option<NormalizerJson>) -> Result<bool, Fault> {
    match normalizer {
        Some(n) => nfc_of(n),
        None => Ok(false),
    }
}

/// Determine whether the tokenizer's normalizer is NFC (the only kind we support
/// for ByteLevel BPE): `true` for NFC, `false` for no normalizer, and an error
/// for anything else, since silently skipping an unknown normalizer would change
/// token ids.
pub fn detect_nfc_normalizer(normalizer: &Option<NormalizerJson>) -> (r: Result<bool, LoadError>)
    ensures
        match r {
            Ok(b) => nfc_normalizer(*normalizer) == Ok::<bool, Fault>(b),
            Err(e) => nfc_normalizer(*normalizer) == Err::<bool, Fault>(e@),
        },
{
    match normalizer {
        Some(n) => is_nfc(n),
        None => Ok(false),
    }
}

/// The `Split` regexes of a pre-tokenizer, in order.
pub open spec fn split_regexes(pt: PreTokenizerJson) -> Seq<Seq<char>>
    decreases pt, 0nat,
{
    let own = match regex_of(pt.pattern) {
        Some(regex) => if pt.kind@ == "Split"@ {
            seq![regex]
        } else {
            Seq::empty()
        },
        None => Seq::empty(),
    };
    own + parts_regexes(pt.pretokenizers@, pt.pretokenizers@.len())
}

/// The `Split` regexes of the first `k` of a list of pre-tokenizers, in order.
pub open spec fn parts_regexes(parts: Seq<PreTokenizerJson>, k: nat) -> Seq<Seq<char>>
    decreases parts, k,
{
    if k == 0 || k > parts.len() {
        Seq::empty()
    } else {
        parts_regexes(parts, (k - 1) as nat) + split_regexes(parts[k - 1])
    }
}

fn collect_split_regexes(pt: &PreTokenizerJson, out: &mut Vec<String>)
    ensures
        texts(final(out)@) == texts(old(out)@) + split_regexes(*pt),
    decreases *pt,
{
    let ghost before = texts(out@);
    if text_is(pt.kind.as_str(), "Split") {
        if let Some(PatternJson { regex: Some(regex), .. }) = &pt.pattern {
            out.push(regex.clone());
        }
    }
    let ghost mid = texts(out@);
    let ghost parts = pt.pretokenizers@;
    let ghost own = mid.skip(before.len() as int);
    assert(mid =~= before + own);
    assert(split_regexes(*pt) =~= own + parts_regexes(parts, parts.len()));
    assert(mid + parts_regexes(parts, 0) =~= mid);
    for i in 0..pt.pretokenizers.len()
        invariant
            parts == pt.pretokenizers@,
            texts(out@) == mid + parts_regexes(parts, i as nat),
    {
        assert(decreases_to!(*pt => pt.pretokenizers@[i as int]));
        collect_split_regexes(&pt.pretokenizers[i], out);
        proof {
            let a = parts_regexes(parts, i as nat);
            let b = split_regexes(parts[i as int]);
            assert(mid + a + b =~= mid + (a + b));
        }
    }
    assert(before + (own + parts_regexes(parts, parts.len())) =~= before + own + parts_regexes(
        parts,
        parts.len(),
    ));
}

/// The pretokenization scheme that a `pre_tokenizer` asks for. None, or a bare
/// `ByteLevel`, is GPT-2's.
pub open spec fn pretokenizer_scheme(pre_tokenizer: Option<PreTokenizerJson>) -> Result<
    PretokenizerType,
    Fault,
> {
    match pre_tokenizer {
        None => Ok(PretokenizerType::GPT2),
        Some(pt) => {
            let regexes = split_regexes(pt);
            if regexes.len() > 0 {
                match scheme_of(regexes) {
                    Some(scheme) => Ok(scheme),
                    None => Err(Fault::UnknownSplitRegexes(regexes)),
                }
            } else if pt.kind@ == "ByteLevel"@ {
                Ok(PretokenizerType::GPT2)
            } else {
                Err(Fault::UnsupportedPreTokenizer(pt.kind@))
            }
        },
    }
}

/// Determine the pretokenization scheme from a `pre_tokenizer`.
///
/// Handles a bare `ByteLevel` (GPT-2 style, `use_regex: true`) and `Sequence`s
/// whose `Split` regexes (in order) form a known scheme.
pub fn detect_pretokenizer_type(pre_tokenizer: &Option<PreTokenizerJson>) -> (r: Result<
    PretokenizerType,
    LoadError,
>)
    ensures
        match r {
            Ok(scheme) => pretokenizer_scheme(*pre_tokenizer) == Ok::<PretokenizerType, Fault>(
                scheme,
            ),
            Err(e) => pretokenizer_scheme(*pre_tokenizer) == Err::<PretokenizerType, Fault>(e@),
        },
{
    let pt: &PreTokenizerJson = match pre_tokenizer {
        Some(pt) => pt,
        None => return Ok(PretokenizerType::GPT2),
    };
    let mut regexes: Vec<String> = Vec::new();
    collect_split_regexes(pt, &mut regexes);
    assert(texts(regexes@) =~= split_regexes(*pt));
    if regexes.len() == 0 {
        // ByteLevel with use_regex (the default) splits with the GPT-2 regex.
        if text_is(pt.kind.as_str(), "ByteLevel") {
            return Ok(PretokenizerType::GPT2);
        }
        return Err(LoadError::UnsupportedPreTokenizer(pt.kind.clone()));
    }
    match PretokenizerType::from_split_regexes(regexes.as_slice()) {
        Some(scheme) => Ok(scheme),
        None => Err(LoadError::UnknownSplitRegexes(regexes)),
    }
}

} // verus!
