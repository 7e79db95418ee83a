//! SentencePiece BPE.

use std::collections::BTreeMap;

use gigatoken::batch::sp::{
    sp_doc_chunks, sp_encode_docs_ragged, sp_encode_docs_ragged_serial, sp_encode_files_docs,
    sp_encode_files_docs_serial,
};
use gigatoken::input::file_source::DocFormat;
use gigatoken::load_tokenizer::config::{
    AddedToken, Model, NormalizerJson, PatternJson, PreTokenizerJson, TokenizerJson,
};
use gigatoken::load_tokenizer::hf::load_hf_sentencepiece;
use gigatoken::sentencepiece::bpe::{NormOp, SentencePieceBPE};
use gigatoken::sentencepiece::charsmap::{check_charsmap, CharsmapError, PrecompiledCharsmap};
use gigatoken::sentencepiece::encoder::EncodeState;
use gigatoken::sentencepiece::matching::{SpecBytes, TokenSpecs};
use gigatoken::sentencepiece::model::{RawPrepend, WordSplit};
use gigatoken::strings::{collapse_space_runs, replace_bytes};
use gigatoken::token::TokenId;

#[test]
fn test_collapse_space_runs() {
    let collapse = |s: &str| {
        String::from_utf8(collapse_space_runs(s.as_bytes(), "▁".as_bytes())).unwrap()
    };
    assert_eq!(collapse("a  b   c d  "), "a▁b▁c d▁");
    assert_eq!(collapse("a \t  b"), "a \t▁b");
    assert_eq!(collapse("  "), "▁");
    assert_eq!(collapse("no runs"), "no runs");
}

#[test]
fn occurrences_are_replaced_left_to_right() {
    assert_eq!(replace_bytes(b"aaa", b"aa", b"b"), b"ba");
    assert_eq!(replace_bytes(b"a b", b" ", "▁".as_bytes()), "a▁b".as_bytes());
    assert_eq!(replace_bytes(b"ab", b"", b"-"), b"-a-b-");
}

/// Places the node of the entries that agree in their first `depth` bytes.
fn place(
    units: &mut Vec<u32>,
    used: &mut Vec<bool>,
    bases: &mut Vec<usize>,
    entries: &[(Vec<u8>, u32)],
    depth: usize,
    id: usize,
    label: u32,
) {
    let leaf = entries.iter().find(|e| e.0.len() == depth);
    let mut groups: BTreeMap<u8, Vec<(Vec<u8>, u32)>> = BTreeMap::new();
    for e in entries.iter().filter(|e| e.0.len() > depth) {
        groups.entry(e.0[depth]).or_default().push(e.clone());
    }
    let mut base = 1;
    loop {
        let taken = bases.contains(&base)
            || (leaf.is_some() && used.get(base) == Some(&true))
            || groups.keys().any(|&c| used.get(base ^ c as usize) == Some(&true));
        if !taken {
            break;
        }
        base += 1;
    }
    let len = (base / 256 + 1) * 256;
    if units.len() < len {
        units.resize(len, 0);
        used.resize(len, false);
    }
    bases.push(base);
    units[id] = (((id ^ base) as u32) << 10) | ((leaf.is_some() as u32) << 8) | label;
    if let Some((_, value)) = leaf {
        used[base] = true;
        units[base] = value | (1 << 31);
    }
    for c in groups.keys() {
        used[base ^ *c as usize] = true;
    }
    for (c, group) in &groups {
        place(units, used, bases, group, depth + 1, base ^ *c as usize, *c as u32);
    }
}

/// A charsmap with these replacements.
fn charsmap_blob(pairs: &[(&str, &str)]) -> Vec<u8> {
    let mut texts: Vec<u8> = Vec::new();
    let mut entries: Vec<(Vec<u8>, u32)> = Vec::new();
    for (from, to) in pairs {
        entries.push((from.as_bytes().to_vec(), texts.len() as u32));
        texts.extend_from_slice(to.as_bytes());
        texts.push(0);
    }
    entries.sort();
    let mut units = vec![0u32; 256];
    let mut used = vec![false; 256];
    used[0] = true;
    place(&mut units, &mut used, &mut Vec::new(), &entries, 0, 0, 0);
    let mut blob = (4 * units.len() as u32).to_le_bytes().to_vec();
    for unit in units {
        blob.extend_from_slice(&unit.to_le_bytes());
    }
    blob.extend_from_slice(&texts);
    blob
}

fn nfkc_like() -> Vec<u8> {
    let full: Vec<(String, String)> = "fulwidth"
        .chars()
        .map(|c| {
            let wide = char::from_u32(c as u32 - 0x21 + 0xFF01).unwrap();
            (wide.to_string(), c.to_string())
        })
        .collect();
    let mut pairs: Vec<(&str, &str)> = vec![
        ("\t", " "),
        ("\n", " "),
        ("\r", " "),
        ("\x07", ""),
        ("a\u{301}", "á"),
        ("e\u{308}", "ë"),
        ("x\u{300}", "x̀"),
        ("ﬁ", "fi"),
        ("½", "1⁄2"),
        ("㎒", "MHz"),
        ("Ⅷ", "VIII"),
        ("\u{200b}", " "),
    ];
    pairs.extend(full.iter().map(|(a, b)| (a.as_str(), b.as_str())));
    charsmap_blob(&pairs)
}

#[test]
fn test_precompiled_fast_scan_matches_grapheme_walk() {
    let blob = nfkc_like();
    let charsmap = PrecompiledCharsmap::new(&blob).ok().unwrap();
    let pre = spm_precompiled::Precompiled::from(&blob).ok().unwrap();
    let cases = [
        "plain ascii text",
        "tabs\tand\r\nnewlines\rmixed\x07controls\x00",
        "combining: a\u{301} e\u{308} at end x\u{300}",
        "ﬁligature ½ ㎒ Ⅷ ｆｕｌｌｗｉｄｔｈ",
        "mixed日本語and ascii, ünïcode wörds",
        "\u{200b}zero width start",
        "trailing non-ascii é",
        "é",
        "",
        "\r",
        "\r\n",
        "a\r\nb",
    ];
    for case in cases {
        let mut fast = Vec::new();
        charsmap.normalize_into(case.as_bytes(), &mut fast);
        assert_eq!(
            String::from_utf8(fast).unwrap(),
            pre.normalize_string(case),
            "fast path diverged for {case:?}"
        );
    }
    let mut out = Vec::new();
    charsmap.normalize_into("ﬁ½\ta\x07e\u{308}ｗ".as_bytes(), &mut out);
    assert_eq!(out, "fi1⁄2 aëw".as_bytes());
}

#[test]
fn broken_charsmaps_are_refused() {
    let blob = nfkc_like();
    assert!(check_charsmap(&blob));
    assert!(matches!(PrecompiledCharsmap::new(&blob[..100]), Err(CharsmapError::Parse)));
    // The root leads out of the trie.
    let mut out = blob.clone();
    out[4..8].copy_from_slice(&(0x1F_FFFFu32 << 10).to_le_bytes());
    assert!(!check_charsmap(&out));
    assert!(matches!(PrecompiledCharsmap::new(&out), Err(CharsmapError::Unsound)));
}

/// What a charsmap makes of a text.
fn mapped(charsmap: &PrecompiledCharsmap, text: &str) -> String {
    let mut out = Vec::new();
    charsmap.normalize_into(text.as_bytes(), &mut out);
    String::from_utf8(out).unwrap()
}

#[test]
fn charsmaps_need_room_for_texts_alone() {
    // A trie without keys, that the bytes from `units` on lead out of.
    let trie = |units: u32| {
        let mut blob = (4 * units).to_le_bytes().to_vec();
        blob.resize(4 + 4 * units as usize, 0);
        blob
    };
    assert!(check_charsmap(&trie(0xF5)));
    assert!(!check_charsmap(&trie(0xF4)));
    for units in [0xF5, 0xF4, 0x80] {
        let charsmap = PrecompiledCharsmap::new(&trie(units)).ok().unwrap();
        let text = "é a\r\n\u{10ffff}";
        assert_eq!(mapped(&charsmap, text), text);
    }
    assert!(matches!(PrecompiledCharsmap::new(&trie(0x7F)), Err(CharsmapError::Unsound)));
    assert!(matches!(PrecompiledCharsmap::new(&trie(0)), Err(CharsmapError::Unsound)));
}

#[test]
fn a_charsmap_serves_the_texts_that_it_can() {
    // The second key has no replacement.
    let mut blob = charsmap_blob(&[("ﬁ", "fi"), ("½", "1⁄2"), ("\t", " "), ("a\u{301}", "á")]);
    let leaf = (3u32 | (1 << 31)).to_le_bytes();
    let at = (4..blob.len()).step_by(4).find(|&i| blob[i..i + 4] == leaf).unwrap();
    blob[at..at + 4].copy_from_slice(&0xFFFF_FFFFu32.to_le_bytes());
    assert!(!check_charsmap(&blob));
    let charsmap = PrecompiledCharsmap::new(&blob).ok().unwrap();
    let pre = spm_precompiled::Precompiled::from(&blob).ok().unwrap();
    for text in ["", "ﬁ\tx", "a\u{301}\r\nﬁﬁ", "日本 a\u{301}\u{302}\u{303}", "a\u{301}\u{302}"] {
        assert_eq!(mapped(&charsmap, text), pre.normalize_string(text), "{text:?}");
    }
    assert_eq!(mapped(&charsmap, "ﬁ\tx"), "fi x");
    assert_eq!(mapped(&charsmap, "ﬁ ½"), "ﬁ ½");
}

fn normalizer(kind: &str) -> NormalizerJson {
    NormalizerJson {
        kind: kind.to_string(),
        normalizers: vec![],
        prepend: None,
        pattern: None,
        content: None,
        strip_left: None,
        strip_right: None,
        precompiled_charsmap: None,
    }
}

fn llama_normalizer() -> NormalizerJson {
    let prepend = NormalizerJson { prepend: Some("▁".to_string()), ..normalizer("Prepend") };
    let replace = NormalizerJson {
        pattern: Some(PatternJson { regex: None, literal: Some(" ".to_string()) }),
        content: Some("▁".to_string()),
        ..normalizer("Replace")
    };
    NormalizerJson { normalizers: vec![prepend, replace], ..normalizer("Sequence") }
}

fn metaspace(scheme: &str, split: bool) -> PreTokenizerJson {
    PreTokenizerJson {
        kind: "Metaspace".to_string(),
        pretokenizers: vec![],
        pattern: None,
        replacement: Some("▁".to_string()),
        prepend_scheme: Some(scheme.to_string()),
        add_prefix_space: None,
        split: Some(split),
    }
}

const PIECES: [&str; 18] = [
    "▁", "h", "e", "l", "o", "w", "r", "d", "he", "ll", "hell", "hello", "▁hello", "or", "▁w",
    "▁wor", "ld", "▁▁",
];

const MERGES: [(&str, &str); 9] = [
    ("h", "e"),
    ("l", "l"),
    ("he", "ll"),
    ("hell", "o"),
    ("▁", "hello"),
    ("o", "r"),
    ("▁", "w"),
    ("▁w", "or"),
    ("l", "d"),
];

fn file(normalizer: Option<NormalizerJson>, pre: Option<PreTokenizerJson>) -> TokenizerJson {
    let mut vocab: Vec<(String, u32)> =
        vec![("<unk>".to_string(), 0), ("<s>".to_string(), 1), ("</s>".to_string(), 2)];
    for b in 0..=255u32 {
        vocab.push((format!("<0x{b:02X}>"), 3 + b));
    }
    for (i, p) in PIECES.iter().enumerate() {
        vocab.push((p.to_string(), 259 + i as u32));
    }
    TokenizerJson {
        model: Model {
            model_type: Some("BPE".to_string()),
            vocab,
            merges: MERGES.iter().map(|(a, b)| (a.to_string(), b.to_string())).collect(),
            byte_fallback: true,
        },
        added_tokens: vec![AddedToken {
            id: 1,
            content: "<s>".to_string(),
            lstrip: false,
            rstrip: true,
            normalized: false,
        }],
        pre_tokenizer: pre,
        normalizer,
    }
}

fn id(piece: &str) -> u32 {
    259 + PIECES.iter().position(|p| *p == piece).unwrap() as u32
}

fn llama() -> SentencePieceBPE {
    load_hf_sentencepiece(&file(Some(llama_normalizer()), None)).ok().unwrap()
}

fn encode(t: &SentencePieceBPE, text: &str) -> Vec<u32> {
    t.encode_raw(text).iter().map(|t| t.0).collect()
}

#[test]
fn llama_texts_encode_and_decode() {
    let t = llama();
    assert_eq!(encode(&t, "hello world"), [id("▁hello"), id("▁wor"), id("ld")]);
    assert_eq!(encode(&t, ""), Vec::<u32>::new());
    // A char without a piece falls back to its bytes.
    assert_eq!(encode(&t, "é"), [id("▁"), 3 + 0xC3, 3 + 0xA9]);
    // Whitespace after the token belongs to it; the next chunk is prefixed anew.
    assert_eq!(encode(&t, "<s>  hello"), [1, id("▁hello")]);
    for text in ["hello world", "héllo  wörld\n", "x<s>y", "日本 語"] {
        let tokens = t.encode_raw(text);
        let back = t.decode(&tokens);
        if !text.contains("<s>") {
            assert_eq!(back, text.as_bytes());
        }
    }
    assert_eq!(t.vocab_size(), 277);
    assert_eq!(t.vocab_entries().last(), Some(&(276, "▁▁".as_bytes())));
    assert_eq!(t.merge_entries()[0], (&b"h"[..], &b"e"[..]));
    assert!(t.prepends_space());
}

#[test]
fn texts_without_added_tokens_come_back() {
    let always = PreTokenizerJson {
        kind: "Metaspace".to_string(),
        pretokenizers: Vec::new(),
        pattern: None,
        replacement: Some("▁".to_string()),
        prepend_scheme: Some("always".to_string()),
        add_prefix_space: None,
        split: Some(false),
    };
    let prepended = load_hf_sentencepiece(&file(Some(llama_normalizer()), None)).ok().unwrap();
    let spaced = load_hf_sentencepiece(&file(None, Some(always))).ok().unwrap();
    // An added token that is matched against normalizer output.
    let mut tj = file(Some(llama_normalizer()), None);
    tj.added_tokens[0].normalized = true;
    let normalized = load_hf_sentencepiece(&tj).ok().unwrap();
    for t in [&prepended, &spaced, &normalized] {
        for text in ["", "Hello world", "hello  wörld", "日本\t語\n", "x < s > y"] {
            let mut ids = t.encode_raw(text);
            assert_eq!(t.decode(&ids), text.as_bytes(), "{text:?}");
            // Ids outside the vocabulary change nothing.
            ids.insert(ids.len() / 2, TokenId(t.vocab_size() as u32 + 5));
            assert_eq!(t.decode(&ids), text.as_bytes());
        }
    }
    assert_eq!(prepended.decode(&prepended.encode_raw(" hello")), b" hello");
}

#[test]
fn a_unit_is_cached_once() {
    let t = llama();
    let mut state = EncodeState::new();
    let units: [&[u8]; 5] = [b" hello", b" wor", b" hello", b" a unit of many bytes", b" wor"];
    let sizes = [1, 2, 2, 3, 3];
    for (unit, size) in units.iter().zip(sizes) {
        let mut first = Vec::new();
        let mut again = Vec::new();
        t.encode_unit(&mut state, unit, false, true, &mut first);
        assert_eq!(state.cache_size(), size);
        t.encode_unit(&mut state, unit, false, true, &mut again);
        assert_eq!(state.cache_size(), size);
        assert_eq!(again, first);
        assert_eq!(first, t.merge_unit(unit, true));
    }
}

#[test]
fn raw_and_normalized_paths_agree() {
    let t = llama();
    assert_eq!(t.raw_prepend(), Some(RawPrepend::Unguarded));
    assert_eq!(t.word_split(), WordSplit::SpaceRuns);
    for text in ["hello world", "  hello   world ", "wor ld\thello", " ", "é è"] {
        let slow = t.merge_unit(&t.normalize(text, true), false);
        assert_eq!(t.encode_raw(text), slow, "{text:?}");
    }
    let mut e = t.encoder();
    for _ in 0..3 {
        assert_eq!(e.encode_raw("hello world"), t.encode_raw("hello world"));
    }
}

#[test]
fn metaspace_prepends_by_its_scheme() {
    let never = load_hf_sentencepiece(&file(None, Some(metaspace("never", false)))).ok().unwrap();
    assert_eq!(encode(&never, "hello world"), [id("hello"), id("▁wor"), id("ld")]);
    let always = load_hf_sentencepiece(&file(None, Some(metaspace("always", true)))).ok().unwrap();
    assert_eq!(always.word_split(), WordSplit::EveryMark);
    assert_eq!(encode(&always, "hello"), [id("▁hello")]);
    assert_eq!(encode(&always, " hello"), [id("▁hello")]);
    assert_eq!(encode(&always, "<s>hello"), [1, id("▁hello")]);
    assert_eq!(encode(&always, "  hello"), [id("▁"), id("▁hello")]);
    let first = load_hf_sentencepiece(&file(None, Some(metaspace("first", false)))).ok().unwrap();
    assert_eq!(encode(&first, "hello<s>hello"), [id("▁hello"), 1, id("hello")]);
}

#[test]
fn normalizer_steps_apply_in_order() {
    let ops = vec![
        NormOp::Strip { left: true, right: false },
        NormOp::CollapseSpaces { content: "_".to_string() },
        NormOp::Replace { pattern: "_".to_string(), content: "--".to_string() },
        NormOp::Prepend(">".to_string()),
    ];
    assert_eq!(
        gigatoken::sentencepiece::bpe::apply_norm_ops(&ops, " \u{3000}a  b ".as_bytes()),
        b">a--b "
    );
    assert_eq!(gigatoken::sentencepiece::bpe::apply_norm_ops(&ops, b"  "), b"");
    let charsmap = PrecompiledCharsmap::new(&nfkc_like()).ok().unwrap();
    assert_eq!(
        gigatoken::sentencepiece::bpe::apply_norm_ops(&[NormOp::Precompiled(charsmap)], "ﬁ".as_bytes()),
        b"fi"
    );
}

#[test]
fn groups_of_texts_encode_as_one_by_one() {
    let t = llama();
    let texts: Vec<&str> = vec!["hello", "", "world hello", "é"];
    let serial = sp_encode_docs_ragged_serial(&t, &texts);
    assert_eq!(serial.1, [1, 0, 3, 3]);
    assert_eq!(sp_encode_docs_ragged(&t, &texts, 4), serial);
    assert_eq!(sp_doc_chunks(&texts, 1), vec![vec!["hello"], vec!["", "world hello"], vec!["é"]]);
}

#[test]
fn files_of_texts_must_be_utf8() {
    let t = llama();
    let text = DocFormat::Text { separator: Some(b"|".to_vec()) };
    let files: Vec<&[u8]> = vec![b"hello|hello world", b"hello"];
    let serial = sp_encode_files_docs_serial(&t, &files, &text);
    assert_eq!(serial.as_ref().map(|r| r.1.clone()), Some(vec![1, 3, 1]));
    assert_eq!(sp_encode_files_docs(&t, &files, &text, 2), serial);
    let bad: Vec<&[u8]> = vec![b"hello|\xFF"];
    assert_eq!(sp_encode_files_docs_serial(&t, &bad, &text), None);
    assert_eq!(sp_encode_files_docs(&t, &bad, &text, 2), None);
}

#[test]
fn tokens_without_content_stand_everywhere() {
    let mut tj = file(None, Some(metaspace("never", false)));
    let nothing = AddedToken {
        id: 2,
        content: String::new(),
        lstrip: false,
        rstrip: false,
        normalized: false,
    };
    tj.added_tokens.push(nothing);
    let t = load_hf_sentencepiece(&tj).ok().unwrap();
    assert_eq!(encode(&t, ""), [2]);
    assert_eq!(encode(&t, "he"), [2, id("h"), 2, id("e"), 2]);
    // Behind a match there is none.
    assert_eq!(encode(&t, "<s>h"), [1, id("h"), 2]);
    assert_eq!(encode(&t, "h<s>"), [2, id("h"), 1]);
    // A match among the spaces that one takes is passed over.
    tj.added_tokens[1].rstrip = true;
    let t = load_hf_sentencepiece(&tj).ok().unwrap();
    assert_eq!(encode(&t, "  h"), [2, 2, id("h"), 2]);
    // Matched against normalizer output, it takes the spaces behind it.
    tj.added_tokens[1].normalized = true;
    let t = load_hf_sentencepiece(&tj).ok().unwrap();
    assert_eq!(encode(&t, "   "), [2]);
    assert_eq!(encode(&t, "<s>"), [1]);
}

#[test]
fn tokens_are_found_as_the_automaton_finds_them() {
    let contents = ["<s>", "", "he", "hello", ""];
    let specs: Vec<SpecBytes> = contents
        .iter()
        .enumerate()
        .map(|(i, c)| SpecBytes {
            content: c.as_bytes().to_vec(),
            id: TokenId(i as u32),
            lstrip: false,
            rstrip: false,
        })
        .collect();
    let specs = TokenSpecs::new(specs);
    let automaton = aho_corasick::AhoCorasick::builder()
        .match_kind(aho_corasick::MatchKind::LeftmostLongest)
        .build(contents)
        .unwrap();
    for text in ["", "x", "hello", "hex<s>hello", "<s><s>", "hell he "] {
        let mut found = Vec::new();
        let (mut from, mut behind) = (0, false);
        while let Some((start, end, k)) = specs.find(text.as_bytes(), from, behind) {
            found.push((start, end, k));
            (from, behind) = (end, true);
        }
        let want: Vec<(usize, usize, usize)> = automaton
            .find_iter(text)
            .map(|m| (m.start(), m.end(), m.pattern().as_usize()))
            .collect();
        assert_eq!(found, want, "{text:?}");
    }
}
