//! Pretokenization.

use gigatoken::pretokenize::counts::{count_pretokens, merge_counts};
use gigatoken::byte_map::ByteMap;
use gigatoken::pretokenize::keys::{pack_pretoken_key, pretoken_key_hash};
use gigatoken::pretokenize::options::PretokenizerType;
use gigatoken::pretokenize::pretoken::Pretoken;
use gigatoken::pretokenize::pretoken_combinator::{
    contraction, letter_run, number_run, other_run, parse_pretokens, pretokens_iterator,
    whitespace_run,
};
use gigatoken::pretokenize::pretoken_fast::FastPretokenizer;
use gigatoken::pretokenize::r50k::{pretokenize_as_iter, FastR50kPretokenizer, Pretokenize};
use gigatoken::pretokenize::scan::{decode_cp, scan_numbers_max3};
use gigatoken::pretokenize::spans::{PretokenSpans, SpanBatch, SpanIter, PRETOKEN_CHUNK};
use gigatoken::pretokenize::split::safe_split_ranges;
use gigatoken::pretokenize::swar::{load_word, swar64_letter_mask, swar_ws_mask};
use gigatoken::pretokenize::transitions::count_swar_transitions;
use gigatoken::pretokenize::unicode::{
    class_of, class_of_marks_join, ds_class_of, get_general_category, is_deepseek_cjk,
    is_gc_letter, is_gc_number, is_letter, is_number, is_whitespace, o200k_class_of, CharClass,
    DsCharClass, O200kCharClass,
};
use icu::properties::props::{GeneralCategory, GeneralCategoryGroup};

fn texts(s: &str) -> Vec<String> {
    FastR50kPretokenizer::new(s.as_bytes())
        .collect()
        .iter()
        .map(|p| String::from_utf8_lossy(p.0).into_owned())
        .collect()
}

#[test]
fn twopass_small_cases() {
    fn count(s: &str) -> usize {
        FastPretokenizer::new(s.as_bytes()).count()
    }
    fn count_onepass(s: &str) -> usize {
        let mut iter = FastPretokenizer::new(s.as_bytes());
        let mut n = 0;
        while iter.next().is_some() {
            n += 1;
        }
        n
    }
    let cases = [
        "hello",
        " hello",
        "hello world",
        " hello world",
        "  hello",
        "\nhello",
        "\n\nhello",
        "don't",
        "don't stop",
        "they'll go",
        "it's he'll",
        "'hello",
        " 'hello",
        "123 456",
        " 123",
        "hello, world!",
        "  \n  hello",
        "\n\n",
        "   ",
        " ",
        "",
        "café",
    ];
    for &case in &cases {
        let expected = count_onepass(case);
        let got = count(case);
        assert_eq!(expected, got, "Case {:?}: expected {expected}, got {got}", case);
    }
    println!("All small cases pass.");
}

#[test]
fn r50k_splits_as_the_regex_does() {
    assert_eq!(texts("Hello, world!"), ["Hello", ",", " world", "!"]);
    assert_eq!(texts("don't they'll"), ["don", "'t", " they", "'ll"]);
    assert_eq!(texts("'Twas"), ["'", "Twas"]);
    assert_eq!(texts("a  b"), ["a", " ", " b"]);
    assert_eq!(texts("a \t\nb"), ["a", " \t", "\n", "b"]);
    assert_eq!(texts("x   "), ["x", "   "]);
    assert_eq!(texts("abc123 45é"), ["abc", "123", " 45", "é"]);
    assert_eq!(texts("日本 ½!"), ["日本", " ½", "!"]);
    assert_eq!(texts("\u{a0}\u{2003}x"), ["\u{a0}", "\u{2003}", "x"]);
    assert_eq!(texts(""), Vec::<String>::new());
}

#[test]
fn pretokens_partition_any_bytes() {
    let inputs: [&[u8]; 6] = [
        b"plain text, with words",
        b"\xff\xff\xffcba",
        b"tail \xe2\x80",
        b"\x80\x80 x",
        b"  \n\r\n\t ",
        "caf\u{e9} \u{1F389}!".as_bytes(),
    ];
    for input in inputs {
        let parts = pretokenize_as_iter(input).collect();
        let joined: Vec<u8> = parts.iter().flat_map(|p| p.0.iter().copied()).collect();
        assert_eq!(joined, input);
        assert!(parts.iter().all(|p| !p.0.is_empty()));
        assert_eq!(parts.len(), FastPretokenizer::new(input).count());
    }
}

#[test]
fn counts_hold_wherever_lines_end() {
    let line = "one two, three ";
    let long = line.repeat(1000);
    // Lines end behind the middle, before it, at both ends, and nowhere near it.
    let texts = [
        format!("{long}{line}\nx{long}"),
        format!("{long}\nx{line}{long}"),
        format!("\n\nx{long}\n x\ny"),
        long.clone(),
        "\n".repeat(20000),
    ];
    for text in texts {
        let n = pretokenize_as_iter(text.as_bytes()).collect().len();
        assert_eq!(FastPretokenizer::new(text.as_bytes()).count(), n);
    }
}

#[test]
fn resuming_gives_the_rest() {
    let text = b"one two three";
    let mut it = FastR50kPretokenizer::new(text);
    assert_eq!(it.next().map(|p| p.0), Some(&b"one"[..]));
    assert_eq!(it.pos(), 3);
    let rest = FastR50kPretokenizer::with_pos(text, it.pos()).collect();
    let rest: Vec<&[u8]> = rest.iter().map(|p| p.0).collect();
    assert_eq!(rest, [&b" two"[..], b" three"]);
    assert_eq!(text[..].pretokens().collect().len(), 3);
}

#[test]
fn test_parse_pretokens() {
    let input = "Hello, world!";
    let pretokens = parse_pretokens(input.as_bytes()).unwrap();
    println!("{:?}", pretokens);
    assert_eq!(pretokens, [&b"Hello"[..], b",", b" world", b"!"]);
}

#[test]
fn parsers_take_the_first_alternative() {
    assert_eq!(contraction(b"'llama", 0), Some(3));
    assert_eq!(contraction(b"'x", 0), None);
    assert_eq!(letter_run(b" ab1", 0), Some(3));
    assert_eq!(letter_run(b" 1", 0), None);
    assert_eq!(number_run(b" 12a", 0), Some(3));
    assert_eq!(other_run(b" !?a", 0), Some(3));
    assert_eq!(whitespace_run(b"  a", 0), Some(1));
    assert_eq!(whitespace_run(b"  ", 0), Some(2));
    assert_eq!(whitespace_run(b"a", 0), None);
    assert_eq!(parse_pretokens(b""), None);
    for s in ["a  b", "\n\nhello", "it's 3 o'clock \u{2003}x", "caf\u{e9}\u{301}!"] {
        let parsed = parse_pretokens(s.as_bytes()).unwrap();
        let walked = pretokenize_as_iter(s.as_bytes()).collect();
        assert_eq!(parsed, walked.iter().map(|p| p.0).collect::<Vec<_>>());
    }
}

#[test]
fn fill_spans_keyed_matches_iterator_all_schemes() {
    let pieces: &[&str] = &[
        "word", " word", "12", " 345678", "'ll", "'s", " ", "  ", "\n", "\r\n", "\t", "!", " ?!",
        "(", "caf\u{e9}", "\u{65e5}\u{672c}", "\u{1F389}", "\u{00A0}", "\u{2003}", "a", " I",
        "don't", "one two three four five", "\u{4e2d}\u{6587}", "\u{30ab}\u{30bf}", "123456",
        " longpretokenword", "supercalifragilistic",
    ];
    let mut state = 0x9E3779B97F4A7C15u64;
    let mut rng = move || {
        state ^= state << 13;
        state ^= state >> 7;
        state ^= state << 17;
        state
    };
    for round in 0..60 {
        // Vary length so end-of-input lands at many chunk offsets.
        let target = 40 + round * 97;
        let mut buf = Vec::new();
        while buf.len() < target {
            buf.extend_from_slice(pieces[(rng() % pieces.len() as u64) as usize].as_bytes());
        }
        let expected = FastR50kPretokenizer::new(&buf).collect();
        let mut src = FastR50kPretokenizer::new(&buf);
        let mut got: Vec<&[u8]> = Vec::new();
        let mut batch = SpanBatch::new();
        loop {
            let n = src.fill_spans_keyed(&mut batch);
            for i in 0..n {
                let (want_key, want_hash) = match pack_pretoken_key(batch.spans[i]) {
                    Some(key) => (key, pretoken_key_hash(key)),
                    None => (0, 0),
                };
                assert_eq!(batch.keys[i], want_key, "bad key for {:?}", batch.spans[i]);
                assert_eq!(batch.hashes[i], want_hash, "bad hash for {:?}", batch.spans[i]);
                got.push(batch.spans[i]);
            }
            if n < PRETOKEN_CHUNK {
                break;
            }
        }
        assert_eq!(got.len(), expected.len(), "span count mismatch");
        for (i, (g, e)) in got.iter().zip(&expected).enumerate() {
            assert_eq!(*g, e.0, "span {i} diverged");
        }
    }
}

#[test]
fn span_iter_hands_out_its_pretokens() {
    let mut it = SpanIter::new(vec![Pretoken(b"ab"), Pretoken(b"a pretoken that is long")]);
    let mut batch = SpanBatch::new();
    assert_eq!(it.fill_spans_keyed(&mut batch), 2);
    assert_eq!(batch.keys[1], 0);
    assert_eq!(it.fill_spans_keyed(&mut batch), 0);
}

#[test]
fn pretoken_keys_hold_bytes_and_length() {
    assert_eq!(pack_pretoken_key(b""), Some(0));
    assert_eq!(pack_pretoken_key(b"ab"), Some(0x6261 | (2 << 120)));
    assert_eq!(pack_pretoken_key(b"ab\0"), Some(0x6261 | (3 << 120)));
    assert!(pack_pretoken_key(&[7; 15]).is_some());
    assert_eq!(pack_pretoken_key(&[7; 16]), None);
    let lo = 0x6261u64;
    let hi = 2u64 << 56;
    let mut h = (lo ^ hi.rotate_right(25)).wrapping_mul(0x9E37_79B9_7F4A_7C15);
    h ^= h >> 32;
    assert_eq!(pretoken_key_hash(0x6261 | (2 << 120)), h);
}

#[test]
fn test_safe_split_ranges_avoids_added_tokens() {
    let special: &[u8] = b"<|multi word special|>";
    // Deterministic LCG so word lengths vary and split probes hit the
    // special token at every possible phase.
    let mut rng = 0x9e3779b97f4a7c15u64;
    let mut next = move || {
        rng = rng
            .wrapping_mul(6364136223846793005)
            .wrapping_add(1442695040888963407);
        (rng >> 33) as usize
    };
    let words: [&[u8]; 5] = [b"alpha ", b"be ", b"gamma7 ", b"x ", b"delta "];
    let mut input = Vec::new();
    for _ in 0..4000 {
        input.extend_from_slice(words[next() % words.len()]);
        if next() % 9 == 0 {
            input.extend_from_slice(special);
        }
    }

    let ranges = safe_split_ranges(&input, 300, &[special]);
    assert!(ranges.len() > 50, "expected many splits, got {}", ranges.len());
    assert_eq!(ranges.first().unwrap().start, 0);
    assert_eq!(ranges.last().unwrap().end, input.len());
    for w in ranges.windows(2) {
        assert_eq!(w[0].end, w[1].start);
    }

    let occurrences: Vec<usize> = memchr::memmem::find_iter(&input, special).collect();
    assert!(!occurrences.is_empty());
    let cuts_occurrence =
        |p: usize| occurrences.iter().any(|&s| s < p && s + special.len() > p);
    for r in &ranges[1..] {
        assert!(!cuts_occurrence(r.start), "boundary {} cuts an occurrence", r.start);
    }

    // The input must actually tempt the splitter: without the
    // added-token check, some boundary lands inside an occurrence.
    let unaware = safe_split_ranges(&input, 300, &[]);
    assert!(
        unaware[1..].iter().any(|r| cuts_occurrence(r.start)),
        "test input never places a naive boundary inside the special token"
    );
}

#[test]
fn safe_splits_keep_the_pretokens() {
    let text = "Lorem ipsum dolor sit amet, 42 times \u{e9}t\u{e9} d'or it's fine ".repeat(40);
    let input = text.as_bytes();
    let ranges = safe_split_ranges(input, 50, &[]);
    assert!(ranges.len() > 10);
    let whole = FastR50kPretokenizer::new(input).collect();
    let whole: Vec<&[u8]> = whole.iter().map(|p| p.0).collect();
    let mut split: Vec<&[u8]> = Vec::new();
    for r in &ranges {
        for p in FastR50kPretokenizer::new(&input[r.clone()]).collect() {
            split.push(p.0);
        }
    }
    assert_eq!(whole, split);
    assert_eq!(safe_split_ranges(b"", 50, &[]), [0..0]);
    assert_eq!(safe_split_ranges(b"one two", 0, &[]), [0..3, 3..7]);
}

#[test]
fn class_table_matches_icu() {
    for cp in 0..=char::MAX as u32 {
        let Some(c) = char::from_u32(cp) else { continue };
        let expected = if is_letter(c) {
            CharClass::Letter
        } else if is_number(c) {
            CharClass::Number
        } else if is_whitespace(c) {
            CharClass::Whitespace
        } else {
            CharClass::Other
        };
        assert_eq!(class_of(cp), expected, "mismatch at U+{cp:04X}");
    }
}

fn category(c: char) -> GeneralCategory {
    icu::properties::CodePointMapData::<GeneralCategory>::new().get(c)
}

#[test]
fn o200k_class_table_matches_icu() {
    for cp in 0..=char::MAX as u32 {
        let Some(c) = char::from_u32(cp) else { continue };
        let gc = category(c);
        assert_eq!(get_general_category(c), gc as u8);
        let expected = if matches!(
            gc,
            GeneralCategory::UppercaseLetter | GeneralCategory::TitlecaseLetter
        ) {
            O200kCharClass::Upper
        } else if gc == GeneralCategory::LowercaseLetter {
            O200kCharClass::Lower
        } else if is_gc_letter(gc as u8) {
            O200kCharClass::Caseless
        } else if GeneralCategoryGroup::Mark.contains(gc) {
            O200kCharClass::Mark
        } else if is_gc_number(gc as u8) {
            O200kCharClass::Number
        } else if is_whitespace(c) {
            O200kCharClass::Whitespace
        } else {
            O200kCharClass::Other
        };
        assert_eq!(o200k_class_of(cp), expected, "mismatch at U+{cp:04X}");
    }
}

#[test]
fn ds_class_table_matches_icu() {
    for cp in 0..=char::MAX as u32 {
        let Some(c) = char::from_u32(cp) else { continue };
        let gc = category(c);
        let expected = if is_gc_letter(gc as u8) {
            DsCharClass::Letter
        } else if is_gc_number(gc as u8) {
            DsCharClass::Number
        } else if is_whitespace(c) {
            DsCharClass::Whitespace
        } else if GeneralCategoryGroup::Mark.contains(gc) {
            DsCharClass::Mark
        } else if GeneralCategoryGroup::Punctuation.contains(gc)
            || GeneralCategoryGroup::Symbol.contains(gc)
        {
            DsCharClass::PunctSym
        } else {
            DsCharClass::Other
        };
        assert_eq!(ds_class_of(cp), expected, "mismatch at U+{cp:04X}");
    }
}

#[test]
fn classes_of_chosen_characters() {
    assert_eq!(class_of('é' as u32), CharClass::Letter);
    assert_eq!(class_of('½' as u32), CharClass::Number);
    assert_eq!(class_of(0x2003), CharClass::Whitespace);
    assert_eq!(class_of(0x301), CharClass::Other);
    assert_eq!(class_of(0xD800), CharClass::Other);
    assert_eq!(class_of_marks_join(0x301), CharClass::Letter);
    assert!(is_deepseek_cjk(0x4E00) && is_deepseek_cjk(0x30FF) && !is_deepseek_cjk(0x9FA6));
}

#[test]
fn characters_decode() {
    assert_eq!(decode_cp("é".as_bytes(), 0), (0xE9, 2));
    assert_eq!(decode_cp("日".as_bytes(), 0), (0x65E5, 3));
    assert_eq!(decode_cp("🙂".as_bytes(), 0), (0x1F642, 4));
    assert_eq!(decode_cp(b"\xe2\x80", 0), (u32::MAX, 2));
    assert_eq!(scan_numbers_max3(b"12345", 0, 0), 3);
    assert_eq!(scan_numbers_max3(b"12345", 1, 1), 3);
}

#[test]
fn words_are_classified_bytewise() {
    let w = load_word(b"aZ @[`{z", 0);
    assert_eq!(swar64_letter_mask(w), 0x8000_0000_0000_8080);
    assert_eq!(swar_ws_mask(load_word(b"\t\n\x0b\x0c\r a\x08", 0)), 0x0000_8080_8080_8080);
    let text = b"The quick brown fox's 12 dens,  and more words here.";
    assert_eq!(count_swar_transitions(text, 0), FastPretokenizer::new(text).count());
}

#[test]
fn transitions_count_pretokens() {
    assert_eq!(count_swar_transitions("\u{a0}a".as_bytes(), 0), 2);
    assert_eq!(count_swar_transitions(b"", 0), 0);
    assert_eq!(count_swar_transitions(b"ab", 7), 0);
    let texts: [&[u8]; 12] = [
        "\u{a0}\u{2003}a".as_bytes(),
        " \u{a0}a \u{3000} b\u{3000}".as_bytes(),
        "\u{2026}'s".as_bytes(),
        "'s\u{e9}".as_bytes(),
        "\u{e9}'s, \u{e9}'ll go".as_bytes(),
        "\u{661}\u{662}3x \u{4e16}\u{754c}!".as_bytes(),
        "don't  stop\t\n'tis  ".as_bytes(),
        b"\xff\xfe a",
        b"\x20\xe2\xc0\xc0\x61",
        b"tail \xe2\x80",
        b"0123456789abcdef, eight and more bytes of plain text\r\n",
        b"   ",
    ];
    for text in texts {
        for start in 0..text.len() {
            let n = FastPretokenizer::new(&text[start..]).count();
            assert_eq!(count_swar_transitions(text, start), n, "{text:?} from {start}");
        }
    }
}

#[test]
fn counting_in_parts_adds_up() {
    let (a, b): (&[u8], &[u8]) = (b"one two one", b"two two");
    let mut whole: ByteMap<usize> = ByteMap::new();
    count_pretokens(a, &mut whole);
    count_pretokens(b, &mut whole);
    let mut left: ByteMap<usize> = ByteMap::new();
    count_pretokens(a, &mut left);
    let mut right: ByteMap<usize> = ByteMap::new();
    count_pretokens(b, &mut right);
    merge_counts(&mut left, &right);
    for (key, n) in [(&b"one"[..], 1), (b" one", 1), (b" two", 2), (b"two", 1)] {
        assert_eq!(whole.get(key), Some(n));
        assert_eq!(left.get(key), Some(n));
    }
    assert_eq!(left.len(), 4);
}

#[test]
fn schemes_are_known_by_their_regex() {
    let gpt2 = r"'(?:[sdmt]|ll|ve|re)| ?\p{L}+| ?\p{N}+| ?[^\s\p{L}\p{N}]+|\s+(?!\S)|\s+";
    let known = PretokenizerType::from_split_regexes(&[gpt2.to_string()]);
    assert!(known.is_some());
    assert!(PretokenizerType::from_split_regexes(&["nonsense".to_string()]).is_none());
    assert!(PretokenizerType::from_split_regexes(&[]).is_none());
}

const GPT2_REGEX: &str =
    r"'(?:[sdmt]|ll|ve|re)| ?\p{L}+| ?\p{N}+| ?[^\s\p{L}\p{N}]+|\s+(?!\S)|\s+";

/// Prose-like text with punctuation, numbers, line breaks and other scripts.
fn prose(len: usize) -> String {
    let words = [
        "the", "Quick", "brown", "fox's", "jumps", "over", "1984", "dogs,", "don't", "naïve",
        "über", "日本語", "Ελλάδα", "(see", "p. 3)", "—", "“so”", "end.", "3.14", "a_b", "x=y;",
    ];
    let gaps = [" ", " ", " ", " ", "  ", "\n", "\n\n", "\t", " \n ", "\u{a0}", "   "];
    let mut state = 0x9e3779b97f4a7c15u64;
    let mut next = move || {
        state = state.wrapping_mul(6364136223846793005).wrapping_add(1442695040888963407);
        (state >> 33) as usize
    };
    let mut text = String::new();
    while text.len() < len {
        text.push_str(words[next() % words.len()]);
        text.push_str(gaps[next() % gaps.len()]);
    }
    text
}

#[test]
fn test_pretokenizer_matches_regex_owt() {
    let text = prose(500_000);
    let re = fancy_regex::Regex::new(GPT2_REGEX).unwrap();
    let mut fast = pretokenize_as_iter(text.as_bytes());
    for m in re.find_iter(&text) {
        let expected = m.expect("regex match error");
        let found = fast.next().expect("a token for every match");
        assert_eq!(String::from_utf8_lossy(found.0), expected.as_str());
    }
    assert!(fast.next().is_none());
}

#[test]
fn test_safe_split_ranges_pretoken_equivalent() {
    let input = prose(2_000_000).into_bytes();

    let ranges = safe_split_ranges(&input, 10_000, &[]);
    assert!(ranges.len() > 100, "expected many splits, got {}", ranges.len());
    // Ranges must cover the input contiguously.
    assert_eq!(ranges.first().unwrap().start, 0);
    assert_eq!(ranges.last().unwrap().end, input.len());
    for w in ranges.windows(2) {
        assert_eq!(w[0].end, w[1].start);
    }
    let whole: Vec<&[u8]> =
        FastR50kPretokenizer::new(&input).collect().iter().map(|p| p.0).collect();
    let split: Vec<&[u8]> = ranges
        .iter()
        .flat_map(|r| FastR50kPretokenizer::new(&input[r.clone()]).collect())
        .map(|p| p.0)
        .collect();
    assert_eq!(whole, split, "scheme r50k differs across safe splits");
}

#[test]
fn the_iterator_yields_what_parsing_gives() {
    let text = b"Hello, world!  I'll go\n";
    let mut it = pretokens_iterator(text);
    let mut found: Vec<&[u8]> = Vec::new();
    while let Some(p) = it.next() {
        found.push(p);
    }
    assert_eq!(Some(found), parse_pretokens(text));
    assert!(pretokens_iterator(b"").next().is_none());
}
