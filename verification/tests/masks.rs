//! Mask scanners.

use gigatoken::pretokenize::mask::{
    ascii_masks, char_through, classify_uni_chars, digit_run_splits3, nn_at_full, UniView,
};
use gigatoken::pretokenize::nemotron::NemotronScheme;
use gigatoken::pretokenize::r50k::FastR50kPretokenizer;
use gigatoken::pretokenize::unicode::CharClass;
use gigatoken::pretokenize::word_masks::{word_masks, MaskPretokenizer, R50kScheme};
use rand::rngs::StdRng;
use rand::seq::IndexedRandom;
use rand::{Rng, SeedableRng};

fn nemotron(s: &str, batches: bool) -> Vec<String> {
    MaskPretokenizer::new(s.as_bytes(), NemotronScheme, batches)
        .collect()
        .iter()
        .map(|p| String::from_utf8_lossy(p.0).into_owned())
        .collect()
}

#[test]
fn ascii_bytes_are_classified() {
    let mut text = b"aZ09 \t\x0b\x0c\r\n'.\xc3\xa9".to_vec();
    text.resize(70, b'x');
    let m = ascii_masks(&text, 0);
    assert_eq!(m.l & 0x3FFF, 0b11);
    assert_eq!(m.d, 0b1100);
    assert_eq!(m.s, 1 << 4);
    assert_eq!(m.wt, 0b111 << 5);
    assert_eq!(m.n, 0b11 << 8);
    assert_eq!(m.ap, 1 << 10);
    assert_eq!(m.hi, 0b11 << 12);
    assert_eq!(ascii_masks(&text, 6).l >> 8, u64::MAX >> 8);
}

#[test]
fn digit_runs_split_into_threes() {
    assert_eq!(digit_run_splits3(0), 0);
    assert_eq!(digit_run_splits3(0b111_1111), 0b100_1001);
    assert_eq!(digit_run_splits3(0b1110_0110), 0b0010_0010);
    let every_third: u64 = (0..64).step_by(3).map(|i| 1u64 << i).sum();
    assert_eq!(digit_run_splits3(u64::MAX), every_third);
}

#[test]
fn characters_across_a_place() {
    let text = "aé日".as_bytes();
    assert_eq!(char_through(text, 1, false), (CharClass::Letter, 0, 1));
    assert_eq!(char_through(text, 2, false), (CharClass::Letter, 1, 3));
    assert_eq!(char_through(text, 5, false), (CharClass::Letter, 3, 6));
    assert_eq!(char_through("a\u{301}".as_bytes(), 2, false), (CharClass::Other, 1, 3));
    assert_eq!(char_through("a\u{301}".as_bytes(), 2, true), (CharClass::Letter, 1, 3));
    assert!(nn_at_full(text, 1));
    assert!(!nn_at_full("\u{2003}".as_bytes(), 0));
    assert!(!nn_at_full(b" ", 0));
}

#[test]
fn unicode_characters_are_classified() {
    // é (2 bytes), U+2003 (3 bytes), ½ (2 bytes), a stray continuation byte.
    let mut text = "é\u{2003}½".as_bytes().to_vec();
    text.push(0x80);
    text.resize(80, b'x');
    let hi = ascii_masks(&text, 0).hi;
    assert_eq!(hi, 0xFF);
    let view = UniView { numbers: false, leads: true, marks_join: false };
    let u = classify_uni_chars(&text, 0, hi, &view);
    assert_eq!(u.l, 0b11);
    assert_eq!(u.ws, 0b11100);
    assert_eq!(u.w3, 0b100);
    assert_eq!(u.n, 0b110_0000);
    assert_eq!(u.lead2, 0b10_0001);
    assert_eq!(u.lead3, 0b100);
    assert_eq!(u.cont, 0b101_1010);
    assert_eq!(u.resid, 0b1110_0000);
    let view = UniView { numbers: true, leads: false, marks_join: false };
    let u = classify_uni_chars(&text, 0, hi, &view);
    assert_eq!(u.resid, 0b1000_0000);
    assert_eq!(u.lead2, 0);
}

#[test]
fn words_are_found_in_a_batch() {
    let mut text = b"one two Three4 five".to_vec();
    text.resize(80, b'.');
    let (usable, bad) = word_masks(&text, 0, false);
    assert_eq!(usable, (1 << 3) | (1 << 7) | (1 << 14));
    assert_eq!(bad & 0xFFFFF, 0b1000_0010_0000_0000_0111);
}

#[test]
fn batches_change_no_pretoken() {
    let mut text = String::new();
    for i in 0..200 {
        text.push_str("the quick Brown foxJumps over 12 lazy dogs, it's caf\u{e9} \u{2003} ");
        if i % 7 == 0 {
            text.push_str("\n\n  \u{65e5}\u{672c}!?");
        }
        if i % 5 == 0 {
            text.push_str("averyveryverylongwordwithoutanyspaceatallthatgoesonandonandonandon");
        }
    }
    assert_eq!(nemotron(&text, true), nemotron(&text, false));
    let scalar = FastR50kPretokenizer::new(text.as_bytes()).collect();
    let batched = MaskPretokenizer::new(text.as_bytes(), R50kScheme, true).collect();
    assert_eq!(
        batched.iter().map(|p| p.0).collect::<Vec<_>>(),
        scalar.iter().map(|p| p.0).collect::<Vec<_>>()
    );
}

#[test]
fn nemotron_splits_as_the_regex_does() {
    assert_eq!(nemotron("Hello World", true), ["Hello", " World"]);
    assert_eq!(nemotron("HelloWorld", true), ["Hello", "World"]);
    assert_eq!(nemotron("ABCdef GHI", true), ["ABCdef", " GHI"]);
    assert_eq!(nemotron("don't", true), ["don", "'t"]);
    assert_eq!(nemotron("a1234", true), ["a", "1", "2", "3", "4"]);
    assert_eq!(nemotron(" !?/\n\nx", true), [" !?/\n\n", "x"]);
    assert_eq!(nemotron("x  \n \n  y", true), ["x", "  \n \n", " ", " y"]);
    assert_eq!(nemotron("x   ", true), ["x", "   "]);
    assert_eq!(nemotron("(word", true), ["(word"]);
    assert_eq!(nemotron("\tword", true), ["\tword"]);
    // A mark is upper and lower case at once.
    assert_eq!(nemotron("AB\u{301}C", true), ["AB\u{301}", "C"]);
    assert_eq!(nemotron("\u{301}", true), ["\u{301}"]);
    // Letters without case are both too.
    assert_eq!(nemotron("日本Abc", true), ["日本Abc"]);
}

#[test]
fn nemotron_resumes() {
    let text = b"one two three";
    let mut it = MaskPretokenizer::new(text, NemotronScheme, true);
    assert_eq!(it.next().map(|p| p.0), Some(&b"one"[..]));
    let mut rest = MaskPretokenizer::with_pos(text, NemotronScheme, it.pos(), false);
    assert_eq!(rest.next().map(|p| p.0), Some(&b" two"[..]));
}

/// The Nemotron pattern verbatim.
const NEMOTRON_REF_REGEX: &str = r"[^\r\n\p{L}\p{N}]?[\p{Lu}\p{Lt}\p{Lm}\p{Lo}\p{M}]*[\p{Ll}\p{Lm}\p{Lo}\p{M}]+|[^\r\n\p{L}\p{N}]?[\p{Lu}\p{Lt}\p{Lm}\p{Lo}\p{M}]+[\p{Ll}\p{Lm}\p{Lo}\p{M}]*|\p{N}| ?[^\s\p{L}\p{N}]+[\r\n/]*|\s*[\r\n]+|\s+(?!\S)|\s+";

/// Random codepoint soup drawn from classes that the scheme distinguishes,
/// compared against the regex.
#[test]
fn nemotron_matches_regex_random() {
    let re = fancy_regex::Regex::new(NEMOTRON_REF_REGEX).unwrap();
    let pools: &[&[char]] = &[
        &['a', 'z', 'é', 'ß', 'ж', 'ا', '한', '日'],          // lower/caseless
        &['A', 'Z', 'É', 'Ж', 'Ǆ', 'ǅ'],                      // upper/title
        &['1', '9', '٢', '½', 'Ⅷ', '๕'],                    // numbers
        &[' ', '\t', '\n', '\r', '\u{a0}', '\u{2028}'],       // whitespace
        &['\u{301}', '\u{5bf}', '\u{93b}', '\u{20dd}'],       // marks
        &['.', ',', '!', '$', '\'', '«', '¡', '€', '☃', '/'], // punct/symbols
        &['\u{0}', '\u{ad}', '\u{200b}', '\u{e0001}'],        // other (C*)
    ];
    let mut rng = StdRng::seed_from_u64(0x93E3_5EEE);
    for round in 0..3000 {
        let len = rng.random_range(1..40);
        let s: String = (0..len)
            .map(|_| {
                let pool = pools.choose(&mut rng).unwrap();
                *pool.choose(&mut rng).unwrap()
            })
            .collect();
        let expected: Vec<String> =
            re.find_iter(&s).map(|m| m.unwrap().as_str().to_string()).collect();
        assert_eq!(nemotron(&s, true), expected, "Mismatch on round {round}, case {s:?}");
        assert_eq!(nemotron(&s, false), expected, "Mismatch on round {round}, case {s:?}");
    }
}
