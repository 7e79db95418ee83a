//! Laws: the classes of characters, and how documents are divided by them.

use vstd::prelude::*;
use vstd::utf8::{char_u32_cast, encode_utf8};

use crate::pretokenize::counts::occurrences;
use crate::pretokenize::gpt2::pretokens;
use crate::pretokenize::pretoken_combinator::run_match;
use crate::pretokenize::regex_laws::{kind, lemma_first_character, lemma_first_pretoken};
use crate::pretokenize::scan::{class_at, numbers_end, width_at};
use crate::pretokenize::split::{lemma_next_split, next_split, split_ends, split_point};
use crate::pretokenize::unicode::{
    cp_class, cp_class_marks_join, cp_ds_class, cp_o200k_class, deepseek_cjk, general_category,
    white_space, CharClass,
};
use crate::pretokenize::word_masks::tokens_from;
use crate::seqs::{lemma_flatten_concat, lemma_flatten_one};

verus! {

/// The class of a character goes by its general category, 1 to 5 for letters and 9 to 11
/// for numbers, and else by the white space property.
pub proof fn lemma_class(c: char)
    ensures
        ({
            let gc = general_category(c);
            let class = cp_class(c as u32);
            &&& class is Letter <==> gc == 1 || gc == 2 || gc == 3 || gc == 4 || gc == 5
            &&& class is Number <==> gc == 9 || gc == 10 || gc == 11
            &&& class is Whitespace <==> white_space(c) && !(1 <= gc <= 5) && !(9 <= gc <= 11)
        }),
{
    char_u32_cast(c, c as u32);
}

/// A code point that no character has is of no class but the last, in any of the four
/// classifications.
pub proof fn lemma_class_of_no_character(cp: u32)
    requires
        0xD800 <= cp <= 0xDFFF || cp > 0x10FFFF,
    ensures
        cp_class(cp) is Other,
        cp_ds_class(cp) is Other,
        cp_class_marks_join(cp) is Other,
        cp_o200k_class(cp) is Other,
{
}

/// The DeepSeek class of a character goes by its general category: 1 to 5 are letters,
/// 9 to 11 numbers, 6 to 8 marks, 19 to 29 punctuation and symbols; white space, by
/// its property, comes before marks.
pub proof fn lemma_ds_class(c: char)
    ensures
        ({
            let gc = general_category(c);
            let class = cp_ds_class(c as u32);
            &&& class is Letter <==> gc == 1 || gc == 2 || gc == 3 || gc == 4 || gc == 5
            &&& class is Number <==> gc == 9 || gc == 10 || gc == 11
            &&& class is Whitespace <==> white_space(c) && !(1 <= gc <= 5) && !(9 <= gc <= 11)
            &&& class is Mark <==> (gc == 6 || gc == 7 || gc == 8) && !white_space(c)
            &&& class is PunctSym <==> 19 <= gc <= 29 && !white_space(c)
        }),
{
    char_u32_cast(c, c as u32);
}

/// Where marks join letters, a mark counts as a letter and everything else as it does
/// by its own class.
pub proof fn lemma_marks_join(c: char)
    ensures
        ({
            let joined = cp_class_marks_join(c as u32);
            let own = cp_ds_class(c as u32);
            &&& own is Mark ==> joined is Letter
            &&& own is Letter ==> joined is Letter
            &&& own is Number ==> joined is Number
            &&& own is Whitespace ==> joined is Whitespace
            &&& own is PunctSym || own is Other ==> joined is Other
        }),
{
}

/// The o200k class of a character: upper and title case letters, lower case ones, other
/// letters, marks, numbers, white space, and the rest.
pub proof fn lemma_o200k_class(c: char)
    ensures
        ({
            let gc = general_category(c);
            let class = cp_o200k_class(c as u32);
            &&& class is Upper <==> gc == 1 || gc == 3
            &&& class is Lower <==> gc == 2
            &&& class is Caseless <==> gc == 4 || gc == 5
            &&& class is Mark <==> gc == 6 || gc == 7 || gc == 8
            &&& class is Number <==> gc == 9 || gc == 10 || gc == 11
            &&& class is Whitespace <==> white_space(c) && !(1 <= gc <= 11)
        }),
{
    char_u32_cast(c, c as u32);
}

/// The characters that DeepSeek isolates: the unified ideographs from U+4E00 to U+9FA5,
/// hiragana and katakana.
pub proof fn lemma_isolated(c: char)
    ensures
        deepseek_cjk(c as u32) <==> '\u{4e00}' <= c <= '\u{9fa5}' || '\u{3040}' <= c <= '\u{30ff}',
{
}

/// At most `n` number characters are taken, and fewer only where another follows or the
/// text ends.
pub proof fn lemma_numbers_taken(chars: Seq<char>, n: nat) -> (m: int)
    ensures
        0 <= m <= n,
        m <= chars.len(),
        numbers_end(encode_utf8(chars), 0, n) == encode_utf8(chars.take(m)).len(),
        forall|i: int| 0 <= i < m ==> kind(#[trigger] chars[i]) == CharClass::Number,
        m < n && m < chars.len() ==> kind(chars[m]) != CharClass::Number,
    decreases n,
{
    let s = encode_utf8(chars);
    assert(chars.take(0) =~= Seq::<char>::empty());
    assert(encode_utf8(Seq::<char>::empty()).len() == 0);
    if n == 0 || chars.len() == 0 {
        if chars.len() == 0 {
            assert(chars =~= Seq::<char>::empty());
        }
        0
    } else {
        lemma_first_character(chars);
        if kind(chars[0]) != CharClass::Number {
            0
        } else {
            let rest = chars.drop_first();
            let w = width_at(s, 0);
            let m = lemma_numbers_taken(rest, (n - 1) as nat);
            lemma_numbers_in_rest(s, w, 0, (n - 1) as nat);
            assert(chars.take(m + 1) =~= seq![chars[0]] + rest.take(m));
            crate::text::lemma_encode_concat(seq![chars[0]], rest.take(m));
            assert forall|i: int| 0 <= i < m + 1 implies kind(#[trigger] chars[i])
                == CharClass::Number by {
                if i > 0 {
                    assert(rest[i - 1] == chars[i]);
                }
            }
            if m < rest.len() {
                assert(rest[m] == chars[m + 1]);
            }
            m + 1
        }
    }
}

proof fn lemma_numbers_in_rest(s: Seq<u8>, p: int, k: int, n: nat)
    requires
        0 <= p <= s.len(),
        0 <= k <= s.len() - p,
    ensures
        p + numbers_end(s.skip(p), k, n) == numbers_end(s, p + k, n),
    decreases n,
{
    let u = s.skip(p);
    if n > 0 && k < u.len() {
        assert(class_at(u, k) == class_at(s, p + k));
        assert(width_at(u, k) == width_at(s, p + k));
        if class_at(u, k) == CharClass::Number {
            lemma_numbers_in_rest(s, p, k + width_at(u, k), (n - 1) as nat);
        }
    }
}

/// Of the alternatives for runs of one class at most one matches, whichever the class.
pub proof fn lemma_one_alternative(s: Seq<u8>, pos: int, a: CharClass, b: CharClass)
    requires
        0 <= pos < s.len(),
    ensures
        run_match(s, pos, a) is Some && run_match(s, pos, b) is Some ==> a == b,
        run_match(s, pos, CharClass::Letter) is Some || run_match(s, pos, CharClass::Number) is Some
            || run_match(s, pos, CharClass::Other) is Some || run_match(
            s,
            pos,
            CharClass::Whitespace,
        ) is Some,
{
}

/// The ranges that a document is split into: each but the last is at least as long as
/// asked for, and ends at the first place from there on where it may be split.
pub proof fn lemma_ranges_reach_target(
    s: Seq<u8>,
    added: Seq<Seq<u8>>,
    target: int,
    start: int,
    q: int,
)
    requires
        0 <= start < s.len(),
        1 <= target,
    ensures
        ({
            let ends = split_ends(s, added, target, start);
            &&& ends.len() > 0
            &&& ends[0] < s.len() ==> ends[0] >= start + target && split_point(s, added, ends[0])
            &&& start + target <= q < ends[0] ==> !split_point(s, added, q)
            &&& ends[0] == s.len() || ends.skip(1) == split_ends(s, added, target, ends[0])
        }),
{
    lemma_next_split(s, added, start + target);
    let end = next_split(s, added, start + target);
    let rest = split_ends(s, added, target, end);
    let ends = split_ends(s, added, target, start);
    if start + target >= s.len() {
        assert(end == s.len());
    }
    assert(ends == seq![end] + rest);
    assert(ends.skip(1) =~= rest);
}

/// The tokens of a scheme whose every token ends behind its start are the document, one
/// after the other, none of them empty.
pub proof fn lemma_tokens_partition(end: spec_fn(int) -> int, s: Seq<u8>, pos: int)
    requires
        0 <= pos <= s.len(),
        forall|p: int| 0 <= p < s.len() ==> p < #[trigger] end(p) <= s.len(),
    ensures
        tokens_from(end, s, pos).flatten() == s.skip(pos),
        forall|i: int|
            0 <= i < tokens_from(end, s, pos).len() ==> (#[trigger] tokens_from(
                end,
                s,
                pos,
            )[i]).len() > 0,
        pos < s.len() ==> tokens_from(end, s, pos)[0] == s.subrange(pos, end(pos)),
    decreases s.len() - pos,
{
    let all = tokens_from(end, s, pos);
    if pos < s.len() {
        let e = end(pos);
        lemma_tokens_partition(end, s, e);
        let rest = tokens_from(end, s, e);
        let one = s.subrange(pos, e);
        lemma_flatten_concat(seq![one], rest);
        lemma_flatten_one(one);
        assert(one + s.skip(e) =~= s.skip(pos));
        assert forall|i: int| 0 <= i < all.len() implies (#[trigger] all[i]).len() > 0 by {
            if i > 0 {
                assert(all[i] == rest[i - 1]);
            }
        }
    } else {
        assert(all =~= Seq::<Seq<u8>>::empty());
        assert(all.flatten() =~= s.skip(pos));
    }
}

/// A word of letters, digits or signs alone is one pretoken, with or without a space
/// before it; so its count is that of the documents that are it.
pub proof fn lemma_plain_word(word: Seq<char>, space: bool)
    requires
        word.len() > 0,
        word[0] != '\'',
        kind(word[0]) != CharClass::Whitespace,
        forall|i: int| 0 <= i < word.len() ==> kind(#[trigger] word[i]) == kind(word[0]),
    ensures
        ({
            let chars = if space {
                seq![' '] + word
            } else {
                word
            };
            let s = encode_utf8(chars);
            &&& pretokens(s) == seq![s]
            &&& occurrences(pretokens(s), s) == 1
        }),
{
    let chars = if space {
        seq![' '] + word
    } else {
        word
    };
    let s = encode_utf8(chars);
    let n = lemma_first_pretoken(chars);
    let b: int = if space {
        1
    } else {
        0
    };
    assert(chars[b] == word[0]);
    if !space && word[0] == ' ' {
        assert(kind(' ') == CharClass::Whitespace);
    }
    assert(chars[0] != '\'');
    if n < chars.len() {
        assert(chars[n] == word[n - b]);
    }
    assert(n == chars.len());
    assert(chars.take(n) =~= chars);
    assert(chars.skip(n) =~= Seq::<char>::empty());
    assert(encode_utf8(chars.skip(n)) =~= Seq::<u8>::empty());
    assert(pretokens(Seq::<u8>::empty()) =~= Seq::<Seq<u8>>::empty());
    assert(pretokens(s) =~= seq![s]);
    assert(seq![s].drop_last() =~= Seq::<Seq<u8>>::empty());
    assert(occurrences(Seq::<Seq<u8>>::empty(), s) == 0);
    assert(occurrences(seq![s], s) == 1);
}

} // verus!
