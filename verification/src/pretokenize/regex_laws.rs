//! Laws: what the GPT-2 regex matches, character by character.

use vstd::prelude::*;
use vstd::utf8::{
    char_u32_cast, decode_first_scalar, encode_scalar, encode_utf8, encode_utf8_first_scalar,
    length_of_first_scalar, valid_first_scalar,
};

use crate::pretokenize::cuts::{lemma_suffix_last_ws, lemma_suffix_pretokens, lemma_suffix_run};
use crate::pretokenize::gpt2::{
    after_space, contraction_len, last_ws_char, lemma_pretoken_progress, pretoken_end, pretokens,
};
use crate::pretokenize::scan::{class_at, cp_at, run_end, width_at};
use crate::pretokenize::unicode::{general_category, white_space, CharClass};
use crate::text::lemma_encode_concat;

verus! {

/// The class of a character: of ASCII a letter, a digit, white space or another; of
/// the rest by its general category, and white space by its property.
pub open spec fn kind(c: char) -> CharClass {
    if c <= '\u{7f}' {
        if 'a' <= c <= 'z' || 'A' <= c <= 'Z' {
            CharClass::Letter
        } else if '0' <= c <= '9' {
            CharClass::Number
        } else if c == ' ' || '\t' <= c <= '\r' {
            CharClass::Whitespace
        } else {
            CharClass::Other
        }
    } else if 1 <= general_category(c) <= 5 {
        CharClass::Letter
    } else if 9 <= general_category(c) <= 11 {
        CharClass::Number
    } else if white_space(c) {
        CharClass::Whitespace
    } else {
        CharClass::Other
    }
}

/// The first character of the UTF-8 of a text is the first of the text: its width,
/// its code point and its class; what follows it is the UTF-8 of the rest.
pub proof fn lemma_first_character(chars: Seq<char>)
    requires
        chars.len() > 0,
    ensures
        ({
            let s = encode_utf8(chars);
            let w = encode_utf8(seq![chars[0]]).len();
            &&& 1 <= w <= s.len()
            &&& width_at(s, 0) == w
            &&& s.take(w as int) == encode_utf8(seq![chars[0]])
            &&& s.skip(w as int) == encode_utf8(chars.drop_first())
            &&& cp_at(s, 0) == chars[0] as u32
            &&& class_at(s, 0) == kind(chars[0])
            &&& chars[0] <= '\u{7f}' ==> s[0] as int == chars[0] as int && w == 1
            &&& chars[0] > '\u{7f}' ==> s[0] >= 0x80
        }),
{
    let c = chars[0];
    let s = encode_utf8(chars);
    let one = seq![c];
    assert(chars =~= one + chars.drop_first());
    lemma_encode_concat(one, chars.drop_first());
    encode_utf8_first_scalar(chars);
    encode_utf8_first_scalar(one);
    assert(one.drop_first() =~= Seq::<char>::empty());
    assert(encode_utf8(one) =~= encode_scalar(c as u32));
    let w = encode_utf8(one).len() as int;
    assert(s.take(w) =~= encode_utf8(one));
    assert(s.skip(w) =~= encode_utf8(chars.drop_first()));
    assert(valid_first_scalar(s));
    assert(length_of_first_scalar(s) == w);
    lemma_code_point(s);
    let u = c as u32;
    assert(decode_first_scalar(s) == u);
    char_u32_cast(c, u);
    if c <= '\u{7f}' {
        let b = s[0];
        assert((u & 0x7F) as u8 == u) by (bit_vector)
            requires
                u <= 0x7F,
        ;
        assert(b == u);
    }
}

proof fn lemma_code_point(s: Seq<u8>)
    requires
        valid_first_scalar(s),
    ensures
        cp_at(s, 0) == decode_first_scalar(s),
        width_at(s, 0) == length_of_first_scalar(s),
{
    let a = s[0];
    if a < 0x80 {
        assert((a & 0x7F) == a) by (bit_vector)
            requires
                a < 0x80,
        ;
    }
}

/// The run of one class that a text starts with.
proof fn lemma_run_of(chars: Seq<char>, class: CharClass) -> (n: int)
    ensures
        0 <= n <= chars.len(),
        run_end(encode_utf8(chars), 0, class) == encode_utf8(chars.take(n)).len(),
        forall|i: int| 0 <= i < n ==> kind(#[trigger] chars[i]) == class,
        n < chars.len() ==> kind(chars[n]) != class,
    decreases chars.len(),
{
    let s = encode_utf8(chars);
    assert(chars.take(0) =~= Seq::<char>::empty());
    assert(encode_utf8(Seq::<char>::empty()).len() == 0);
    if chars.len() == 0 {
        assert(chars =~= Seq::<char>::empty());
        0
    } else {
        lemma_first_character(chars);
        if kind(chars[0]) != class {
            0
        } else {
            let rest = chars.drop_first();
            let w = width_at(s, 0);
            let m = lemma_run_of(rest, class);
            lemma_suffix_run(s, w, 0, class);
            let n = m + 1;
            lemma_one_more(chars, m);
            assert forall|i: int| 0 <= i < n implies kind(#[trigger] chars[i]) == class by {
                if i > 0 {
                    assert(rest[i - 1] == chars[i]);
                }
            }
            if n < chars.len() {
                assert(rest[m] == chars[n]);
            }
            n
        }
    }
}

/// The UTF-8 of the first characters, one at a time.
proof fn lemma_one_more(chars: Seq<char>, m: int)
    requires
        chars.len() > 0,
        0 <= m <= chars.len() - 1,
    ensures
        encode_utf8(chars.take(m + 1)) == encode_utf8(seq![chars[0]]) + encode_utf8(
            chars.drop_first().take(m),
        ),
{
    assert(chars.take(m + 1) =~= seq![chars[0]] + chars.drop_first().take(m));
    lemma_encode_concat(seq![chars[0]], chars.drop_first().take(m));
}

/// Where the last character of the white space that a text starts with stands.
proof fn lemma_last_space(chars: Seq<char>, n: int)
    requires
        1 <= n <= chars.len(),
        forall|i: int| 0 <= i < n ==> kind(#[trigger] chars[i]) == CharClass::Whitespace,
        n < chars.len() ==> kind(chars[n]) != CharClass::Whitespace,
    ensures
        last_ws_char(encode_utf8(chars), 0) == encode_utf8(chars.take(n - 1)).len(),
    decreases chars.len(),
{
    let s = encode_utf8(chars);
    let rest = chars.drop_first();
    let w = width_at(s, 0);
    lemma_first_character(chars);
    if rest.len() > 0 {
        lemma_first_character(rest);
        assert(rest[0] == chars[1]);
        assert(s.skip(w)[0] == s[w]);
        lemma_same_at(s, w);
    } else {
        assert(encode_utf8(rest).len() == 0);
    }
    if n == 1 {
        assert(chars.take(0) =~= Seq::<char>::empty());
        assert(encode_utf8(Seq::<char>::empty()).len() == 0);
    } else {
        assert forall|i: int| 0 <= i < n - 1 implies kind(#[trigger] rest[i])
            == CharClass::Whitespace by {
            assert(rest[i] == chars[i + 1]);
        }
        if n < chars.len() {
            assert(rest[n - 1] == chars[n]);
        }
        lemma_last_space(rest, n - 1);
        lemma_suffix_last_ws(s, w, 0);
        lemma_one_more(chars, n - 2);
        assert(kind(chars[1]) == CharClass::Whitespace);
    }
}

proof fn lemma_same_at(s: Seq<u8>, w: int)
    requires
        0 <= w < s.len(),
    ensures
        class_at(s.skip(w), 0) == class_at(s, w),
        width_at(s.skip(w), 0) == width_at(s, w),
{
}

/// Whether a text starts with a contraction of `n` characters.
pub open spec fn contracts(chars: Seq<char>, n: int) -> bool {
    ||| n == 2 && chars.len() >= 2 && chars[0] == '\'' && (chars[1] == 's' || chars[1] == 'd'
        || chars[1] == 'm' || chars[1] == 't')
    ||| n == 3 && chars.len() >= 3 && chars[0] == '\'' && (chars[1] == 'l' && chars[2] == 'l'
        || chars[1] == 'v' && chars[2] == 'e' || chars[1] == 'r' && chars[2] == 'e')
}

/// The contraction that a text starts with, in characters.
proof fn lemma_contraction(chars: Seq<char>) -> (n: int)
    requires
        chars.len() > 0,
    ensures
        n == contraction_len(encode_utf8(chars), 0),
        n > 0 ==> contracts(chars, n) && encode_utf8(chars.take(n)).len() == n,
        n == 0 ==> !contracts(chars, 2) && !contracts(chars, 3),
{
    let s = encode_utf8(chars);
    let rest = chars.drop_first();
    lemma_first_character(chars);
    let n = contraction_len(s, 0);
    assert(encode_utf8(Seq::<char>::empty()).len() == 0);
    if s[0] == 0x27 {
        assert(chars[0] <= '\u{7f}');
        assert(chars[0] == '\'');
    }
    if rest.len() == 0 {
        assert(rest =~= Seq::<char>::empty());
        assert(s.skip(encode_utf8(seq![chars[0]]).len() as int).len() == 0);
        assert(n == 0);
    } else {
        lemma_first_character(rest);
        assert(rest[0] == chars[1]);
        if chars[0] == '\'' {
            assert(s.skip(1)[0] == s[1]);
            let last = rest.drop_first();
            if last.len() == 0 {
                assert(last =~= Seq::<char>::empty());
            } else {
                lemma_first_character(last);
                assert(last[0] == chars[2]);
            }
            if chars[1] <= '\u{7f}' {
                assert(s.skip(1).skip(1) =~= s.skip(2));
                if last.len() > 0 {
                    assert(s.skip(2)[0] == s[2]);
                }
            }
            if n >= 2 {
                assert(s[1] < 0x80);
                assert(chars[1] <= '\u{7f}');
                lemma_one_more(chars, n - 1);
                lemma_one_more(rest, n - 2);
                if n == 3 {
                    assert(s[2] < 0x80);
                    assert(last[0] <= '\u{7f}');
                    lemma_one_more(last, 0);
                    assert(last.drop_first().take(0) =~= Seq::<char>::empty());
                } else {
                    assert(rest.drop_first().take(0) =~= Seq::<char>::empty());
                }
                assert(encode_utf8(chars.take(n)).len() == n);
                assert(contracts(chars, n));
            }
        }
    }
    n
}

/// Whether the pretoken that a text starts with takes its first `n` characters: a
/// contraction; or all that follows of one class, white space left out, with a
/// space in front that it may start with; or white space, all of it at the end of
/// the text or where it is one character, else all but the last.
pub open spec fn starts_with_pretoken(chars: Seq<char>, n: int) -> bool {
    let b: int = if chars[0] == ' ' && chars.len() > 1 {
        1
    } else {
        0
    };
    &&& 1 <= n <= chars.len()
    &&& contracts(chars, 2) || contracts(chars, 3) ==> contracts(chars, n)
    &&& !contracts(chars, 2) && !contracts(chars, 3) && kind(chars[b]) != CharClass::Whitespace
        ==> {
        &&& b < n
        &&& forall|i: int| b <= i < n ==> kind(#[trigger] chars[i]) == kind(chars[b])
        &&& n < chars.len() ==> kind(chars[n]) != kind(chars[b])
    }
    &&& kind(chars[b]) == CharClass::Whitespace ==> {
        &&& forall|i: int| 0 <= i < n ==> kind(#[trigger] chars[i]) == CharClass::Whitespace
        &&& n == chars.len() || {
            &&& kind(chars[n]) != CharClass::Whitespace
            &&& n == 1
        } || {
            &&& kind(chars[n]) == CharClass::Whitespace
            &&& n + 1 < chars.len()
            &&& kind(chars[n + 1]) != CharClass::Whitespace
        }
    }
}

/// The pretokens of a text: the one that it starts with, and those of the rest.
pub proof fn lemma_first_pretoken(chars: Seq<char>) -> (n: int)
    requires
        chars.len() > 0,
    ensures
        starts_with_pretoken(chars, n),
        pretokens(encode_utf8(chars)) == seq![encode_utf8(chars.take(n))] + pretokens(
            encode_utf8(chars.skip(n)),
        ),
{
    let s = encode_utf8(chars);
    lemma_first_character(chars);
    let n = lemma_pretoken_length(chars);
    let e = encode_utf8(chars.take(n)).len() as int;
    lemma_pretoken_progress(s, 0);
    assert(chars =~= chars.take(n) + chars.skip(n));
    lemma_encode_concat(chars.take(n), chars.skip(n));
    assert(s.subrange(0, e) =~= encode_utf8(chars.take(n)));
    assert(s.skip(e) =~= encode_utf8(chars.skip(n)));
    lemma_suffix_pretokens(s, e, 0);
    n
}

proof fn lemma_pretoken_length(chars: Seq<char>) -> (n: int)
    requires
        chars.len() > 0,
    ensures
        starts_with_pretoken(chars, n),
        pretoken_end(encode_utf8(chars), 0) == encode_utf8(chars.take(n)).len(),
{
    let s = encode_utf8(chars);
    let c = lemma_contraction(chars);
    lemma_first_character(chars);
    let rest = chars.drop_first();
    if rest.len() > 0 {
        lemma_first_character(rest);
        assert(rest[0] == chars[1]);
    } else {
        assert(rest =~= Seq::<char>::empty());
        assert(encode_utf8(rest).len() == 0);
    }
    let b: int = if chars[0] == ' ' && chars.len() > 1 {
        1
    } else {
        0
    };
    assert(after_space(s, 0) == b);
    if b == 1 {
        lemma_same_at(s, 1);
    }
    assert(class_at(s, b) == kind(chars[b]));
    if c > 0 {
        assert(kind('\'') == CharClass::Other);
        c
    } else if kind(chars[b]) != CharClass::Whitespace {
        if b == 0 {
            lemma_run_of(chars, kind(chars[0]))
        } else {
            let m = lemma_run_of(rest, kind(chars[1]));
            lemma_suffix_run(s, 1, 0, kind(chars[1]));
            lemma_one_more(chars, m);
            assert forall|i: int| 1 <= i < m + 1 implies kind(#[trigger] chars[i]) == kind(
                chars[1],
            ) by {
                assert(rest[i - 1] == chars[i]);
            }
            if m < rest.len() {
                assert(rest[m] == chars[m + 1]);
            }
            m + 1
        }
    } else {
        let n = lemma_run_of(chars, CharClass::Whitespace);
        assert(kind(chars[0]) == CharClass::Whitespace);
        lemma_last_space(chars, n);
        lemma_shorter(chars, n);
        if n < chars.len() && n > 1 {
            n - 1
        } else {
            n
        }
    }
}

/// More characters take more bytes.
proof fn lemma_shorter(chars: Seq<char>, n: int)
    requires
        1 <= n <= chars.len(),
    ensures
        n < chars.len() ==> encode_utf8(chars.take(n)).len() < encode_utf8(chars).len(),
        n == chars.len() ==> encode_utf8(chars.take(n)).len() == encode_utf8(chars).len(),
        n == 1 ==> encode_utf8(chars.take(n - 1)).len() == 0,
        n > 1 ==> encode_utf8(chars.take(n - 1)).len() > 0,
{
    assert(chars =~= chars.take(n) + chars.skip(n));
    lemma_encode_concat(chars.take(n), chars.skip(n));
    if n < chars.len() {
        lemma_first_character(chars.skip(n));
    } else {
        assert(chars.skip(n) =~= Seq::<char>::empty());
        assert(encode_utf8(Seq::<char>::empty()).len() == 0);
    }
    if n == 1 {
        assert(chars.take(0) =~= Seq::<char>::empty());
        assert(encode_utf8(Seq::<char>::empty()).len() == 0);
    } else {
        lemma_first_character(chars.take(n - 1));
    }
}

} // verus!
