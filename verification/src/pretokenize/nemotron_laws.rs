//! Laws: what the Nemotron regex matches, character by character.

use vstd::prelude::*;
use vstd::utf8::encode_utf8;

use crate::pretokenize::nemotron::{
    case_class, cased_match, joint_end, last_space, line_byte, lines_end, lower_end, nemotron_end,
    newline_end, past_space, prefixable, punct_end, space_end, upper_end,
};
use crate::pretokenize::regex_laws::lemma_first_character;
use crate::pretokenize::scan::{cp_at, lead_width, width_at};
use crate::pretokenize::unicode::{general_category, white_space, O200kCharClass};
use crate::text::lemma_encode_concat;

verus! {

/// The class of a character: of ASCII by its range, of the rest by its general
/// category, and white space by its property.
pub open spec fn case_kind(c: char) -> O200kCharClass {
    if c <= '\u{7f}' {
        if 'A' <= c <= 'Z' {
            O200kCharClass::Upper
        } else if 'a' <= c <= 'z' {
            O200kCharClass::Lower
        } else if '0' <= c <= '9' {
            O200kCharClass::Number
        } else if c == ' ' || '\t' <= c <= '\r' {
            O200kCharClass::Whitespace
        } else {
            O200kCharClass::Other
        }
    } else if general_category(c) == 1 || general_category(c) == 3 {
        O200kCharClass::Upper
    } else if general_category(c) == 2 {
        O200kCharClass::Lower
    } else if general_category(c) == 4 || general_category(c) == 5 {
        O200kCharClass::Caseless
    } else if 6 <= general_category(c) <= 8 {
        O200kCharClass::Mark
    } else if 9 <= general_category(c) <= 11 {
        O200kCharClass::Number
    } else if white_space(c) {
        O200kCharClass::Whitespace
    } else {
        O200kCharClass::Other
    }
}

/// Letters without lower case, and marks.
pub open spec fn upper_like(c: char) -> bool {
    case_kind(c) is Upper || case_kind(c) is Caseless || case_kind(c) is Mark
}

/// Letters without upper case, and marks.
pub open spec fn lower_like(c: char) -> bool {
    case_kind(c) is Lower || case_kind(c) is Caseless || case_kind(c) is Mark
}

/// Neither white space nor letter nor number.
pub open spec fn sign(c: char) -> bool {
    case_kind(c) is Mark || case_kind(c) is Other
}

/// A line end or a slash.
pub open spec fn line_char(c: char) -> bool {
    c == '\r' || c == '\n' || c == '/'
}

/// Neither line end nor letter nor number.
pub open spec fn leads(c: char) -> bool {
    c != '\r' && c != '\n' && (sign(c) || case_kind(c) is Whitespace)
}

/// Where character `k` of a text starts in its UTF-8.
pub open spec fn offset(chars: Seq<char>, k: int) -> int {
    encode_utf8(chars.take(k)).len() as int
}

/// The character at a place of a text, and the bytes that it takes.
proof fn lemma_at(chars: Seq<char>, k: int)
    requires
        0 <= k <= chars.len(),
    ensures
        ({
            let s = encode_utf8(chars);
            let o = offset(chars, k);
            &&& 0 <= o <= s.len()
            &&& o < s.len() <==> k < chars.len()
            &&& k < chars.len() ==> {
                &&& case_class(s, o) == case_kind(chars[k])
                &&& width_at(s, o) >= 1
                &&& o + width_at(s, o) == offset(chars, k + 1)
                &&& chars[k] <= '\u{7f}' ==> s[o] as int == chars[k] as int && width_at(s, o) == 1
                &&& chars[k] > '\u{7f}' ==> s[o] >= 0x80
            }
        }),
{
    let s = encode_utf8(chars);
    let o = offset(chars, k);
    let rest = chars.skip(k);
    assert(chars =~= chars.take(k) + rest);
    lemma_encode_concat(chars.take(k), rest);
    let t = encode_utf8(rest);
    assert(s.skip(o) =~= t);
    if k < chars.len() {
        lemma_first_character(rest);
        lemma_class_at(s, o);
        assert(rest[0] == chars[k]);
        assert(chars.take(k + 1) =~= chars.take(k) + seq![chars[k]]);
        lemma_encode_concat(chars.take(k), seq![chars[k]]);
        lemma_case_kind(rest);
    } else {
        assert(rest =~= Seq::<char>::empty());
        assert(t =~= Seq::<u8>::empty());
    }
}

proof fn lemma_class_at(s: Seq<u8>, o: int)
    requires
        0 <= o < s.len(),
    ensures
        case_class(s.skip(o), 0) == case_class(s, o),
        width_at(s.skip(o), 0) == width_at(s, o),
        s.skip(o)[0] == s[o],
{
}

proof fn lemma_case_kind(chars: Seq<char>)
    requires
        chars.len() > 0,
    ensures
        case_class(encode_utf8(chars), 0) == case_kind(chars[0]),
{
    let s = encode_utf8(chars);
    let c = chars[0];
    lemma_first_character(chars);
    vstd::utf8::encode_utf8_first_scalar(chars);
    assert(lead_width(s[0]) <= s.len());
    vstd::utf8::char_u32_cast(c, cp_at(s, 0));
}

/// Earlier characters start earlier.
proof fn lemma_offsets(chars: Seq<char>, a: int, b: int)
    requires
        0 <= a <= b <= chars.len(),
    ensures
        a < b <==> offset(chars, a) < offset(chars, b),
        a == b <==> offset(chars, a) == offset(chars, b),
        offset(chars, chars.len() as int) == encode_utf8(chars).len(),
        offset(chars, 0) == 0,
    decreases b - a,
{
    assert(chars.take(chars.len() as int) =~= chars);
    assert(chars.take(0) =~= Seq::<char>::empty());
    assert(encode_utf8(Seq::<char>::empty()).len() == 0);
    if a < b {
        lemma_at(chars, a);
        lemma_offsets(chars, a + 1, b);
    }
}

// ---------------------------------------------------------------------------
// Runs
// ---------------------------------------------------------------------------

proof fn lemma_upper_run(chars: Seq<char>, k: int) -> (n: int)
    requires
        0 <= k <= chars.len(),
    ensures
        k <= n <= chars.len(),
        upper_end(encode_utf8(chars), offset(chars, k)) == offset(chars, n),
        forall|i: int| k <= i < n ==> upper_like(#[trigger] chars[i]),
        n < chars.len() ==> !upper_like(chars[n]),
    decreases chars.len() - k,
{
    lemma_at(chars, k);
    if k < chars.len() && upper_like(chars[k]) {
        lemma_upper_run(chars, k + 1)
    } else {
        k
    }
}

proof fn lemma_lower_run(chars: Seq<char>, k: int) -> (n: int)
    requires
        0 <= k <= chars.len(),
    ensures
        k <= n <= chars.len(),
        lower_end(encode_utf8(chars), offset(chars, k)) == offset(chars, n),
        forall|i: int| k <= i < n ==> lower_like(#[trigger] chars[i]),
        n < chars.len() ==> !lower_like(chars[n]),
    decreases chars.len() - k,
{
    lemma_at(chars, k);
    if k < chars.len() && lower_like(chars[k]) {
        lemma_lower_run(chars, k + 1)
    } else {
        k
    }
}

proof fn lemma_sign_run(chars: Seq<char>, k: int) -> (n: int)
    requires
        0 <= k <= chars.len(),
    ensures
        k <= n <= chars.len(),
        punct_end(encode_utf8(chars), offset(chars, k)) == offset(chars, n),
        forall|i: int| k <= i < n ==> sign(#[trigger] chars[i]),
        n < chars.len() ==> !sign(chars[n]),
    decreases chars.len() - k,
{
    lemma_at(chars, k);
    if k < chars.len() && sign(chars[k]) {
        lemma_sign_run(chars, k + 1)
    } else {
        k
    }
}

proof fn lemma_line_run(chars: Seq<char>, k: int) -> (n: int)
    requires
        0 <= k <= chars.len(),
    ensures
        k <= n <= chars.len(),
        lines_end(encode_utf8(chars), offset(chars, k)) == offset(chars, n),
        forall|i: int| k <= i < n ==> line_char(#[trigger] chars[i]),
        n < chars.len() ==> !line_char(chars[n]),
    decreases chars.len() - k,
{
    lemma_at(chars, k);
    if k < chars.len() {
        lemma_line_char(chars, k);
        if line_char(chars[k]) {
            lemma_line_run(chars, k + 1)
        } else {
            k
        }
    } else {
        k
    }
}

proof fn lemma_line_char(chars: Seq<char>, k: int)
    requires
        0 <= k < chars.len(),
    ensures
        ({
            let b = encode_utf8(chars)[offset(chars, k)];
            &&& line_byte(b) == line_char(chars[k])
            &&& (b == 10 || b == 13) == (chars[k] == '\r' || chars[k] == '\n')
            &&& (b == 0x20) == (chars[k] == ' ')
        }),
{
    lemma_at(chars, k);
    let b = encode_utf8(chars)[offset(chars, k)];
    if chars[k] <= '\u{7f}' {
        assert(b as int == chars[k] as int);
    }
}

proof fn lemma_space_run(chars: Seq<char>, k: int) -> (n: int)
    requires
        0 <= k <= chars.len(),
    ensures
        k <= n <= chars.len(),
        space_end(encode_utf8(chars), offset(chars, k)) == offset(chars, n),
        forall|i: int| k <= i < n ==> case_kind(#[trigger] chars[i]) is Whitespace,
        n < chars.len() ==> !(case_kind(chars[n]) is Whitespace),
    decreases chars.len() - k,
{
    lemma_at(chars, k);
    if k < chars.len() && case_kind(chars[k]) is Whitespace {
        lemma_space_run(chars, k + 1)
    } else {
        k
    }
}

proof fn lemma_last_of_spaces(chars: Seq<char>, k: int, n: int)
    requires
        0 <= k < n <= chars.len(),
        forall|i: int| k <= i < n ==> case_kind(#[trigger] chars[i]) is Whitespace,
        n < chars.len() ==> !(case_kind(chars[n]) is Whitespace),
    ensures
        last_space(encode_utf8(chars), offset(chars, k)) == offset(chars, n - 1),
    decreases n - k,
{
    lemma_at(chars, k);
    lemma_at(chars, k + 1);
    if k + 1 < n {
        assert(case_kind(chars[k + 1]) is Whitespace);
        lemma_last_of_spaces(chars, k + 1, n);
    }
}

/// The last line end of a run of white space.
proof fn lemma_last_line_end(chars: Seq<char>, k: int, n: int) -> (e: int)
    requires
        0 <= k <= n <= chars.len(),
        forall|i: int| k <= i < n ==> case_kind(#[trigger] chars[i]) is Whitespace,
        n < chars.len() ==> !(case_kind(chars[n]) is Whitespace),
    ensures
        k <= e <= n,
        newline_end(encode_utf8(chars), offset(chars, k)) == if e > k {
            Some(offset(chars, e))
        } else {
            None
        },
        e > k ==> chars[e - 1] == '\r' || chars[e - 1] == '\n',
        forall|i: int| e <= i < n ==> #[trigger] chars[i] != '\r' && chars[i] != '\n',
    decreases n - k,
{
    lemma_at(chars, k);
    if k < n {
        lemma_line_char(chars, k);
        let e = lemma_last_line_end(chars, k + 1, n);
        if e > k + 1 {
            e
        } else if chars[k] == '\r' || chars[k] == '\n' {
            k + 1
        } else {
            k
        }
    } else {
        k
    }
}

/// Whether `k` is the last place from `q` on where a letter or mark that is like a
/// lower one follows such as are like upper ones alone.
pub open spec fn turns_at(chars: Seq<char>, q: int, k: int) -> bool {
    &&& q <= k < chars.len()
    &&& forall|i: int| q <= i < k ==> upper_like(#[trigger] chars[i])
    &&& lower_like(chars[k])
    &&& forall|j: int|
        k < j < chars.len() && (forall|i: int| q <= i < j ==> upper_like(#[trigger] chars[i]))
            ==> !lower_like(#[trigger] chars[j])
}

proof fn lemma_joint(chars: Seq<char>, q: int, n: int) -> (k: int)
    requires
        0 <= q <= n <= chars.len(),
        forall|i: int| q <= i < n ==> upper_like(#[trigger] chars[i]),
        n < chars.len() ==> !upper_like(chars[n]),
    ensures
        q - 1 <= k < n,
        joint_end(encode_utf8(chars), offset(chars, q)) == if k >= q {
            Some(offset(chars, k + 1))
        } else {
            None
        },
        k >= q ==> lower_like(chars[k]),
        forall|i: int| k < i < n && q <= i ==> !lower_like(#[trigger] chars[i]),
    decreases n - q,
{
    lemma_at(chars, q);
    if q < n {
        let k = lemma_joint(chars, q + 1, n);
        if k >= q + 1 {
            k
        } else if lower_like(chars[q]) {
            q
        } else {
            q - 1
        }
    } else {
        q - 1
    }
}

/// What the first letter alternative matches from `q` on: where there is a last turn,
/// all that is like lower letters from it on, and nothing where there is none.
proof fn lemma_cased(chars: Seq<char>, q: int) -> (r: Option<(int, int)>)
    requires
        0 <= q <= chars.len(),
    ensures
        match r {
            Some((k, n)) => {
                &&& turns_at(chars, q, k)
                &&& k < n <= chars.len()
                &&& forall|i: int| k <= i < n ==> lower_like(#[trigger] chars[i])
                &&& n < chars.len() ==> !lower_like(chars[n])
                &&& cased_match(encode_utf8(chars), offset(chars, q)) == Some(offset(chars, n))
            },
            None => {
                &&& cased_match(encode_utf8(chars), offset(chars, q)) is None
                &&& forall|k: int| !#[trigger] turns_at(chars, q, k)
            },
        },
{
    let e = lemma_upper_run(chars, q);
    lemma_at(chars, e);
    if e < chars.len() && case_kind(chars[e]) is Lower {
        let n = lemma_lower_run(chars, e);
        assert(turns_at(chars, q, e)) by {
            assert forall|j: int|
                e < j < chars.len() && (forall|i: int|
                    q <= i < j ==> upper_like(#[trigger] chars[i])) implies !lower_like(
                #[trigger] chars[j],
            ) by {
                assert(upper_like(chars[e]));
            }
        }
        Some((e, n))
    } else {
        let k = lemma_joint(chars, q, e);
        if k >= q {
            assert(turns_at(chars, q, k)) by {
                assert forall|j: int|
                    k < j < chars.len() && (forall|i: int|
                        q <= i < j ==> upper_like(#[trigger] chars[i])) implies !lower_like(
                    #[trigger] chars[j],
                ) by {
                    if j > e {
                        assert(upper_like(chars[e]));
                    }
                }
            }
            assert(k + 1 < chars.len() ==> !lower_like(chars[k + 1]));
            Some((k, k + 1))
        } else {
            assert forall|j: int| !#[trigger] turns_at(chars, q, j) by {
                if turns_at(chars, q, j) {
                    if j > e {
                        assert(upper_like(chars[e]));
                    }
                }
            }
            None
        }
    }
}

// ---------------------------------------------------------------------------
// The pretoken
// ---------------------------------------------------------------------------

/// Whether `n` ends what is like lower letters from `k` on.
pub open spec fn lower_run(chars: Seq<char>, k: int, n: int) -> bool {
    &&& k <= n <= chars.len()
    &&& forall|i: int| k <= i < n ==> lower_like(#[trigger] chars[i])
    &&& n < chars.len() ==> !lower_like(chars[n])
}

/// Whether `n` ends what is like upper letters from `k` on.
pub open spec fn upper_run(chars: Seq<char>, k: int, n: int) -> bool {
    &&& k <= n <= chars.len()
    &&& forall|i: int| k <= i < n ==> upper_like(#[trigger] chars[i])
    &&& n < chars.len() ==> !upper_like(chars[n])
}

/// Whether `n` ends the signs from `k` on, and `m` the line ends and slashes behind
/// them.
pub open spec fn sign_run(chars: Seq<char>, k: int, n: int, m: int) -> bool {
    &&& k < n <= m <= chars.len()
    &&& forall|i: int| k <= i < n ==> sign(#[trigger] chars[i])
    &&& n < chars.len() ==> !sign(chars[n])
    &&& forall|i: int| n <= i < m ==> line_char(#[trigger] chars[i])
    &&& m < chars.len() ==> !line_char(chars[m])
}

/// Whether some letters from `q` on turn to lower ones.
pub open spec fn turns(chars: Seq<char>, q: int) -> bool {
    exists|k: int| #[trigger] turns_at(chars, q, k)
}

/// Whether the pretoken that a text starts with takes its first `n` characters, `k` a
/// place inside it: letters, with a character before them that may lead, upper ones
/// and then at least one lower one if that can be, else at least one upper one and
/// then lower ones; or one number; or signs, with a space before them, and line ends
/// and slashes behind them; or white space up to its last line end, and where it has
/// none all of it at the end of the text or where it is one character, else all but
/// the last.
pub open spec fn starts_with_nemotron(chars: Seq<char>, n: int, k: int) -> bool {
    let c = chars[0];
    let b: int = if c == ' ' && chars.len() > 1 {
        1
    } else {
        0
    };
    let upper_next = chars.len() > 1 && upper_like(chars[1]);
    &&& 1 <= n <= chars.len()
    &&& if leads(c) && turns(chars, 1) {
        turns_at(chars, 1, k) && lower_run(chars, k, n)
    } else if turns(chars, 0) {
        turns_at(chars, 0, k) && lower_run(chars, k, n)
    } else if leads(c) && upper_next {
        upper_run(chars, 1, k) && lower_run(chars, k, n)
    } else if upper_like(c) {
        upper_run(chars, 0, k) && lower_run(chars, k, n)
    } else if case_kind(c) is Number {
        n == 1
    } else if sign(chars[b]) {
        sign_run(chars, b, k, n)
    } else {
        &&& n <= k <= chars.len()
        &&& forall|i: int| 0 <= i < k ==> case_kind(#[trigger] chars[i]) is Whitespace
        &&& k < chars.len() ==> !(case_kind(chars[k]) is Whitespace)
        &&& forall|i: int| n <= i < k ==> #[trigger] chars[i] != '\r' && chars[i] != '\n'
        &&& chars[n - 1] == '\r' || chars[n - 1] == '\n' || {
            &&& forall|i: int| 0 <= i < k ==> #[trigger] chars[i] != '\r' && chars[i] != '\n'
            &&& n == if k < chars.len() && k > 1 {
                k - 1
            } else {
                k
            }
        }
    }
}

/// The pretoken that a text starts with.
pub proof fn lemma_nemotron_pretoken(chars: Seq<char>) -> (r: (int, int))
    requires
        chars.len() > 0,
    ensures
        starts_with_nemotron(chars, r.0, r.1),
        nemotron_end(encode_utf8(chars), 0) == encode_utf8(chars.take(r.0)).len(),
{
    let s = encode_utf8(chars);
    let c = chars[0];
    lemma_at(chars, 0);
    lemma_at(chars, 1);
    lemma_offsets(chars, 0, 1);
    lemma_line_char(chars, 0);
    assert(offset(chars, 0) == 0);
    assert(prefixable(s, 0) == leads(c));
    let at0 = lemma_cased(chars, 0);
    let at1 = lemma_cased(chars, 1);
    let up0 = lemma_upper_run(chars, 0);
    let up1 = lemma_upper_run(chars, 1);
    lemma_offsets(chars, 0, up0);
    lemma_offsets(chars, 1, up1);
    assert(at1 is Some ==> turns(chars, 1));
    assert(at0 is Some ==> turns(chars, 0));
    if leads(c) && at1 is Some {
        let (k, n) = at1->0;
        (n, k)
    } else if at0 is Some {
        let (k, n) = at0->0;
        (n, k)
    } else if leads(c) && up1 > 1 {
        let n = lemma_lower_run(chars, up1);
        (n, up1)
    } else if up0 > 0 {
        let n = lemma_lower_run(chars, up0);
        (n, up0)
    } else if case_kind(c) is Number {
        (1, 0)
    } else {
        let b: int = if c == ' ' && chars.len() > 1 {
            1
        } else {
            0
        };
        assert(past_space(s, 0) == offset(chars, b));
        lemma_at(chars, b);
        if sign(chars[b]) {
            let k = lemma_sign_run(chars, b);
            let n = lemma_line_run(chars, k);
            (n, k)
        } else {
            let k = lemma_space_run(chars, 0);
            assert(case_kind(c) is Whitespace);
            let e = lemma_last_line_end(chars, 0, k);
            lemma_last_of_spaces(chars, 0, k);
            lemma_offsets(chars, 0, k - 1);
            lemma_offsets(chars, k, chars.len() as int);
            if e > 0 {
                (e, k)
            } else if k < chars.len() && k > 1 {
                (k - 1, k)
            } else {
                (k, k)
            }
        }
    }
}

} // verus!
