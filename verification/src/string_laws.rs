//! Laws: what replacing, collapsing, trimming and NFC make of a text, and the order of
//! byte strings.

use vstd::prelude::*;
use vstd::utf8::{encode_utf8, encode_utf8_decode_utf8, encode_utf8_valid_utf8, valid_utf8};

use crate::lex::lex_lt;
use crate::pretokenize::regex_laws::lemma_first_character;
use crate::pretokenize::scan::{lead_width, width_at};
use crate::search::{first_at, lemma_first_at};
use crate::seqs::occurs_at;
use crate::strings::{
    after_spaces, collapsed_from, interleaved, last_ink, replaced, replaced_from, space_at,
    space_run_end, trimmed_end, trimmed_start,
};
use crate::text::{all_ascii, lemma_encode_concat, nfc, nfc_bytes};

verus! {

// ---------------------------------------------------------------------------
// Replacing
// ---------------------------------------------------------------------------

proof fn lemma_first_in_rest(s: Seq<u8>, pattern: Seq<u8>, p: int, from: int)
    requires
        0 <= p <= from <= s.len(),
    ensures
        first_at(s.skip(p), pattern, from - p) == match first_at(s, pattern, from) {
            Some(at) => Some(at - p),
            None => None,
        },
    decreases s.len() - from,
{
    let t = s.skip(p);
    if from + pattern.len() <= s.len() {
        assert(t.subrange(from - p, from - p + pattern.len()) =~= s.subrange(
            from,
            from + pattern.len(),
        ));
    }
    assert(occurs_at(t, pattern, from - p) == occurs_at(s, pattern, from));
    if from < s.len() && !occurs_at(s, pattern, from) {
        lemma_first_in_rest(s, pattern, p, from + 1);
    }
}

pub proof fn lemma_replaced_in_rest(
    s: Seq<u8>,
    p: int,
    from: int,
    pattern: Seq<u8>,
    content: Seq<u8>,
)
    requires
        0 <= p <= from <= s.len(),
        pattern.len() > 0,
    ensures
        replaced_from(s.skip(p), from - p, pattern, content) == replaced_from(
            s,
            from,
            pattern,
            content,
        ),
    decreases s.len() - from,
{
    let t = s.skip(p);
    lemma_first_in_rest(s, pattern, p, from);
    lemma_first_at(s, pattern, from);
    match first_at(s, pattern, from) {
        Some(at) => {
            assert(t.subrange(from - p, at - p) =~= s.subrange(from, at));
            lemma_replaced_in_rest(s, p, at + pattern.len(), pattern, content);
        },
        None => {
            assert(t.skip(from - p) =~= s.skip(from));
        },
    }
}

/// Replacing a pattern: a text in which it does not stand stays; in any other its
/// first occurrence gives way to the content, what stands before it stays, and the
/// same goes for what stands behind it.
pub proof fn lemma_replace(
    s: Seq<u8>,
    pattern: Seq<u8>,
    content: Seq<u8>,
    at: int,
)
    requires
        pattern.len() > 0,
    ensures
        (forall|i: int| 0 <= i ==> !#[trigger] occurs_at(s, pattern, i)) ==> replaced(
            s,
            pattern,
            content,
        ) == s,
        occurs_at(s, pattern, at) && (forall|i: int|
            0 <= i < at ==> !#[trigger] occurs_at(s, pattern, i)) ==> replaced(s, pattern, content)
            == s.take(at) + content + replaced(s.skip(at + pattern.len()), pattern, content),
{
    lemma_first_at(s, pattern, 0);
    match first_at(s, pattern, 0) {
        Some(k) => {
            if occurs_at(s, pattern, at) && (forall|i: int|
                0 <= i < at ==> !#[trigger] occurs_at(s, pattern, i)) {
                assert(k == at);
                assert(s.subrange(0, at) =~= s.take(at));
                lemma_replaced_in_rest(s, at + pattern.len(), at + pattern.len(), pattern, content);
            }
        },
        None => {
            assert(s.skip(0) =~= s);
        },
    }
}

proof fn lemma_interleaved_in_rest(s: Seq<u8>, p: int, pos: int, content: Seq<u8>)
    requires
        0 <= p <= pos <= s.len(),
    ensures
        interleaved(s.skip(p), pos - p, content) == interleaved(s, pos, content),
    decreases s.len() - pos,
{
    let t = s.skip(p);
    if pos < s.len() {
        let w = width_at(s, pos);
        assert(width_at(t, pos - p) == w);
        if w >= 1 {
            assert(t.subrange(pos - p, pos - p + w) =~= s.subrange(pos, pos + w));
            lemma_interleaved_in_rest(s, p, pos + w, content);
        }
    }
}

/// Replacing the empty pattern puts the content before each character and at the end.
pub proof fn lemma_replace_empty(chars: Seq<char>, content: Seq<u8>)
    ensures
        chars.len() == 0 ==> replaced(encode_utf8(chars), Seq::empty(), content) == content,
        chars.len() > 0 ==> replaced(encode_utf8(chars), Seq::empty(), content) == content
            + encode_utf8(seq![chars[0]]) + replaced(
            encode_utf8(chars.drop_first()),
            Seq::empty(),
            content,
        ),
{
    let s = encode_utf8(chars);
    if chars.len() > 0 {
        lemma_first_character(chars);
        let w = width_at(s, 0);
        assert(s.subrange(0, w) =~= s.take(w));
        lemma_interleaved_in_rest(s, w, w, content);
    }
}

// ---------------------------------------------------------------------------
// Collapsing
// ---------------------------------------------------------------------------

proof fn lemma_run_ends(s: Seq<u8>, pos: int, end: int)
    requires
        0 <= pos <= end <= s.len(),
        forall|i: int| pos <= i < end ==> #[trigger] s[i] == 0x20,
        end == s.len() || s[end] != 0x20,
    ensures
        space_run_end(s, pos) == end,
    decreases end - pos,
{
    if pos < end {
        lemma_run_ends(s, pos + 1, end);
    }
}

proof fn lemma_run_in_rest(s: Seq<u8>, p: int, pos: int)
    requires
        0 <= p <= pos <= s.len(),
    ensures
        p + space_run_end(s.skip(p), pos - p) == space_run_end(s, pos),
    decreases s.len() - pos,
{
    if pos < s.len() && s[pos] == 0x20 {
        lemma_run_in_rest(s, p, pos + 1);
    }
}

proof fn lemma_collapsed_in_rest(s: Seq<u8>, p: int, pos: int, content: Seq<u8>)
    requires
        0 <= p <= pos <= s.len(),
    ensures
        collapsed_from(s.skip(p), pos - p, content) == collapsed_from(s, pos, content),
    decreases s.len() - pos,
{
    let t = s.skip(p);
    if pos < s.len() {
        lemma_run_in_rest(s, p, pos);
        let e = space_run_end(s, pos);
        if pos + 2 <= e <= s.len() {
            lemma_collapsed_in_rest(s, p, e, content);
        } else {
            lemma_collapsed_in_rest(s, p, pos + 1, content);
        }
    }
}

/// Collapsing spaces, by what a text starts with: two or more of them, and all that
/// follow them, give way to the content; one alone stays; and so does any other byte.
pub proof fn lemma_collapse(s: Seq<u8>, content: Seq<u8>, n: int)
    requires
        0 <= n <= s.len(),
        forall|i: int| 0 <= i < n ==> #[trigger] s[i] == 0x20,
        n == s.len() || s[n] != 0x20,
    ensures
        s.len() == 0 ==> collapsed_from(s, 0, content) == s,
        n >= 2 ==> collapsed_from(s, 0, content) == content + collapsed_from(
            s.skip(n),
            0,
            content,
        ),
        n == 1 ==> collapsed_from(s, 0, content) == seq![0x20u8] + collapsed_from(
            s.skip(1),
            0,
            content,
        ),
        n == 0 && s.len() > 0 ==> collapsed_from(s, 0, content) == seq![s[0]] + collapsed_from(
            s.skip(1),
            0,
            content,
        ),
{
    lemma_run_ends(s, 0, n);
    if s.len() == 0 {
        assert(s =~= Seq::<u8>::empty());
    } else if n >= 2 {
        lemma_collapsed_in_rest(s, n, n, content);
    } else {
        lemma_collapsed_in_rest(s, 1, 1, content);
    }
}

// ---------------------------------------------------------------------------
// Trimming
// ---------------------------------------------------------------------------

/// Whether a character has the White_Space property.
pub open spec fn blank(c: char) -> bool {
    ||| c == ' '
    ||| c == '\t'
    ||| c == '\n'
    ||| c == '\u{b}'
    ||| c == '\u{c}'
    ||| c == '\r'
    ||| c == '\u{85}'
    ||| c == '\u{a0}'
    ||| c == '\u{1680}'
    ||| '\u{2000}' <= c <= '\u{200a}'
    ||| c == '\u{2028}'
    ||| c == '\u{2029}'
    ||| c == '\u{202f}'
    ||| c == '\u{205f}'
    ||| c == '\u{3000}'
}

/// The first character of a text is white space where it is blank.
proof fn lemma_blank(chars: Seq<char>)
    requires
        chars.len() > 0,
    ensures
        space_at(encode_utf8(chars), 0) == blank(chars[0]),
{
    lemma_first_character(chars);
    let s = encode_utf8(chars);
    assert(lead_width(s[0]) <= s.len()) by {
        vstd::utf8::encode_utf8_first_scalar(chars);
    }
    lemma_code(chars[0]);
}

proof fn lemma_code(c: char)
    ensures
        c as u32 as int == c as int,
{
}

proof fn lemma_same_char(s: Seq<u8>, p: int)
    requires
        0 <= p < s.len(),
    ensures
        space_at(s.skip(p), 0) == space_at(s, p),
        width_at(s.skip(p), 0) == width_at(s, p),
{
}

/// The bytes behind the first `k` characters of a text are those of the others.
proof fn lemma_behind(chars: Seq<char>, k: int)
    requires
        0 <= k <= chars.len(),
    ensures
        ({
            let s = encode_utf8(chars);
            let o = encode_utf8(chars.take(k)).len() as int;
            &&& o <= s.len()
            &&& s.take(o) == encode_utf8(chars.take(k))
            &&& s.skip(o) == encode_utf8(chars.skip(k))
            &&& o < s.len() <==> k < chars.len()
            &&& k < chars.len() ==> {
                &&& space_at(s, o) == blank(chars[k])
                &&& width_at(s, o) >= 1
                &&& o + width_at(s, o) == encode_utf8(chars.take(k + 1)).len()
            }
        }),
{
    let s = encode_utf8(chars);
    let head = encode_utf8(chars.take(k));
    let tail = encode_utf8(chars.skip(k));
    let o = head.len() as int;
    assert(chars =~= chars.take(k) + chars.skip(k));
    lemma_encode_concat(chars.take(k), chars.skip(k));
    assert(s.take(o) =~= head);
    assert(s.skip(o) =~= tail);
    if k < chars.len() {
        lemma_first_character(chars.skip(k));
        lemma_blank(chars.skip(k));
        lemma_same_char(s, o);
        assert(chars.take(k + 1) =~= chars.take(k) + seq![chars[k]]);
        lemma_encode_concat(chars.take(k), seq![chars[k]]);
        assert(chars.skip(k)[0] == chars[k]);
    } else {
        assert(chars.skip(k) =~= Seq::<char>::empty());
        assert(tail =~= Seq::<u8>::empty());
    }
}

proof fn lemma_after_spaces(chars: Seq<char>, k: int) -> (n: int)
    requires
        0 <= k <= chars.len(),
    ensures
        k <= n <= chars.len(),
        after_spaces(encode_utf8(chars), encode_utf8(chars.take(k)).len() as int) == encode_utf8(
            chars.take(n),
        ).len(),
        forall|i: int| k <= i < n ==> blank(#[trigger] chars[i]),
        n < chars.len() ==> !blank(chars[n]),
    decreases chars.len() - k,
{
    lemma_behind(chars, k);
    if k < chars.len() && blank(chars[k]) {
        lemma_after_spaces(chars, k + 1)
    } else {
        k
    }
}

/// Trimming the start of a text takes off its first characters that are white space,
/// all of them and no others.
pub proof fn lemma_trim_start(chars: Seq<char>) -> (n: int)
    ensures
        0 <= n <= chars.len(),
        trimmed_start(encode_utf8(chars)) == encode_utf8(chars.skip(n)),
        forall|i: int| 0 <= i < n ==> blank(#[trigger] chars[i]),
        n < chars.len() ==> !blank(chars[n]),
{
    assert(chars.take(0) =~= Seq::<char>::empty());
    assert(encode_utf8(Seq::<char>::empty()).len() == 0);
    let n = lemma_after_spaces(chars, 0);
    lemma_behind(chars, n);
    n
}

proof fn lemma_last_ink(chars: Seq<char>, k: int, m: int) -> (n: int)
    requires
        0 <= m <= k <= chars.len(),
        forall|i: int| m <= i < k ==> blank(#[trigger] chars[i]),
        m > 0 ==> !blank(chars[m - 1]),
    ensures
        0 <= n <= chars.len(),
        last_ink(
            encode_utf8(chars),
            encode_utf8(chars.take(k)).len() as int,
            encode_utf8(chars.take(m)).len() as int,
        ) == encode_utf8(chars.take(n)).len(),
        forall|i: int| n <= i < chars.len() ==> blank(#[trigger] chars[i]),
        n > 0 ==> !blank(chars[n - 1]),
    decreases chars.len() - k,
{
    lemma_behind(chars, k);
    if k < chars.len() {
        if blank(chars[k]) {
            lemma_last_ink(chars, k + 1, m)
        } else {
            lemma_last_ink(chars, k + 1, k + 1)
        }
    } else {
        m
    }
}

/// Trimming the end of a text takes off its last characters that are white space, all
/// of them and no others.
pub proof fn lemma_trim_end(chars: Seq<char>) -> (n: int)
    ensures
        0 <= n <= chars.len(),
        trimmed_end(encode_utf8(chars)) == encode_utf8(chars.take(n)),
        forall|i: int| n <= i < chars.len() ==> blank(#[trigger] chars[i]),
        n > 0 ==> !blank(chars[n - 1]),
{
    assert(chars.take(0) =~= Seq::<char>::empty());
    assert(encode_utf8(Seq::<char>::empty()).len() == 0);
    let n = lemma_last_ink(chars, 0, 0);
    lemma_behind(chars, n);
    n
}

// ---------------------------------------------------------------------------
// NFC
// ---------------------------------------------------------------------------

/// Putting a text in NFC: a text of ASCII stays, any other becomes its NFC form, and
/// what is no text stays.
pub proof fn lemma_nfc_of_text(chars: Seq<char>, s: Seq<u8>)
    ensures
        (forall|i: int| 0 <= i < chars.len() ==> #[trigger] chars[i] <= '\u{7f}') ==> nfc_bytes(
            encode_utf8(chars),
        ) == encode_utf8(chars),
        (exists|i: int| 0 <= i < chars.len() && #[trigger] chars[i] > '\u{7f}') ==> nfc_bytes(
            encode_utf8(chars),
        ) == encode_utf8(nfc(chars)),
        !valid_utf8(s) ==> nfc_bytes(s) == s,
{
    let t = encode_utf8(chars);
    encode_utf8_valid_utf8(chars);
    encode_utf8_decode_utf8(chars);
    if forall|i: int| 0 <= i < chars.len() ==> #[trigger] chars[i] <= '\u{7f}' {
        lemma_ascii_bytes(chars);
    }
    if exists|i: int| 0 <= i < chars.len() && #[trigger] chars[i] > '\u{7f}' {
        let i = choose|i: int| 0 <= i < chars.len() && #[trigger] chars[i] > '\u{7f}';
        let rest = chars.skip(i);
        assert(chars =~= chars.take(i) + rest);
        lemma_encode_concat(chars.take(i), rest);
        lemma_first_character(rest);
        let o = encode_utf8(chars.take(i)).len() as int;
        assert(t[o] == encode_utf8(rest)[0]);
        assert(rest[0] == chars[i]);
        assert(t[o] >= 0x80);
    }
}

proof fn lemma_ascii_bytes(chars: Seq<char>)
    requires
        forall|i: int| 0 <= i < chars.len() ==> #[trigger] chars[i] <= '\u{7f}',
    ensures
        all_ascii(encode_utf8(chars)),
    decreases chars.len(),
{
    let t = encode_utf8(chars);
    if chars.len() > 0 {
        let rest = chars.drop_first();
        assert forall|i: int| 0 <= i < rest.len() implies #[trigger] rest[i] <= '\u{7f}' by {
            assert(rest[i] == chars[i + 1]);
        }
        lemma_ascii_bytes(rest);
        lemma_first_character(chars);
        assert forall|i: int| 0 <= i < t.len() implies #[trigger] t[i] < 0x80 by {
            if i > 0 {
                assert(t.skip(1)[i - 1] == t[i]);
            }
        }
    }
}

// ---------------------------------------------------------------------------
// Order
// ---------------------------------------------------------------------------

/// One byte string comes before another where it is a shorter beginning of it, or has
/// the lower byte at the first place where they differ.
pub proof fn lemma_lex_order(a: Seq<u8>, b: Seq<u8>, k: int)
    requires
        0 <= k <= a.len(),
        k <= b.len(),
        a.take(k) == b.take(k),
    ensures
        k == a.len() && k < b.len() ==> lex_lt(a, b),
        k == b.len() ==> !lex_lt(a, b),
        k < a.len() && k < b.len() && a[k] < b[k] ==> lex_lt(a, b),
        k < a.len() && k < b.len() && a[k] > b[k] ==> !lex_lt(a, b),
    decreases k,
{
    if k > 0 {
        assert(a.take(k)[0] == a[0] && b.take(k)[0] == b[0]);
        assert(a.drop_first().take(k - 1) =~= a.take(k).drop_first());
        assert(b.drop_first().take(k - 1) =~= b.take(k).drop_first());
        lemma_lex_order(a.drop_first(), b.drop_first(), k - 1);
    }
}

} // verus!
