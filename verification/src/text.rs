//! Bytes as text.

use vstd::prelude::*;
use vstd::string::StringSliceAdditionalSpecFns;
use vstd::utf8::{
    decode_utf8, decode_utf8_encode_utf8, decode_utf8_split, encode_utf8, encode_utf8_decode_utf8,
    encode_utf8_valid_utf8, is_ascii_chars, is_ascii_chars_encode_utf8, is_char_boundary,
    is_char_boundary_iff_not_is_continuation_byte, is_char_boundary_start_end_of_seq,
    is_continuation_byte, length_of_first_scalar, pop_first_scalar, valid_utf8, valid_utf8_split,
};

use crate::seqs::copy_bytes;

verus! {

/// The NFC form of a text.
pub uninterp spec fn nfc(text: Seq<char>) -> Seq<char>;

/// Whether NFC can be applied apart to what stands before `c` and to what it
/// starts.
pub open spec fn apart_before(c: char) -> bool {
    forall|a: Seq<char>, b: Seq<char>| #[trigger]
        nfc(a + (seq![c] + b)) == nfc(a) + nfc(seq![c] + b)
}

/// `ComposingNormalizerBorrowed::normalize`, made by `new_nfc`: the NFC form
/// that the ICU data gives `text`. Characters below U+0300 (the composition
/// passthrough bound) are kept, start no decomposition with a non-starter and do
/// not combine backwards: a text of ASCII is its own NFC form, and before a
/// character of ASCII every text can be cut.
#[verifier::external_body]
fn icu_nfc(text: &str) -> (r: String)
    ensures
        r@ == nfc(text@),
        is_ascii_chars(text@) ==> r@ == text@,
        forall|i: int|
            0 <= i < r@.len() && r@[i] as u32 <= 0x7F ==> apart_before(#[trigger] r@[i]),
{
    icu::normalizer::ComposingNormalizerBorrowed::new_nfc().normalize(text).into_owned()
}

/// `std::str::from_utf8`: the text of bytes that are valid UTF-8.
#[verifier::external_body]
pub(crate) fn text_of(bytes: &[u8]) -> (r: Option<&str>)
    ensures
        match r {
            Some(s) => valid_utf8(bytes@) && s.spec_bytes() == bytes@,
            None => !valid_utf8(bytes@),
        },
{
    std::str::from_utf8(bytes).ok()
}

/// Bytes as text, with what is not valid UTF-8 replaced.
pub uninterp spec fn lossy_text(bytes: Seq<u8>) -> Seq<char>;

/// `String::from_utf8_lossy`: the text of the bytes, where what is not valid
/// UTF-8 is replaced; valid UTF-8 is kept.
#[verifier::external_body]
pub(crate) fn text_of_lossy(bytes: &[u8]) -> (r: String)
    ensures
        r@ == lossy_text(bytes@),
        valid_utf8(bytes@) ==> encode_utf8(r@) == bytes@,
{
    String::from_utf8_lossy(bytes).into_owned()
}

/// Whether every byte is ASCII.
pub open spec fn all_ascii(s: Seq<u8>) -> bool {
    forall|i: int| 0 <= i < s.len() ==> #[trigger] s[i] < 0x80
}

/// Whether every byte is ASCII.
pub fn is_all_ascii(bytes: &[u8]) -> (r: bool)
    ensures
        r == all_ascii(bytes@),
{
    for i in 0..bytes.len()
        invariant
            forall|k: int| 0 <= k < i ==> #[trigger] bytes@[k] < 0x80,
    {
        if bytes[i] >= 0x80 {
            return false;
        }
    }
    true
}

/// The UTF-8 of a text is that of its parts, one after the other.
pub proof fn lemma_encode_concat(a: Seq<char>, b: Seq<char>)
    ensures
        encode_utf8(a + b) == encode_utf8(a) + encode_utf8(b),
    decreases a.len(),
{
    if a.len() == 0 {
        assert(a + b =~= b);
        assert(encode_utf8(a) =~= Seq::<u8>::empty());
    } else {
        lemma_encode_concat(a.drop_first(), b);
        assert((a + b).drop_first() =~= a.drop_first() + b);
        assert((a + b)[0] == a[0]);
        assert(encode_utf8(a + b) =~= encode_utf8(a) + encode_utf8(b));
    }
}

/// A byte of ASCII as a text.
pub proof fn lemma_ascii_text(b: u8)
    requires
        b < 0x80,
    ensures
        valid_utf8(seq![b]),
        decode_utf8(seq![b]) == seq![b as char],
        encode_utf8(seq![b as char]) == seq![b],
{
    let c = seq![b as char];
    assert(is_ascii_chars(c));
    is_ascii_chars_encode_utf8(c);
    assert(encode_utf8(c) =~= seq![b]);
    encode_utf8_valid_utf8(c);
    encode_utf8_decode_utf8(c);
}

/// A text that ends where one of ASCII follows, or starts, and its parts.
pub proof fn lemma_cut(s: Seq<u8>, i: int)
    requires
        valid_utf8(s),
        0 <= i <= s.len(),
        i == s.len() || i == 0 || s[i] < 0x80 || s[i - 1] < 0x80,
    ensures
        valid_utf8(s.take(i)),
        valid_utf8(s.skip(i)),
        decode_utf8(s) == decode_utf8(s.take(i)) + decode_utf8(s.skip(i)),
{
    if i == s.len() || i == 0 {
        is_char_boundary_start_end_of_seq(s);
    } else {
        is_char_boundary_iff_not_is_continuation_byte(s, i);
        if s[i] >= 0x80 {
            is_char_boundary_iff_not_is_continuation_byte(s, i - 1);
            lemma_after_ascii(s, i);
        }
    }
    valid_utf8_split(s, i);
    decode_utf8_split(s, i);
    assert(s.take(i) =~= s.subrange(0, i));
    assert(s.skip(i) =~= s.subrange(i, s.len() as int));
}

/// Behind a character of ASCII another starts.
proof fn lemma_after_ascii(s: Seq<u8>, i: int)
    requires
        valid_utf8(s),
        0 < i < s.len(),
        s[i - 1] < 0x80,
    ensures
        is_char_boundary(s, i),
{
    is_char_boundary_iff_not_is_continuation_byte(s, i - 1);
    valid_utf8_split(s, i - 1);
    let t = s.subrange(i - 1, s.len() as int);
    assert(valid_utf8(t));
    assert(t[0] < 0x80);
    assert(length_of_first_scalar(t) == 1);
    is_char_boundary_iff_not_is_continuation_byte(s, i);
    if is_continuation_byte(s[i]) {
        let rest = pop_first_scalar(t);
        assert(valid_utf8(rest));
        assert(rest[0] == s[i]);
        is_char_boundary_iff_not_is_continuation_byte(rest, 0);
        is_char_boundary_start_end_of_seq(rest);
    }
}

/// The last character of a text that ends with a byte of ASCII is that byte, and
/// the first one of a text that starts with one.
pub proof fn lemma_ascii_ends(s: Seq<u8>)
    requires
        valid_utf8(s),
        s.len() > 0,
    ensures
        decode_utf8(s).len() > 0,
        s[0] < 0x80 ==> decode_utf8(s)[0] == s[0] as char,
        s.last() < 0x80 ==> decode_utf8(s).last() == s.last() as char,
        s[0] >= 0x80 ==> decode_utf8(s)[0] as u32 > 0x7F,
        s.last() >= 0x80 ==> decode_utf8(s).last() as u32 > 0x7F,
{
    let n = s.len() as int;
    decode_utf8_encode_utf8(s);
    let d = decode_utf8(s);
    if d.len() == 0 {
        assert(encode_utf8(d) =~= Seq::<u8>::empty());
    }
    assert(d.len() > 0);
    if s[0] < 0x80 {
        if n > 1 {
            lemma_after_ascii(s, 1);
            decode_utf8_split(s, 1);
        } else {
            assert(s.subrange(0, 1) =~= s);
        }
        assert(s.subrange(0, 1) =~= seq![s[0]]);
        lemma_ascii_text(s[0]);
    } else if d[0] as u32 <= 0x7F {
        assert(d =~= seq![d[0]] + d.drop_first());
        lemma_encode_concat(seq![d[0]], d.drop_first());
        lemma_one_ascii(d[0]);
    }
    if s.last() < 0x80 {
        is_char_boundary_iff_not_is_continuation_byte(s, n - 1);
        decode_utf8_split(s, n - 1);
        assert(s.subrange(n - 1, n) =~= seq![s.last()]);
        lemma_ascii_text(s.last());
    } else if d.last() as u32 <= 0x7F {
        let x: char = d.last();
        let c = seq![x];
        assert(d =~= d.drop_last() + c);
        lemma_encode_concat(d.drop_last(), c);
        lemma_one_ascii(x);
        assert(s.last() == encode_utf8(c).last());
    }
}

/// The UTF-8 of a character of ASCII.
proof fn lemma_one_ascii(x: char)
    requires
        x as u32 <= 0x7F,
    ensures
        encode_utf8(seq![x]).len() == 1,
        encode_utf8(seq![x])[0] < 0x80,
{
    let c = seq![x];
    assert(is_ascii_chars(c));
    is_ascii_chars_encode_utf8(c);
    assert(encode_utf8(c)[0] == x as u8);
}

/// Whether NFC keeps a character of ASCII, and can be applied apart before it.
pub open spec fn nfc_keeps(b: u8) -> bool {
    apart_before(b as char) && nfc(seq![b as char]) == seq![b as char]
}

/// Whether NFC keeps each character of ASCII, and can be applied apart before it.
#[verifier::opaque]
pub open spec fn nfc_apart() -> bool {
    forall|b: u8| b < 0x80 ==> #[trigger] nfc_keeps(b)
}

/// What NFC makes of each character of ASCII, looked up once: it stays, whatever
/// stands before it.
pub(crate) fn nfc_keeps_ascii()
    ensures
        nfc_apart(),
{
    for b in 0..128u8
        invariant
            forall|c: u8| c < b ==> #[trigger] nfc_keeps(c),
    {
        let one: [u8; 1] = [b];
        proof {
            lemma_ascii_text(b);
            assert(one@ =~= seq![b]);
        }
        if let Some(text) = text_of(&one) {
            proof {
                encode_utf8_decode_utf8(text@);
                assert(text@ == seq![b as char]);
            }
            let same: String = icu_nfc(text);
            assert(is_ascii_chars(text@));
            assert(apart_before(same@[0]));
            assert(nfc_keeps(b));
        }
    }
    proof {
        reveal(nfc_apart);
    }
}

/// A segment in NFC. ASCII, and what is not valid UTF-8, stays as it is.
pub open spec fn nfc_bytes(seg: Seq<u8>) -> Seq<u8> {
    if all_ascii(seg) || !valid_utf8(seg) {
        seg
    } else {
        encode_utf8(nfc(decode_utf8(seg)))
    }
}

/// A text of ASCII is its own NFC form.
proof fn lemma_nfc_ascii(text: Seq<char>)
    requires
        nfc_apart(),
        is_ascii_chars(text),
    ensures
        nfc(text) == text,
    decreases text.len(),
{
    reveal(nfc_apart);
    let none = Seq::<char>::empty();
    if text.len() == 0 {
        let a: char = 0x61u8 as char;
        assert(nfc_keeps(0x61));
        assert(none + (seq![a] + none) =~= seq![a]);
        assert(seq![a] + none =~= seq![a]);
        assert(nfc(none + (seq![a] + none)) == nfc(none) + nfc(seq![a] + none));
        assert(nfc(seq![a]).len() == nfc(none).len() + nfc(seq![a]).len());
        assert(text =~= none);
        assert(nfc(none) =~= none);
    } else {
        let init = text.drop_last();
        let c = text.last();
        lemma_nfc_ascii(init);
        assert(nfc_keeps(c as u8));
        assert((c as u8) as char == c);
        assert(seq![c] + none =~= seq![c]);
        assert(init + (seq![c] + none) =~= text);
        assert(nfc(init + (seq![c] + none)) == nfc(init) + nfc(seq![c] + none));
        assert(init + seq![c] =~= text);
    }
}

/// Valid UTF-8 in NFC, whether it is ASCII or not.
proof fn lemma_nfc_bytes(seg: Seq<u8>)
    requires
        nfc_apart(),
        valid_utf8(seg),
    ensures
        nfc_bytes(seg) == encode_utf8(nfc(decode_utf8(seg))),
{
    if all_ascii(seg) {
        let text = Seq::new(seg.len(), |i: int| seg[i] as char);
        assert(is_ascii_chars(text));
        is_ascii_chars_encode_utf8(text);
        assert(encode_utf8(text) =~= seg);
        encode_utf8_decode_utf8(text);
        lemma_nfc_ascii(text);
    }
}

/// Whether a text can be put in NFC apart at `p`: characters of ASCII stand on both
/// sides of it, and behind the second one of ASCII or nothing.
pub open spec fn ascii_around(s: Seq<u8>, p: int) -> bool {
    &&& 0 < p < s.len()
    &&& s[p - 1] < 0x80
    &&& s[p] < 0x80
    &&& p + 1 < s.len() ==> s[p + 1] < 0x80
}

/// NFC of a text is that of its parts around such a place, and keeps the characters
/// next to it.
pub proof fn lemma_nfc_cut(s: Seq<u8>, p: int)
    requires
        nfc_apart(),
        valid_utf8(s),
        ascii_around(s, p),
    ensures
        nfc_bytes(s) == nfc_bytes(s.take(p)) + nfc_bytes(s.skip(p)),
        valid_utf8(nfc_bytes(s)),
        nfc_bytes(s.take(p)).len() > 0,
        nfc_bytes(s.take(p)).last() == s[p - 1],
        nfc_bytes(s.skip(p)).len() > 0,
        nfc_bytes(s.skip(p))[0] == s[p],
{
    reveal(nfc_apart);
    let none = Seq::<char>::empty();
    let t = s.take(p);
    let u = s.skip(p);
    lemma_cut(s, p);
    lemma_cut(t, p - 1);
    lemma_cut(u, 1);
    lemma_nfc_bytes(s);
    lemma_nfc_bytes(t);
    lemma_nfc_bytes(u);
    let x = s[p - 1] as char;
    let y = s[p] as char;
    lemma_ascii_text(s[p - 1]);
    lemma_ascii_text(s[p]);
    let a = decode_utf8(t.take(p - 1));
    let b = decode_utf8(u.skip(1));
    assert(t.skip(p - 1) =~= seq![s[p - 1]]);
    assert(u.take(1) =~= seq![s[p]]);
    assert(decode_utf8(t) == a + seq![x]);
    assert(decode_utf8(u) == seq![y] + b);
    assert(decode_utf8(s) == (a + seq![x]) + (seq![y] + b));
    // Before the second character, and before the first.
    assert(nfc_keeps(s[p]));
    assert(nfc(decode_utf8(s)) == nfc(a + seq![x]) + nfc(seq![y] + b));
    assert(nfc_keeps(s[p - 1]));
    assert(seq![x] + none =~= seq![x]);
    assert(nfc(a + (seq![x] + none)) == nfc(a) + nfc(seq![x] + none));
    assert(nfc(a + seq![x]) == nfc(a) + seq![x]);
    lemma_encode_concat(nfc(a + seq![x]), nfc(seq![y] + b));
    lemma_encode_concat(nfc(a), seq![x]);
    encode_utf8_valid_utf8(nfc(decode_utf8(s)));
    // What follows the second character.
    if u.len() == 1 {
        assert(u.skip(1) =~= Seq::<u8>::empty());
        assert(b =~= none);
        assert(seq![y] + b =~= seq![y]);
    } else {
        lemma_ascii_ends(u.skip(1));
        let z = b[0];
        let rest = b.drop_first();
        assert(b =~= seq![z] + rest);
        assert(nfc_keeps(s[p + 1]));
        assert(z == s[p + 1] as char);
        assert(nfc(seq![y] + (seq![z] + rest)) == nfc(seq![y]) + nfc(seq![z] + rest));
        lemma_encode_concat(seq![y], nfc(b));
    }
}

/// NFC-normalize a segment. ASCII segments are returned as they are. Invalid
/// UTF-8 is passed through unchanged.
pub fn nfc_segment(seg: &[u8]) -> (r: Vec<u8>)
    ensures
        r@ == nfc_bytes(seg@),
{
    if is_all_ascii(seg) {
        return copy_bytes(seg);
    }
    match text_of(seg) {
        None => copy_bytes(seg),
        Some(s) => {
            proof {
                encode_utf8_decode_utf8(s@);
            }
            let normal: String = icu_nfc(s);
            copy_bytes(normal.as_str().as_bytes())
        },
    }
}

} // verus!
