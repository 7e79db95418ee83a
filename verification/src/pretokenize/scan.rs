//! Characters of a byte string, and the runs of one character class.

use vstd::prelude::*;

use crate::pretokenize::unicode::{class_of, cp_class, CharClass};

verus! {

/// ASCII letters.
pub open spec fn letter_byte(b: u8) -> bool {
    0x41 <= b <= 0x5A || 0x61 <= b <= 0x7A
}

/// ASCII digits.
pub open spec fn digit_byte(b: u8) -> bool {
    0x30 <= b <= 0x39
}

/// ASCII whitespace: space, and the controls TAB to CR.
pub open spec fn ws_byte(b: u8) -> bool {
    b == 0x20 || 9 <= b <= 13
}

/// Whether a byte is an ASCII letter.
#[inline(always)]
pub fn is_letter(b: u8) -> (r: bool)
    ensures
        r == letter_byte(b),
{
    (0x41 <= b && b <= 0x5A) || (0x61 <= b && b <= 0x7A)
}

/// Whether a byte is an ASCII digit.
#[inline(always)]
pub fn is_digit(b: u8) -> (r: bool)
    ensures
        r == digit_byte(b),
{
    0x30 <= b && b <= 0x39
}

/// Whether a byte is ASCII whitespace.
#[inline(always)]
pub fn is_ascii_ws(b: u8) -> (r: bool)
    ensures
        r == ws_byte(b),
{
    b == 0x20 || (9 <= b && b <= 13)
}

/// The class of an ASCII byte.
pub open spec fn ascii_class(b: u8) -> CharClass {
    if letter_byte(b) {
        CharClass::Letter
    } else if digit_byte(b) {
        CharClass::Number
    } else if ws_byte(b) {
        CharClass::Whitespace
    } else {
        CharClass::Other
    }
}

/// The class of an ASCII byte.
#[inline(always)]
pub fn ascii_class_of(b: u8) -> (c: CharClass)
    ensures
        c == ascii_class(b),
{
    if is_letter(b) {
        CharClass::Letter
    } else if is_digit(b) {
        CharClass::Number
    } else if is_ascii_ws(b) {
        CharClass::Whitespace
    } else {
        CharClass::Other
    }
}

/// How many bytes the UTF-8 sequence that starts with `b` takes.
pub open spec fn lead_width(b: u8) -> int {
    if b < 0x80 {
        1
    } else if b < 0xE0 {
        2
    } else if b < 0xF0 {
        3
    } else {
        4
    }
}

/// The code point of a two-byte sequence.
pub open spec fn cp2(b0: u8, b1: u8) -> u32 {
    ((b0 as u32 & 0x1F) << 6u32) | (b1 as u32 & 0x3F)
}

/// The code point of a three-byte sequence.
pub open spec fn cp3(b0: u8, b1: u8, b2: u8) -> u32 {
    ((b0 as u32 & 0x0F) << 12u32) | ((b1 as u32 & 0x3F) << 6u32) | (b2 as u32 & 0x3F)
}

/// The code point of a four-byte sequence.
pub open spec fn cp4(b0: u8, b1: u8, b2: u8, b3: u8) -> u32 {
    ((b0 as u32 & 0x07) << 18u32) | ((b1 as u32 & 0x3F) << 12u32) | ((b2 as u32 & 0x3F) << 6u32) | (
    b3 as u32 & 0x3F)
}

/// The code point of the sequence at `pos`, where the whole sequence is there.
pub open spec fn cp_at(s: Seq<u8>, pos: int) -> u32 {
    if lead_width(s[pos]) == 1 {
        s[pos] as u32
    } else if lead_width(s[pos]) == 2 {
        cp2(s[pos], s[pos + 1])
    } else if lead_width(s[pos]) == 3 {
        cp3(s[pos], s[pos + 1], s[pos + 2])
    } else {
        cp4(s[pos], s[pos + 1], s[pos + 2], s[pos + 3])
    }
}

/// How many bytes the character at `pos` takes: a sequence that the input cuts
/// short takes what is left.
pub open spec fn width_at(s: Seq<u8>, pos: int) -> int {
    if pos + lead_width(s[pos]) <= s.len() {
        lead_width(s[pos])
    } else {
        s.len() - pos
    }
}

/// The class of the character at `pos`; a sequence that the input cuts short is
/// `Other`.
pub open spec fn class_at(s: Seq<u8>, pos: int) -> CharClass {
    if s[pos] < 0x80 {
        ascii_class(s[pos])
    } else if pos + lead_width(s[pos]) <= s.len() {
        cp_class(cp_at(s, pos))
    } else {
        CharClass::Other
    }
}

/// Decode one non-ASCII character: its code point and its length in bytes. The
/// code point of a sequence that the input cuts short is no scalar value.
#[inline(always)]
pub fn decode_cp(bytes: &[u8], pos: usize) -> (r: (u32, usize))
    requires
        pos < bytes@.len(),
        bytes@[pos as int] >= 0x80,
    ensures
        r.1 == width_at(bytes@, pos as int),
        pos + lead_width(bytes@[pos as int]) <= bytes@.len() ==> r.0 == cp_at(bytes@, pos as int),
        pos + lead_width(bytes@[pos as int]) > bytes@.len() ==> r.0 == u32::MAX,
{
    let left: usize = bytes.len() - pos;
    let b0: u8 = bytes[pos];
    if b0 < 0xE0 {
        if left < 2 {
            return (u32::MAX, left);
        }
        let b1: u8 = bytes[pos + 1];
        return (((b0 as u32 & 0x1F) << 6u32) | (b1 as u32 & 0x3F), 2);
    }
    if b0 < 0xF0 {
        if left < 3 {
            return (u32::MAX, left);
        }
        let b1: u8 = bytes[pos + 1];
        let b2: u8 = bytes[pos + 2];
        return (
            ((b0 as u32 & 0x0F) << 12u32) | ((b1 as u32 & 0x3F) << 6u32) | (b2 as u32 & 0x3F),
            3,
        );
    }
    if left < 4 {
        return (u32::MAX, left);
    }
    let b1: u8 = bytes[pos + 1];
    let b2: u8 = bytes[pos + 2];
    let b3: u8 = bytes[pos + 3];
    (
        ((b0 as u32 & 0x07) << 18u32) | ((b1 as u32 & 0x3F) << 12u32) | ((b2 as u32 & 0x3F) << 6u32)
            | (b3 as u32 & 0x3F),
        4,
    )
}

/// The class and the width of the character at `pos`.
#[inline(always)]
pub fn char_at(bytes: &[u8], pos: usize) -> (r: (CharClass, usize))
    requires
        pos < bytes@.len(),
    ensures
        r.0 == class_at(bytes@, pos as int),
        r.1 == width_at(bytes@, pos as int),
        1 <= r.1 <= bytes@.len() - pos,
{
    let b: u8 = bytes[pos];
    if b < 0x80 {
        (ascii_class_of(b), 1)
    } else {
        let (cp, w): (u32, usize) = decode_cp(bytes, pos);
        (class_of(cp), w)
    }
}

/// The end of the run of `class` characters that starts at `pos`.
pub open spec fn run_end(s: Seq<u8>, pos: int, class: CharClass) -> int
    decreases s.len() - pos,
{
    if 0 <= pos < s.len() && class_at(s, pos) == class {
        run_end(s, pos + width_at(s, pos), class)
    } else {
        pos
    }
}

/// A run ends at or after its start, and within the input.
pub proof fn lemma_run_end_bounds(s: Seq<u8>, pos: int, class: CharClass)
    requires
        0 <= pos <= s.len(),
    ensures
        pos <= run_end(s, pos, class) <= s.len(),
        run_end(s, pos, class) < s.len() ==> class_at(s, run_end(s, pos, class)) != class,
    decreases s.len() - pos,
{
    if pos < s.len() && class_at(s, pos) == class {
        lemma_run_end_bounds(s, pos + width_at(s, pos), class);
    }
}

/// The end of the run of `class` characters from `pos` on.
#[inline(always)]
fn scan_class_from(bytes: &[u8], pos: usize, class: CharClass) -> (p: usize)
    requires
        pos <= bytes@.len(),
    ensures
        p == run_end(bytes@, pos as int, class),
        pos <= p <= bytes@.len(),
{
    let len: usize = bytes.len();
    let mut p: usize = pos;
    while p < len
        invariant
            len == bytes@.len(),
            pos <= p <= len,
            run_end(bytes@, p as int, class) == run_end(bytes@, pos as int, class),
        ensures
            p == run_end(bytes@, pos as int, class),
            pos <= p <= len,
        decreases len - p,
    {
        let (c, w): (CharClass, usize) = char_at(bytes, p);
        if c != class {
            break;
        }
        p = p + w;
    }
    p
}

/// The end of the run of letters from `pos` on.
#[inline(always)]
pub fn scan_letters_from(bytes: &[u8], pos: usize) -> (p: usize)
    requires
        pos <= bytes@.len(),
    ensures
        p == run_end(bytes@, pos as int, CharClass::Letter),
        pos <= p <= bytes@.len(),
{
    scan_class_from(bytes, pos, CharClass::Letter)
}

/// The end of the run of numbers from `pos` on.
#[inline(always)]
pub fn scan_digits_from(bytes: &[u8], pos: usize) -> (p: usize)
    requires
        pos <= bytes@.len(),
    ensures
        p == run_end(bytes@, pos as int, CharClass::Number),
        pos <= p <= bytes@.len(),
{
    scan_class_from(bytes, pos, CharClass::Number)
}

/// The end of the run of `Other` characters from `pos` on.
#[inline(always)]
pub fn scan_other_from(bytes: &[u8], pos: usize) -> (p: usize)
    requires
        pos <= bytes@.len(),
    ensures
        p == run_end(bytes@, pos as int, CharClass::Other),
        pos <= p <= bytes@.len(),
{
    scan_class_from(bytes, pos, CharClass::Other)
}

/// The end of at most `n` number characters from `pos` on.
pub open spec fn numbers_end(s: Seq<u8>, pos: int, n: nat) -> int
    decreases n,
{
    if n > 0 && 0 <= pos < s.len() && class_at(s, pos) == CharClass::Number {
        numbers_end(s, pos + width_at(s, pos), (n - 1) as nat)
    } else {
        pos
    }
}

/// `\p{N}{1,3}`: extend a number run that already matched `consumed` chars
/// to at most 3 chars total.
#[inline(always)]
pub fn scan_numbers_max3(bytes: &[u8], pos: usize, consumed: u32) -> (p: usize)
    requires
        pos <= bytes@.len(),
    ensures
        p == numbers_end(
            bytes@,
            pos as int,
            (if consumed < 3 {
                3 - consumed
            } else {
                0
            }) as nat,
        ),
        pos <= p <= bytes@.len(),
{
    let len: usize = bytes.len();
    let mut p: usize = pos;
    let mut c: u32 = consumed;
    let ghost total = (if consumed < 3 {
        3 - consumed
    } else {
        0
    }) as nat;
    while c < 3 && p < len
        invariant
            len == bytes@.len(),
            pos <= p <= len,
            numbers_end(
                bytes@,
                p as int,
                (if c < 3 {
                    3 - c
                } else {
                    0
                }) as nat,
            ) == numbers_end(bytes@, pos as int, total),
        ensures
            p == numbers_end(bytes@, pos as int, total),
            pos <= p <= len,
        decreases len - p,
    {
        let (class, w): (CharClass, usize) = char_at(bytes, p);
        if class != CharClass::Number {
            break;
        }
        p = p + w;
        c = c + 1;
    }
    p
}

} // verus!
