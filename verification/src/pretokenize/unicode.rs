//! Character classes of the pretokenization regexes.

use icu::properties::props::{BinaryProperty, EnumeratedProperty, GeneralCategory, WhiteSpace};
use vstd::prelude::*;
use vstd::utf8::char_u32_cast;

verus! {

/// The general category of a character, by its `U_GC_XX` number.
pub uninterp spec fn general_category(c: char) -> u8;

/// Whether a character has the Unicode White_Space property.
pub uninterp spec fn white_space(c: char) -> bool;

/// `GeneralCategory::for_char`: the general category that the ICU data gives `c`.
#[inline]
#[verifier::external_body]
fn icu_general_category(c: char) -> (gc: u8)
    ensures
        gc == general_category(c),
{
    GeneralCategory::for_char(c) as u8
}

/// `WhiteSpace::for_char`: whether the ICU data gives `c` the White_Space property.
#[inline]
#[verifier::external_body]
fn icu_white_space(c: char) -> (r: bool)
    ensures
        r == white_space(c),
{
    WhiteSpace::for_char(c)
}

/// Whether `cp` is a Unicode scalar value.
pub open spec fn is_scalar(cp: u32) -> bool {
    cp < 0xD800 || 0xE000 <= cp <= 0x10FFFF
}

/// `char::from_u32`: the character with code point `cp`, where `cp` is a scalar value.
#[inline]
#[verifier::external_body]
fn char_from_u32(cp: u32) -> (r: Option<char>)
    ensures
        match r {
            Some(c) => is_scalar(cp) && c as u32 == cp,
            None => !is_scalar(cp),
        },
{
    char::from_u32(cp)
}

/// The letter categories: `Lu`, `Ll`, `Lt`, `Lm`, `Lo`.
pub open spec fn gc_letter(gc: u8) -> bool {
    1 <= gc <= 5
}

/// The mark categories: `Mn`, `Me`, `Mc`.
pub open spec fn gc_mark(gc: u8) -> bool {
    6 <= gc <= 8
}

/// The number categories: `Nd`, `Nl`, `No`.
pub open spec fn gc_number(gc: u8) -> bool {
    9 <= gc <= 11
}

/// The punctuation and symbol categories: `Pd`, `Ps`, `Pe`, `Pc`, `Po`, `Sm`,
/// `Sc`, `Sk`, `So`, `Pi`, `Pf`.
pub open spec fn gc_punct_sym(gc: u8) -> bool {
    19 <= gc <= 29
}

/// The general category of `c`.
#[inline]
pub fn get_general_category(c: char) -> (gc: u8)
    ensures
        gc == general_category(c),
{
    icu_general_category(c)
}

/// Whether a category is a letter category.
#[inline]
pub fn is_gc_letter(gc: u8) -> (r: bool)
    ensures
        r == gc_letter(gc),
{
    1 <= gc && gc <= 5
}

/// Whether a category is a number category.
#[inline]
pub fn is_gc_number(gc: u8) -> (r: bool)
    ensures
        r == gc_number(gc),
{
    9 <= gc && gc <= 11
}

/// Unicode White_Space property, which matches the same characters as `\s` in
/// regex: the separators plus control characters like TAB, LF, CR and NEL.
#[inline]
pub fn is_whitespace(c: char) -> (r: bool)
    ensures
        r == white_space(c),
{
    icu_white_space(c)
}

/// Whether a character is a letter.
#[inline]
pub fn is_letter(c: char) -> (r: bool)
    ensures
        r == gc_letter(general_category(c)),
{
    is_gc_letter(get_general_category(c))
}

/// Whether a character is a number.
#[inline]
pub fn is_number(c: char) -> (r: bool)
    ensures
        r == gc_number(general_category(c)),
{
    is_gc_number(get_general_category(c))
}

/// Character class as used by the pretokenization regexes: `\p{L}`, `\p{N}`,
/// `\s` (White_Space), and everything else.
#[derive(Debug, Clone, Copy, PartialEq, Eq, Structural)]
pub enum CharClass {
    Letter,
    Number,
    Whitespace,
    Other,
}

/// The class of a character.
pub open spec fn char_class(c: char) -> CharClass {
    if gc_letter(general_category(c)) {
        CharClass::Letter
    } else if gc_number(general_category(c)) {
        CharClass::Number
    } else if white_space(c) {
        CharClass::Whitespace
    } else {
        CharClass::Other
    }
}

/// The class of a code point; what is no scalar value is `Other`.
pub open spec fn cp_class(cp: u32) -> CharClass {
    if is_scalar(cp) {
        char_class(cp as char)
    } else {
        CharClass::Other
    }
}

/// Classify a codepoint.
#[inline]
pub fn class_of(cp: u32) -> (class: CharClass)
    ensures
        class == cp_class(cp),
{
    match char_from_u32(cp) {
        Some(c) => {
            proof {
                char_u32_cast(c, cp);
            }
            let gc: u8 = get_general_category(c);
            if is_gc_letter(gc) {
                CharClass::Letter
            } else if is_gc_number(gc) {
                CharClass::Number
            } else if is_whitespace(c) {
                CharClass::Whitespace
            } else {
                CharClass::Other
            }
        },
        None => CharClass::Other,
    }
}

/// Character class as used by the DeepSeek V3 main regex, which additionally
/// distinguishes `\p{M}` (joins letter runs) and `\p{P}`/`\p{S}` (punctuation
/// runs) from the remaining `Other` codepoints (controls, format chars,
/// unassigned), which the regex leaves unmatched.
#[derive(Debug, Clone, Copy, PartialEq, Eq, Structural)]
pub enum DsCharClass {
    Letter,
    Number,
    Whitespace,
    Mark,
    PunctSym,
    Other,
}

/// The DeepSeek class of a code point.
pub open spec fn cp_ds_class(cp: u32) -> DsCharClass {
    if !is_scalar(cp) {
        DsCharClass::Other
    } else {
        let c = cp as char;
        if gc_letter(general_category(c)) {
            DsCharClass::Letter
        } else if gc_number(general_category(c)) {
            DsCharClass::Number
        } else if white_space(c) {
            DsCharClass::Whitespace
        } else if gc_mark(general_category(c)) {
            DsCharClass::Mark
        } else if gc_punct_sym(general_category(c)) {
            DsCharClass::PunctSym
        } else {
            DsCharClass::Other
        }
    }
}

/// Classify a codepoint for the DeepSeek scheme.
#[inline]
pub fn ds_class_of(cp: u32) -> (class: DsCharClass)
    ensures
        class == cp_ds_class(cp),
{
    match char_from_u32(cp) {
        Some(c) => {
            proof {
                char_u32_cast(c, cp);
            }
            let gc: u8 = get_general_category(c);
            if is_gc_letter(gc) {
                DsCharClass::Letter
            } else if is_gc_number(gc) {
                DsCharClass::Number
            } else if is_whitespace(c) {
                DsCharClass::Whitespace
            } else if 6 <= gc && gc <= 8 {
                DsCharClass::Mark
            } else if 19 <= gc && gc <= 29 {
                DsCharClass::PunctSym
            } else {
                DsCharClass::Other
            }
        },
        None => DsCharClass::Other,
    }
}

/// The DeepSeek classes refine the four: they agree on letters, numbers and
/// whitespace, and split the rest.
pub proof fn lemma_ds_class_refines(cp: u32)
    ensures
        cp_ds_class(cp) is Letter <==> cp_class(cp) is Letter,
        cp_ds_class(cp) is Number <==> cp_class(cp) is Number,
        cp_ds_class(cp) is Whitespace <==> cp_class(cp) is Whitespace,
{
}

/// Four-class view for schemes whose regex joins `\p{M}` into letter
/// runs and excludes it from punctuation runs: marks classify as
/// letters, everything else by its DeepSeek class.
pub open spec fn cp_class_marks_join(cp: u32) -> CharClass {
    match cp_ds_class(cp) {
        DsCharClass::Letter | DsCharClass::Mark => CharClass::Letter,
        DsCharClass::Number => CharClass::Number,
        DsCharClass::Whitespace => CharClass::Whitespace,
        DsCharClass::PunctSym | DsCharClass::Other => CharClass::Other,
    }
}

/// Classify a codepoint with marks joined to letters.
#[inline]
pub fn class_of_marks_join(cp: u32) -> (class: CharClass)
    ensures
        class == cp_class_marks_join(cp),
{
    match ds_class_of(cp) {
        DsCharClass::Letter | DsCharClass::Mark => CharClass::Letter,
        DsCharClass::Number => CharClass::Number,
        DsCharClass::Whitespace => CharClass::Whitespace,
        DsCharClass::PunctSym | DsCharClass::Other => CharClass::Other,
    }
}

/// Classes for o200k's case-structured letter runs. Marks stay separate
/// because they can continue both letter and punctuation runs.
#[derive(Debug, Clone, Copy, PartialEq, Eq, Structural)]
pub enum O200kCharClass {
    Upper,
    Lower,
    Caseless,
    Mark,
    Number,
    Whitespace,
    Other,
}

/// The o200k class of a code point.
pub open spec fn cp_o200k_class(cp: u32) -> O200kCharClass {
    if !is_scalar(cp) {
        O200kCharClass::Other
    } else {
        let gc = general_category(cp as char);
        if gc == 1 || gc == 3 {
            O200kCharClass::Upper
        } else if gc == 2 {
            O200kCharClass::Lower
        } else if gc_letter(gc) {
            O200kCharClass::Caseless
        } else if gc_mark(gc) {
            O200kCharClass::Mark
        } else if gc_number(gc) {
            O200kCharClass::Number
        } else if white_space(cp as char) {
            O200kCharClass::Whitespace
        } else {
            O200kCharClass::Other
        }
    }
}

/// Classify a code point for the o200k family: upper and title case letters,
/// lower case letters, other letters, marks, numbers, whitespace, and the rest.
#[inline]
pub fn o200k_class_of(cp: u32) -> (class: O200kCharClass)
    ensures
        class == cp_o200k_class(cp),
{
    match char_from_u32(cp) {
        Some(c) => {
            proof {
                char_u32_cast(c, cp);
            }
            let gc: u8 = get_general_category(c);
            if gc == 1 || gc == 3 {
                O200kCharClass::Upper
            } else if gc == 2 {
                O200kCharClass::Lower
            } else if is_gc_letter(gc) {
                O200kCharClass::Caseless
            } else if 6 <= gc && gc <= 8 {
                O200kCharClass::Mark
            } else if is_gc_number(gc) {
                O200kCharClass::Number
            } else if is_whitespace(c) {
                O200kCharClass::Whitespace
            } else {
                O200kCharClass::Other
            }
        },
        None => O200kCharClass::Other,
    }
}

/// The CJK ranges isolated by the DeepSeek pretokenizer's second split: CJK
/// unified ideographs, hiragana and katakana.
pub open spec fn deepseek_cjk(cp: u32) -> bool {
    0x4E00 <= cp <= 0x9FA5 || 0x3040 <= cp <= 0x30FF
}

/// Whether a code point is in the ranges that DeepSeek isolates.
#[inline]
pub fn is_deepseek_cjk(cp: u32) -> (r: bool)
    ensures
        r == deepseek_cjk(cp),
{
    (0x4E00 <= cp && cp <= 0x9FA5) || (0x3040 <= cp && cp <= 0x30FF)
}

} // verus!
