//! The Nemotron-3 pretokenization:
//! `[^\r\n\p{L}\p{N}]?[\p{Lu}\p{Lt}\p{Lm}\p{Lo}\p{M}]*[\p{Ll}\p{Lm}\p{Lo}\p{M}]+|[^\r\n\p{L}\p{N}]?[\p{Lu}\p{Lt}\p{Lm}\p{Lo}\p{M}]+[\p{Ll}\p{Lm}\p{Lo}\p{M}]*|\p{N}| ?[^\s\p{L}\p{N}]+[\r\n/]*|\s*[\r\n]+|\s+(?!\S)|\s+`

use vstd::prelude::*;

use crate::pretokenize::cuts::{
    lemma_valid_utf8_walks, lemma_walk_forward, lemma_walk_join, lemma_walk_linear, safe_cut, walks,
    word_end,
};
use crate::pretokenize::mask_state::{reaches, MaskScheme};
use crate::pretokenize::scan::{
    cp_at, decode_cp, digit_byte, is_ascii_ws, is_digit, lead_width, letter_byte, width_at, ws_byte,
};
use crate::pretokenize::word_masks::{MaskPretokenizer, lemma_words_trusted, word_masks, word_to};
use crate::pretokenize::unicode::{cp_o200k_class, o200k_class_of, O200kCharClass};

verus! {

/// The class of the character at `pos`; a sequence that the input cuts short is
/// `Other`.
pub open spec fn case_class(s: Seq<u8>, pos: int) -> O200kCharClass {
    let b = s[pos];
    if b >= 0x80 {
        if pos + lead_width(b) <= s.len() {
            cp_o200k_class(cp_at(s, pos))
        } else {
            O200kCharClass::Other
        }
    } else if 0x41 <= b <= 0x5A {
        O200kCharClass::Upper
    } else if 0x61 <= b <= 0x7A {
        O200kCharClass::Lower
    } else if digit_byte(b) {
        O200kCharClass::Number
    } else if ws_byte(b) {
        O200kCharClass::Whitespace
    } else {
        O200kCharClass::Other
    }
}

/// The class and the width of the character at `pos`.
pub fn case_class_at(bytes: &[u8], pos: usize) -> (r: (O200kCharClass, usize))
    requires
        pos < bytes@.len(),
    ensures
        r.0 == case_class(bytes@, pos as int),
        r.1 == width_at(bytes@, pos as int),
        1 <= r.1 <= bytes@.len() - pos,
{
    let b: u8 = bytes[pos];
    if b >= 0x80 {
        let (cp, w): (u32, usize) = decode_cp(bytes, pos);
        (o200k_class_of(cp), w)
    } else if 0x41 <= b && b <= 0x5A {
        (O200kCharClass::Upper, 1)
    } else if 0x61 <= b && b <= 0x7A {
        (O200kCharClass::Lower, 1)
    } else if is_digit(b) {
        (O200kCharClass::Number, 1)
    } else if is_ascii_ws(b) {
        (O200kCharClass::Whitespace, 1)
    } else {
        (O200kCharClass::Other, 1)
    }
}

/// `[\p{Lu}\p{Lt}\p{Lm}\p{Lo}\p{M}]`
pub open spec fn upperish(c: O200kCharClass) -> bool {
    c is Upper || c is Caseless || c is Mark
}

/// `[\p{Ll}\p{Lm}\p{Lo}\p{M}]`
pub open spec fn lowerish(c: O200kCharClass) -> bool {
    c is Lower || c is Caseless || c is Mark
}

/// `[^\s\p{L}\p{N}]`
pub open spec fn punctish(c: O200kCharClass) -> bool {
    c is Mark || c is Other
}

/// `[^\r\n\p{L}\p{N}]`
pub open spec fn prefixable(s: Seq<u8>, pos: int) -> bool {
    s[pos] != 10 && s[pos] != 13 && (case_class(s, pos) is Mark || case_class(s, pos) is Whitespace
        || case_class(s, pos) is Other)
}

/// The end of the upper-case-like run from `pos` on.
pub open spec fn upper_end(s: Seq<u8>, pos: int) -> int
    decreases s.len() - pos,
{
    if 0 <= pos < s.len() && upperish(case_class(s, pos)) {
        upper_end(s, pos + width_at(s, pos))
    } else {
        pos
    }
}

/// The end of the lower-case-like run from `pos` on.
pub open spec fn lower_end(s: Seq<u8>, pos: int) -> int
    decreases s.len() - pos,
{
    if 0 <= pos < s.len() && lowerish(case_class(s, pos)) {
        lower_end(s, pos + width_at(s, pos))
    } else {
        pos
    }
}

/// The end of the last character of the upper-case-like run from `pos` on that is
/// lower-case-like too.
pub open spec fn joint_end(s: Seq<u8>, pos: int) -> Option<int>
    decreases s.len() - pos,
{
    if 0 <= pos < s.len() && upperish(case_class(s, pos)) {
        let next = pos + width_at(s, pos);
        match joint_end(s, next) {
            Some(e) => Some(e),
            None => if lowerish(case_class(s, pos)) {
                Some(next)
            } else {
                None
            },
        }
    } else {
        None
    }
}

/// What an upper-case-like run and then at least one lower-case-like character
/// match: the run is as long as that allows.
pub open spec fn cased_match(s: Seq<u8>, q: int) -> Option<int> {
    let e = upper_end(s, q);
    if e < s.len() && case_class(s, e) is Lower {
        Some(lower_end(s, e))
    } else {
        joint_end(s, q)
    }
}

/// What at least one upper-case-like character and then a lower-case-like run
/// match.
pub open spec fn upper_match(s: Seq<u8>, q: int) -> Option<int> {
    let e = upper_end(s, q);
    if e > q {
        Some(lower_end(s, e))
    } else {
        None
    }
}

/// What the two letter alternatives match at `pos`, each with a character before
/// the letters if that can be.
pub open spec fn letters_match(s: Seq<u8>, pos: int) -> Option<int> {
    let q = pos + width_at(s, pos);
    if prefixable(s, pos) && cased_match(s, q) is Some {
        cased_match(s, q)
    } else if cased_match(s, pos) is Some {
        cased_match(s, pos)
    } else if prefixable(s, pos) && upper_match(s, q) is Some {
        upper_match(s, q)
    } else {
        upper_match(s, pos)
    }
}

/// The end of the punctuation run from `pos` on.
pub open spec fn punct_end(s: Seq<u8>, pos: int) -> int
    decreases s.len() - pos,
{
    if 0 <= pos < s.len() && punctish(case_class(s, pos)) {
        punct_end(s, pos + width_at(s, pos))
    } else {
        pos
    }
}

/// `[\r\n/]`
pub open spec fn line_byte(b: u8) -> bool {
    b == 10 || b == 13 || b == 0x2F
}

/// The end of the run of line ends and slashes from `pos` on.
pub open spec fn lines_end(s: Seq<u8>, pos: int) -> int
    decreases s.len() - pos,
{
    if 0 <= pos < s.len() && line_byte(s[pos]) {
        lines_end(s, pos + 1)
    } else {
        pos
    }
}

/// The end of the whitespace run from `pos` on.
pub open spec fn space_end(s: Seq<u8>, pos: int) -> int
    decreases s.len() - pos,
{
    if 0 <= pos < s.len() && case_class(s, pos) is Whitespace {
        space_end(s, pos + width_at(s, pos))
    } else {
        pos
    }
}

/// The start of the last character of the whitespace run from `pos` on.
pub open spec fn last_space(s: Seq<u8>, pos: int) -> int
    decreases s.len() - pos,
{
    let next = pos + width_at(s, pos);
    if 0 <= pos < s.len() && next < s.len() && case_class(s, next) is Whitespace {
        last_space(s, next)
    } else {
        pos
    }
}

/// The end of the last line end of the whitespace run from `pos` on.
pub open spec fn newline_end(s: Seq<u8>, pos: int) -> Option<int>
    decreases s.len() - pos,
{
    if 0 <= pos < s.len() && case_class(s, pos) is Whitespace {
        let next = pos + width_at(s, pos);
        match newline_end(s, next) {
            Some(e) => Some(e),
            None => if s[pos] == 10 || s[pos] == 13 {
                Some(next)
            } else {
                None
            },
        }
    } else {
        None
    }
}

/// What the whitespace alternatives match at a whitespace character.
pub open spec fn space_match(s: Seq<u8>, pos: int) -> int {
    match newline_end(s, pos) {
        Some(e) => e,
        None => if space_end(s, pos) < s.len() && last_space(s, pos) > pos {
            last_space(s, pos)
        } else {
            space_end(s, pos)
        },
    }
}

/// Where the optional space before punctuation ends.
pub open spec fn past_space(s: Seq<u8>, pos: int) -> int {
    if s[pos] == 0x20 && pos + 1 < s.len() {
        pos + 1
    } else {
        pos
    }
}

/// The end of the pretoken that starts at `pos`: the first alternative that
/// matches there.
pub open spec fn nemotron_end(s: Seq<u8>, pos: int) -> int {
    let body = past_space(s, pos);
    match letters_match(s, pos) {
        Some(e) => e,
        None => if case_class(s, pos) is Number {
            pos + width_at(s, pos)
        } else if punctish(case_class(s, body)) {
            lines_end(s, punct_end(s, body))
        } else {
            space_match(s, pos)
        },
    }
}

/// Runs end at or after their start, and within the input.
pub proof fn lemma_runs(s: Seq<u8>, pos: int)
    requires
        0 <= pos <= s.len(),
    ensures
        pos <= upper_end(s, pos) <= s.len(),
        pos <= lower_end(s, pos) <= s.len(),
        pos <= punct_end(s, pos) <= s.len(),
        pos <= lines_end(s, pos) <= s.len(),
        pos <= space_end(s, pos) <= s.len(),
        joint_end(s, pos) matches Some(e) ==> pos < e <= upper_end(s, pos),
        newline_end(s, pos) matches Some(e) ==> pos < e <= space_end(s, pos),
    decreases s.len() - pos,
{
    if pos < s.len() {
        lemma_runs(s, pos + width_at(s, pos));
        lemma_runs(s, pos + 1);
    }
}

/// The last character of a whitespace run lies in it.
proof fn lemma_last_space(s: Seq<u8>, pos: int)
    requires
        0 <= pos < s.len(),
        case_class(s, pos) is Whitespace,
    ensures
        pos <= last_space(s, pos) < space_end(s, pos),
    decreases s.len() - pos,
{
    let next = pos + width_at(s, pos);
    lemma_runs(s, next);
    if next < s.len() && case_class(s, next) is Whitespace {
        lemma_last_space(s, next);
    }
}

/// Every pretoken takes at least a byte, and ends within the input.
pub proof fn lemma_nemotron_progress(s: Seq<u8>, pos: int)
    requires
        0 <= pos < s.len(),
    ensures
        pos < nemotron_end(s, pos) <= s.len(),
{
    let w = width_at(s, pos);
    let q = pos + w;
    let body = past_space(s, pos);
    assert(1 <= w && q <= s.len());
    lemma_runs(s, pos);
    lemma_runs(s, q);
    lemma_runs(s, upper_end(s, pos));
    lemma_runs(s, upper_end(s, q));
    lemma_runs(s, body);
    lemma_runs(s, punct_end(s, body));
    lemma_match_end(s, pos);
    lemma_match_end(s, q);
    if letters_match(s, pos) is None {
        assert(upper_end(s, pos) == pos);
        if case_class(s, pos) is Whitespace {
            lemma_last_space(s, pos);
        }
        assert(!(case_class(s, pos) is Lower)) by {
            assert(cased_match(s, pos) is None);
        }
        if punctish(case_class(s, body)) {
            lemma_runs(s, body + width_at(s, body));
            assert(punct_end(s, body) > body);
        }
    }
}

proof fn lemma_match_end(s: Seq<u8>, q: int)
    requires
        0 <= q <= s.len(),
    ensures
        cased_match(s, q) matches Some(e) ==> q < e <= s.len(),
        upper_match(s, q) matches Some(e) ==> q < e <= s.len(),
{
    let e = upper_end(s, q);
    lemma_runs(s, q);
    lemma_runs(s, e);
    if e < s.len() && case_class(s, e) is Lower {
        lemma_runs(s, e + width_at(s, e));
        assert(lower_end(s, e) > e);
    }
}

/// The end of the upper-case-like run from `pos` on, and that of its last
/// character that is lower-case-like too.
fn scan_upper(bytes: &[u8], pos: usize) -> (r: (usize, Option<usize>))
    requires
        pos <= bytes@.len(),
    ensures
        r.0 == upper_end(bytes@, pos as int),
        pos <= r.0 <= bytes@.len(),
        match r.1 {
            Some(e) => joint_end(bytes@, pos as int) == Some(e as int),
            None => joint_end(bytes@, pos as int) is None,
        },
{
    let ghost s = bytes@;
    let len: usize = bytes.len();
    let mut p: usize = pos;
    let mut joint: Option<usize> = None;
    while p < len
        invariant
            s == bytes@,
            len == s.len(),
            pos <= p <= len,
            upper_end(s, p as int) == upper_end(s, pos as int),
            joint_end(s, pos as int) == match joint_end(s, p as int) {
                Some(e) => Some(e),
                None => match joint {
                    Some(e) => Some(e as int),
                    None => None,
                },
            },
        ensures
            pos <= p <= len,
            p == upper_end(s, pos as int),
            match joint {
                Some(e) => joint_end(s, pos as int) == Some(e as int),
                None => joint_end(s, pos as int) is None,
            },
        decreases len - p,
    {
        let (c, w): (O200kCharClass, usize) = case_class_at(bytes, p);
        match c {
            O200kCharClass::Upper => {},
            O200kCharClass::Caseless | O200kCharClass::Mark => {
                joint = Some(p + w);
            },
            _ => {
                break;
            },
        }
        p = p + w;
    }
    (p, joint)
}

/// The end of the lower-case-like run from `pos` on.
fn scan_lower(bytes: &[u8], pos: usize) -> (p: usize)
    requires
        pos <= bytes@.len(),
    ensures
        p == lower_end(bytes@, pos as int),
        pos <= p <= bytes@.len(),
{
    let len: usize = bytes.len();
    let mut p: usize = pos;
    while p < len
        invariant
            len == bytes@.len(),
            pos <= p <= len,
            lower_end(bytes@, p as int) == lower_end(bytes@, pos as int),
        ensures
            pos <= p <= len,
            p == lower_end(bytes@, pos as int),
        decreases len - p,
    {
        let (c, w): (O200kCharClass, usize) = case_class_at(bytes, p);
        match c {
            O200kCharClass::Lower | O200kCharClass::Caseless | O200kCharClass::Mark => {},
            _ => {
                break;
            },
        }
        p = p + w;
    }
    p
}

/// What the letters of the two alternatives match at `q`.
fn match_at(bytes: &[u8], q: usize) -> (r: (Option<usize>, Option<usize>))
    requires
        q <= bytes@.len(),
    ensures
        match r.0 {
            Some(e) => cased_match(bytes@, q as int) == Some(e as int),
            None => cased_match(bytes@, q as int) is None,
        },
        match r.1 {
            Some(e) => upper_match(bytes@, q as int) == Some(e as int),
            None => upper_match(bytes@, q as int) is None,
        },
{
    let (e, joint): (usize, Option<usize>) = scan_upper(bytes, q);
    let low: usize = scan_lower(bytes, e);
    let upper: Option<usize> = if e > q {
        Some(low)
    } else {
        None
    };
    if e < bytes.len() {
        let (c, _): (O200kCharClass, usize) = case_class_at(bytes, e);
        if c == O200kCharClass::Lower {
            return (Some(low), upper);
        }
    }
    (joint, upper)
}

/// The end of the punctuation run from `pos` on, and of the line ends behind it.
fn scan_punct(bytes: &[u8], pos: usize) -> (p: usize)
    requires
        pos <= bytes@.len(),
    ensures
        p == lines_end(bytes@, punct_end(bytes@, pos as int)),
{
    let ghost s = bytes@;
    let len: usize = bytes.len();
    let mut p: usize = pos;
    while p < len
        invariant
            s == bytes@,
            len == s.len(),
            pos <= p <= len,
            punct_end(s, p as int) == punct_end(s, pos as int),
        ensures
            p <= len,
            p == punct_end(s, pos as int),
        decreases len - p,
    {
        let (c, w): (O200kCharClass, usize) = case_class_at(bytes, p);
        match c {
            O200kCharClass::Mark | O200kCharClass::Other => {},
            _ => {
                break;
            },
        }
        p = p + w;
    }
    let ghost stop = p as int;
    while p < len && (bytes[p] == 10 || bytes[p] == 13 || bytes[p] == 0x2F)
        invariant
            s == bytes@,
            len == s.len(),
            p <= len,
            lines_end(s, p as int) == lines_end(s, stop),
        decreases len - p,
    {
        p = p + 1;
    }
    p
}

/// What the whitespace alternatives match at a whitespace character.
fn scan_space(bytes: &[u8], pos: usize) -> (r: usize)
    requires
        pos < bytes@.len(),
        case_class(bytes@, pos as int) is Whitespace,
    ensures
        r == space_match(bytes@, pos as int),
{
    let ghost s = bytes@;
    let len: usize = bytes.len();
    let mut p: usize = pos;
    let mut last: usize = pos;
    let mut newline: Option<usize> = None;
    while p < len
        invariant
            s == bytes@,
            len == s.len(),
            pos <= last <= p <= len,
            pos < len,
            case_class(s, pos as int) is Whitespace,
            p == pos ==> last == pos,
            p > pos ==> {
                &&& p == last + width_at(s, last as int)
                &&& last_space(s, last as int) == last_space(s, pos as int)
            },
            space_end(s, p as int) == space_end(s, pos as int),
            newline_end(s, pos as int) == match newline_end(s, p as int) {
                Some(e) => Some(e),
                None => match newline {
                    Some(e) => Some(e as int),
                    None => None,
                },
            },
        ensures
            p <= len,
            p == space_end(s, pos as int),
            last == last_space(s, pos as int),
            match newline {
                Some(e) => newline_end(s, pos as int) == Some(e as int),
                None => newline_end(s, pos as int) is None,
            },
        decreases len - p,
    {
        let (c, w): (O200kCharClass, usize) = case_class_at(bytes, p);
        if c != O200kCharClass::Whitespace {
            break;
        }
        if bytes[p] == 10 || bytes[p] == 13 {
            newline = Some(p + w);
        }
        last = p;
        p = p + w;
    }
    match newline {
        Some(e) => e,
        None => if p < len && last > pos {
            last
        } else {
            p
        },
    }
}

/// Advance past one token starting at `pos`; returns the token's end.
pub fn advance_pos(bytes: &[u8], pos: usize) -> (end: usize)
    requires
        pos < bytes@.len(),
    ensures
        end == nemotron_end(bytes@, pos as int),
        pos < end <= bytes@.len(),
{
    proof {
        lemma_nemotron_progress(bytes@, pos as int);
    }
    let len: usize = bytes.len();
    let b: u8 = bytes[pos];
    let (c, w): (O200kCharClass, usize) = case_class_at(bytes, pos);
    let prefix: bool = b != 10 && b != 13 && (c == O200kCharClass::Mark || c
        == O200kCharClass::Whitespace || c == O200kCharClass::Other);
    let (cased, upper): (Option<usize>, Option<usize>) = match_at(bytes, pos);
    if prefix {
        let (cased_behind, upper_behind): (Option<usize>, Option<usize>) = match_at(
            bytes,
            pos + w,
        );
        if let Some(e) = cased_behind {
            return e;
        }
        if let Some(e) = cased {
            return e;
        }
        if let Some(e) = upper_behind {
            return e;
        }
    } else if let Some(e) = cased {
        return e;
    }
    if let Some(e) = upper {
        return e;
    }
    if c == O200kCharClass::Number {
        return pos + w;
    }
    let body: usize = if b == 0x20 && pos + 1 < len {
        pos + 1
    } else {
        pos
    };
    let (at_body, _): (O200kCharClass, usize) = case_class_at(bytes, body);
    if at_body == O200kCharClass::Mark || at_body == O200kCharClass::Other {
        return scan_punct(bytes, body);
    }
    assert(case_class(bytes@, pos as int) is Whitespace) by {
        assert(upper_match(bytes@, pos as int) is None);
        assert(cased_match(bytes@, pos as int) is None);
        assert(upper_end(bytes@, pos as int) == pos);
    }
    scan_space(bytes, pos)
}

/// Runs that are no whitespace are walked, and do not pass a space.
proof fn lemma_runs_walk(s: Seq<u8>, pos: int, p: int)
    requires
        0 <= pos <= p < s.len(),
        walks(s, pos, p),
        s[p] == 0x20,
    ensures
        walks(s, pos, upper_end(s, pos)) && upper_end(s, pos) <= p,
        walks(s, pos, lower_end(s, pos)) && lower_end(s, pos) <= p,
        walks(s, pos, punct_end(s, pos)) && punct_end(s, pos) <= p,
        walks(s, pos, lines_end(s, pos)) && lines_end(s, pos) <= p,
        joint_end(s, pos) matches Some(e) ==> walks(s, pos, e) && e <= p,
    decreases p - pos,
{
    if pos < p {
        let next = pos + width_at(s, pos);
        lemma_walk_forward(s, next, p);
        lemma_runs_walk(s, next, p);
        lemma_runs(s, next);
        assert(walks(s, next, next));
    }
}

/// A whitespace run is walked, and does not pass another character.
proof fn lemma_space_walks(s: Seq<u8>, pos: int, r: int)
    requires
        0 <= pos <= r < s.len(),
        walks(s, pos, r),
        !(case_class(s, r) is Whitespace),
    ensures
        walks(s, pos, space_end(s, pos)) && space_end(s, pos) <= r,
        newline_end(s, pos) matches Some(e) ==> walks(s, pos, e) && e <= r,
        case_class(s, pos) is Whitespace ==> walks(s, pos, last_space(s, pos)),
    decreases r - pos,
{
    if pos < r {
        let next = pos + width_at(s, pos);
        lemma_walk_forward(s, next, r);
        lemma_space_walks(s, next, r);
        lemma_runs(s, next);
        assert(walks(s, next, next));
        if case_class(s, pos) is Whitespace && next < s.len() && case_class(s, next) is Whitespace {
            lemma_last_space(s, next);
        }
    }
}

/// What the letter alternatives match is walked, and does not pass a space.
proof fn lemma_matches_walk(s: Seq<u8>, q: int, p: int)
    requires
        0 <= q <= p < s.len(),
        walks(s, q, p),
        s[p] == 0x20,
    ensures
        cased_match(s, q) matches Some(e) ==> walks(s, q, e) && e <= p,
        upper_match(s, q) matches Some(e) ==> walks(s, q, e) && e <= p,
{
    let e = upper_end(s, q);
    lemma_runs_walk(s, q, p);
    lemma_walk_linear(s, q, e, p);
    lemma_runs_walk(s, e, p);
    lemma_runs(s, e);
    lemma_walk_join(s, q, e, lower_end(s, e));
}

/// No pretoken that starts before the end of a word passes it.
pub proof fn lemma_nemotron_stops_at_cut(s: Seq<u8>, pos: int, p: int)
    requires
        word_end(s, p),
        0 <= pos < p,
        walks(s, pos, p - 1),
    ensures
        pos < nemotron_end(s, pos) <= p,
        nemotron_end(s, pos) < p ==> walks(s, nemotron_end(s, pos), p - 1),
{
    let end = nemotron_end(s, pos);
    let w = width_at(s, pos);
    let q = pos + w;
    let body = past_space(s, pos);
    lemma_nemotron_progress(s, pos);
    assert(walks(s, p - 1, p)) by {
        assert(walks(s, p, p));
    }
    lemma_walk_join(s, pos, p - 1, p);
    lemma_walk_forward(s, q, p);
    assert(walks(s, q, q));
    assert(walks(s, pos, q));
    lemma_matches_walk(s, pos, p);
    lemma_matches_walk(s, q, p);
    lemma_match_end(s, q);
    assert(walks(s, pos, end) && end <= p) by {
        if letters_match(s, pos) is Some {
            if prefixable(s, pos) && (letters_match(s, pos) == cased_match(s, q)
                || letters_match(s, pos) == upper_match(s, q)) && walks(s, q, end) {
                lemma_walk_join(s, pos, q, end);
            }
        } else if case_class(s, pos) is Number {
        } else if punctish(case_class(s, body)) {
            if body == pos + 1 {
                assert(q == body);
            }
            lemma_runs_walk(s, body, p);
            let x = punct_end(s, body);
            lemma_walk_linear(s, body, x, p);
            lemma_runs_walk(s, x, p);
            lemma_runs(s, body);
            lemma_runs(s, x);
            lemma_walk_join(s, body, x, end);
            lemma_walk_join(s, pos, body, end);
        } else {
            lemma_whitespace_left(s, pos);
            lemma_space_walks(s, pos, p - 1);
            lemma_last_space(s, pos);
        }
    }
    if end < p {
        lemma_walk_linear(s, pos, end, p - 1);
    }
}

/// What no other alternative matches is whitespace.
proof fn lemma_whitespace_left(s: Seq<u8>, pos: int)
    requires
        0 <= pos < s.len(),
        letters_match(s, pos) is None,
        !(case_class(s, pos) is Number),
        !punctish(case_class(s, past_space(s, pos))),
    ensures
        case_class(s, pos) is Whitespace,
{
    lemma_runs(s, pos);
    lemma_runs(s, pos + width_at(s, pos));
    assert(upper_match(s, pos) is None);
    assert(cased_match(s, pos) is None);
    assert(upper_end(s, pos) == pos);
}

/// The pretokens reach the end of a word: a document can be cut there under this
/// scheme too.
pub proof fn lemma_nemotron_reaches(s: Seq<u8>, pos: int, p: int)
    requires
        word_end(s, p),
        0 <= pos < p,
        walks(s, pos, p - 1),
    ensures
        reaches(NemotronScheme::ends(s), s.len() as int, pos, p),
    decreases p - pos,
{
    let end = NemotronScheme::ends(s);
    lemma_nemotron_stops_at_cut(s, pos, p);
    let e = nemotron_end(s, pos);
    assert(end(pos) == e);
    if e < p {
        lemma_nemotron_reaches(s, e, p);
    }
    assert(reaches(end, s.len() as int, e, p));
}

/// Lower-case letters go on to the end of a word.
proof fn lemma_lower_goes_on(s: Seq<u8>, a: int, q: int)
    requires
        0 <= a <= q < s.len(),
        forall|j: int| a <= j <= q ==> 0x61 <= #[trigger] s[j] <= 0x7A,
    ensures
        lower_end(s, a) > q,
    decreases q - a,
{
    assert(0x61 <= s[a] <= 0x7A);
    assert(width_at(s, a) == 1);
    lemma_runs(s, a + 1);
    if a < q {
        lemma_lower_goes_on(s, a + 1, q);
    }
}

/// A pretoken that starts with a word's space holds the word.
proof fn lemma_word_held(s: Seq<u8>, p: int, q: int)
    requires
        word_to(s, p, q, true),
    ensures
        q < nemotron_end(s, p),
{
    lemma_nemotron_progress(s, p);
    if p < q {
        let a = p + 1;
        assert(letter_byte(s[a]));
        assert(prefixable(s, p));
        assert(width_at(s, p) == 1 && width_at(s, a) == 1);
        lemma_match_end(s, a);
        assert(upper_end(s, p) == p);
        assert(cased_match(s, p) is None);
        assert(upper_match(s, p) is None);
        assert forall|j: int| a < j <= q implies 0x61 <= #[trigger] s[j] <= 0x7A by {
            assert(letter_byte(s[j]));
        }
        if s[a] >= 0x61 {
            lemma_lower_goes_on(s, a, q);
            assert(upper_end(s, a) == a);
        } else {
            assert(upperish(case_class(s, a)));
            if a < q {
                assert(0x61 <= s[a + 1] <= 0x7A);
                assert(upper_end(s, a + 1) == a + 1);
                assert(upper_end(s, a) == a + 1);
                lemma_lower_goes_on(s, a + 1, q);
            } else {
                lemma_runs(s, a + 1);
                assert(upper_match(s, a) is Some);
            }
        }
    }
}

/// The Nemotron-3 scheme: the o200k scheme without contraction suffixes and with
/// single-character `\p{N}` tokens.
pub struct NemotronScheme;

/// Fast Nemotron-3 pretokenizer.
pub type FastNemotronPretokenizer<'a> = MaskPretokenizer<'a, NemotronScheme>;

impl MaskScheme for NemotronScheme {
    open spec fn ends(s: Seq<u8>) -> spec_fn(int) -> int {
        |pos: int| nemotron_end(s, pos)
    }

    proof fn lemma_advancing(s: Seq<u8>) {
        let end = Self::ends(s);
        assert forall|p: int| 0 <= p < s.len() implies p < #[trigger] end(p) <= s.len() by {
            lemma_nemotron_progress(s, p);
        }
    }

    fn advance(bytes: &[u8], pos: usize) -> (end: usize) {
        advance_pos(bytes, pos)
    }

    fn batch_masks(bytes: &[u8], scan: usize) -> (r: (u64, u64)) {
        let r: (u64, u64) = word_masks(bytes, scan, true);
        proof {
            let s = bytes@;
            let end = Self::ends(s);
            Self::lemma_advancing(s);
            assert forall|p: int| #[trigger] safe_cut(s, p) implies reaches(
                end,
                s.len() as int,
                0,
                p,
            ) by {
                lemma_valid_utf8_walks(s, p - 1);
                lemma_nemotron_reaches(s, 0, p);
            }
            assert forall|p: int, q: int| #[trigger] word_to(s, p, q, true) implies q < end(p) by {
                lemma_word_held(s, p, q);
                assert(end(p) == nemotron_end(s, p));
            }
            lemma_words_trusted(end, s, scan as int, r, true);
        }
        r
    }
}

} // verus!
