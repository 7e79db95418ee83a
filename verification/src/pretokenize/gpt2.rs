//! The GPT-2 (r50k_base) pretokenization:
//! `'(?:[sdmt]|ll|ve|re)| ?\p{L}+| ?\p{N}+| ?[^\s\p{L}\p{N}]+|\s+(?!\S)|\s+`

use vstd::prelude::*;

use crate::pretokenize::scan::{
    char_at, class_at, is_ascii_ws, is_digit, is_letter, lemma_run_end_bounds, run_end,
    scan_digits_from, scan_letters_from, scan_other_from, width_at,
};
use crate::pretokenize::unicode::CharClass;

verus! {

/// The length of the contraction at `pos` (`'s`, `'d`, `'m`, `'t`, `'ll`,
/// `'ve`, `'re`), or 0.
pub open spec fn contraction_len(s: Seq<u8>, pos: int) -> int {
    if !(0 <= pos && pos + 1 < s.len() && s[pos] == 0x27) {
        0
    } else if s[pos + 1] == 0x73 || s[pos + 1] == 0x64 || s[pos + 1] == 0x6D || s[pos + 1] == 0x74 {
        2
    } else if pos + 2 < s.len() && ((s[pos + 1] == 0x6C && s[pos + 2] == 0x6C) || (s[pos + 1]
        == 0x76 && s[pos + 2] == 0x65) || (s[pos + 1] == 0x72 && s[pos + 2] == 0x65)) {
        3
    } else {
        0
    }
}

/// The start of the last character of the whitespace run that holds the
/// whitespace character at `pos`.
pub open spec fn last_ws_char(s: Seq<u8>, pos: int) -> int
    decreases s.len() - pos,
{
    let next = pos + width_at(s, pos);
    if 0 <= pos < s.len() && next < s.len() && class_at(s, next) == CharClass::Whitespace {
        last_ws_char(s, next)
    } else {
        pos
    }
}

/// The end of a whitespace pretoken at `pos`: `\s+(?!\S)|\s+`. A run of two or
/// more whitespace characters before other text leaves its last one out.
pub open spec fn ws_end(s: Seq<u8>, pos: int) -> int {
    let end = run_end(s, pos, CharClass::Whitespace);
    let last = last_ws_char(s, pos);
    if end < s.len() && last > pos {
        last
    } else {
        end
    }
}

/// Where the optional leading space of a pretoken at `pos` ends.
pub open spec fn after_space(s: Seq<u8>, pos: int) -> int {
    if s[pos] == 0x20 && pos + 1 < s.len() {
        pos + 1
    } else {
        pos
    }
}

/// The end of the pretoken that starts at `pos`: the first alternative of the
/// regex that matches there.
pub open spec fn pretoken_end(s: Seq<u8>, pos: int) -> int {
    let body = after_space(s, pos);
    if contraction_len(s, pos) > 0 {
        pos + contraction_len(s, pos)
    } else if class_at(s, body) != CharClass::Whitespace {
        run_end(s, body, class_at(s, body))
    } else {
        ws_end(s, pos)
    }
}

/// The pretokens from `pos` on.
pub open spec fn pretokens_from(s: Seq<u8>, pos: int) -> Seq<Seq<u8>>
    decreases s.len() - pos,
{
    if 0 <= pos < s.len() && pos < pretoken_end(s, pos) <= s.len() {
        seq![s.subrange(pos, pretoken_end(s, pos))] + pretokens_from(s, pretoken_end(s, pos))
    } else {
        Seq::empty()
    }
}

/// The pretokens of a document.
pub open spec fn pretokens(s: Seq<u8>) -> Seq<Seq<u8>> {
    pretokens_from(s, 0)
}

/// The last character of a whitespace run is whitespace, and ends the run.
pub proof fn lemma_last_ws_char(s: Seq<u8>, pos: int)
    requires
        0 <= pos < s.len(),
        class_at(s, pos) == CharClass::Whitespace,
    ensures
        pos <= last_ws_char(s, pos) < s.len(),
        class_at(s, last_ws_char(s, pos)) == CharClass::Whitespace,
        last_ws_char(s, pos) + width_at(s, last_ws_char(s, pos)) == run_end(
            s,
            pos,
            CharClass::Whitespace,
        ),
    decreases s.len() - pos,
{
    let next = pos + width_at(s, pos);
    if next < s.len() && class_at(s, next) == CharClass::Whitespace {
        lemma_last_ws_char(s, next);
    } else {
        assert(run_end(s, pos, CharClass::Whitespace) == run_end(s, next, CharClass::Whitespace));
    }
}

/// Every pretoken takes at least one byte, and ends within the input.
pub proof fn lemma_pretoken_progress(s: Seq<u8>, pos: int)
    requires
        0 <= pos < s.len(),
    ensures
        pos < pretoken_end(s, pos) <= s.len(),
{
    let body = after_space(s, pos);
    let class = class_at(s, body);
    lemma_run_end_bounds(s, body + width_at(s, body), class);
    if class == CharClass::Whitespace {
        assert(class_at(s, pos) == CharClass::Whitespace);
        lemma_last_ws_char(s, pos);
        lemma_run_end_bounds(s, pos + width_at(s, pos), CharClass::Whitespace);
    }
}

/// Advance through whitespace. `token_start` is where the token began, and the
/// characters up to `scan_pos` are whitespace, `last` the last of them.
#[inline(always)]
fn advance_ws(bytes: &[u8], scan_pos: usize, last: usize, token_start: usize) -> (end: usize)
    requires
        token_start <= last < scan_pos <= bytes@.len(),
        class_at(bytes@, token_start as int) == CharClass::Whitespace,
        class_at(bytes@, last as int) == CharClass::Whitespace,
        scan_pos == last + width_at(bytes@, last as int),
        last_ws_char(bytes@, last as int) == last_ws_char(bytes@, token_start as int),
        run_end(bytes@, last as int, CharClass::Whitespace) == run_end(
            bytes@,
            token_start as int,
            CharClass::Whitespace,
        ),
    ensures
        end == ws_end(bytes@, token_start as int),
{
    let len: usize = bytes.len();
    let mut p: usize = scan_pos;
    let mut last: usize = last;
    while p < len
        invariant
            len == bytes@.len(),
            token_start <= last < p <= len,
            class_at(bytes@, last as int) == CharClass::Whitespace,
            p == last + width_at(bytes@, last as int),
            last_ws_char(bytes@, last as int) == last_ws_char(bytes@, token_start as int),
            run_end(bytes@, p as int, CharClass::Whitespace) == run_end(
                bytes@,
                token_start as int,
                CharClass::Whitespace,
            ),
        ensures
            p <= len,
            last == last_ws_char(bytes@, token_start as int),
            p == run_end(bytes@, token_start as int, CharClass::Whitespace),
        decreases len - p,
    {
        let (c, w): (CharClass, usize) = char_at(bytes, p);
        if c != CharClass::Whitespace {
            break;
        }
        last = p;
        p = p + w;
    }
    if p < len && last > token_start {
        last
    } else {
        p
    }
}

/// Advance past one token starting at `start`; returns the token's end.
#[inline(always)]
pub fn advance_pos(bytes: &[u8], start: usize) -> (end: usize)
    requires
        start < bytes@.len(),
    ensures
        end == pretoken_end(bytes@, start as int),
        start < end <= bytes@.len(),
{
    proof {
        lemma_pretoken_progress(bytes@, start as int);
    }
    let len: usize = bytes.len();
    let b0: u8 = bytes[start];
    if is_letter(b0) {
        return scan_letters_from(bytes, start + 1);
    }
    if b0 == 0x20 {
        if start + 1 < len {
            let b1: u8 = bytes[start + 1];
            if is_letter(b1) {
                return scan_letters_from(bytes, start + 2);
            }
            if is_digit(b1) {
                return scan_digits_from(bytes, start + 2);
            }
            if b1 >= 0x80 {
                let (class, w): (CharClass, usize) = char_at(bytes, start + 1);
                let p: usize = start + 1 + w;
                return match class {
                    CharClass::Letter => scan_letters_from(bytes, p),
                    CharClass::Number => scan_digits_from(bytes, p),
                    CharClass::Whitespace => advance_ws(bytes, p, start + 1, start),
                    CharClass::Other => scan_other_from(bytes, p),
                };
            }
            if is_ascii_ws(b1) {
                return advance_ws(bytes, start + 1, start, start);
            }
            return scan_other_from(bytes, start + 2);
        }
        return start + 1;
    }
    if b0 >= 0x80 {
        let (class, w): (CharClass, usize) = char_at(bytes, start);
        let p: usize = start + w;
        return match class {
            CharClass::Letter => scan_letters_from(bytes, p),
            CharClass::Number => scan_digits_from(bytes, p),
            CharClass::Whitespace => advance_ws(bytes, p, start, start),
            CharClass::Other => scan_other_from(bytes, p),
        };
    }
    if is_digit(b0) {
        return scan_digits_from(bytes, start + 1);
    }
    if b0 == 0x27 {
        let n: usize = contraction_len_at(bytes, start);
        if n > 0 {
            return start + n;
        }
        return scan_other_from(bytes, start + 1);
    }
    if is_ascii_ws(b0) {
        return advance_ws(bytes, start + 1, start, start);
    }
    scan_other_from(bytes, start + 1)
}

/// The length of the contraction at `pos`, or 0.
pub fn contraction_len_at(bytes: &[u8], pos: usize) -> (n: usize)
    requires
        pos < bytes@.len(),
    ensures
        n == contraction_len(bytes@, pos as int),
{
    let left: usize = bytes.len() - pos;
    if left < 2 || bytes[pos] != 0x27 {
        return 0;
    }
    let b1: u8 = bytes[pos + 1];
    if b1 == 0x73 || b1 == 0x64 || b1 == 0x6D || b1 == 0x74 {
        return 2;
    }
    if left < 3 {
        return 0;
    }
    let b2: u8 = bytes[pos + 2];
    if (b1 == 0x6C && b2 == 0x6C) || (b1 == 0x76 && b2 == 0x65) || (b1 == 0x72 && b2 == 0x65) {
        return 3;
    }
    0
}

/// The pretokens from `pos` on are the rest of the document, in order.
proof fn lemma_pretokens_from_partition(s: Seq<u8>, pos: int)
    requires
        0 <= pos <= s.len(),
    ensures
        pretokens_from(s, pos).flatten() == s.subrange(pos, s.len() as int),
        forall|i: int|
            0 <= i < pretokens_from(s, pos).len() ==> (#[trigger] pretokens_from(s, pos)[i]).len() > 0,
    decreases s.len() - pos,
{
    if pos < s.len() {
        lemma_pretoken_progress(s, pos);
        let end = pretoken_end(s, pos);
        let rest = pretokens_from(s, end);
        let all = pretokens_from(s, pos);
        lemma_pretokens_from_partition(s, end);
        assert(all == seq![s.subrange(pos, end)] + rest);
        assert(all.drop_first() =~= rest);
        assert(all.first() == s.subrange(pos, end));
        assert(all.flatten() == all.first() + all.drop_first().flatten());
        assert(s.subrange(pos, end) + s.subrange(end, s.len() as int) =~= s.subrange(
            pos,
            s.len() as int,
        ));
        assert forall|i: int| 0 <= i < all.len() implies (#[trigger] all[i]).len() > 0 by {
            if i > 0 {
                assert(all[i] == rest[i - 1]);
            }
        }
    } else {
        assert(s.subrange(pos, s.len() as int) =~= Seq::empty());
    }
}

/// Pretokens partition the document: none is empty, and one after the other
/// they are the document. This holds of any bytes, valid UTF-8 or not.
pub proof fn lemma_pretokens_partition(s: Seq<u8>)
    ensures
        pretokens(s).flatten() == s,
        forall|i: int| 0 <= i < pretokens(s).len() ==> (#[trigger] pretokens(s)[i]).len() > 0,
{
    lemma_pretokens_from_partition(s, 0);
    assert(s.subrange(0, s.len() as int) =~= s);
}

} // verus!
