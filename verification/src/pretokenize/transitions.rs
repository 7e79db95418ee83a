//! Counting pretokens by the class changes between adjacent bytes.

use vstd::prelude::*;

use crate::pretokenize::gpt2::{
    after_space, contraction_len, contraction_len_at, last_ws_char, lemma_last_ws_char,
    lemma_pretoken_progress, pretoken_end, pretokens, pretokens_from,
};
use crate::pretokenize::scan::{char_at, class_at, lemma_run_end_bounds, run_end, width_at};
use crate::pretokenize::swar::{
    all_ascii, count_flags, flag, flags_below, lane, lemma_flags, load_word, swar64_letter_mask,
    swar_cmpeq, swar_digit_mask, swar_ws_mask, HI,
};
use crate::pretokenize::unicode::CharClass;

verus! {

/// Where the character that holds the byte at `pos` starts: back over bytes
/// that continue a character.
pub open spec fn char_start(t: Seq<u8>, pos: int) -> int
    decreases pos,
{
    if pos > 0 && 0x80 <= t[pos] < 0xC0 {
        char_start(t, pos - 1)
    } else {
        pos
    }
}

/// Where the character after the one at `i` starts.
spec fn next_char(t: Seq<u8>, i: int) -> int {
    i + width_at(t, i)
}

/// 1 where a pretoken boundary shows behind the character at `i` as a change of
/// class. A space goes to what follows it, unless that is whitespace.
spec fn transition(t: Seq<u8>, i: int) -> int {
    let j = next_char(t, i);
    if j >= t.len() || class_at(t, i) == class_at(t, j) {
        0
    } else if t[i] == 0x20 && class_at(t, j) != CharClass::Whitespace {
        0
    } else {
        1
    }
}

/// 1 where a whitespace run before other text gives its last character away,
/// behind the character at `i`.
spec fn ws_split(t: Seq<u8>, i: int) -> int {
    let j = next_char(t, i);
    let k = next_char(t, j);
    if j < t.len() && k < t.len() && class_at(t, i) == CharClass::Whitespace && class_at(t, j)
        == CharClass::Whitespace && class_at(t, k) != CharClass::Whitespace {
        1
    } else {
        0
    }
}

/// Whether an apostrophe behind the character at `p` starts a pretoken. A
/// negative `p` stands for the front of the text.
spec fn at_boundary(t: Seq<u8>, p: int) -> bool {
    p < 0 || (t[p] != 0x20 && class_at(t, p) != CharClass::Other)
}

/// 1 where a contraction joins its apostrophe at `i`, behind the character at
/// `p`, to its letters, so that the change of class there is no boundary. Where a
/// letter follows the contraction its end is a boundary without a change of
/// class, which makes up for it.
spec fn contraction_join(t: Seq<u8>, p: int, i: int) -> int {
    let n = contraction_len(t, i);
    if n > 0 && at_boundary(t, p) && !(i + n < t.len() && class_at(t, i + n)
        == CharClass::Letter) {
        1
    } else {
        0
    }
}

/// The changes of class from the character at `a` on.
spec fn transitions_from(t: Seq<u8>, a: int) -> int
    decreases t.len() - a,
{
    if a < 0 || a >= t.len() {
        0
    } else {
        transition(t, a) + transitions_from(t, next_char(t, a))
    }
}

/// The whitespace splits from the character at `a` on.
spec fn ws_splits_from(t: Seq<u8>, a: int) -> int
    decreases t.len() - a,
{
    if a < 0 || a >= t.len() {
        0
    } else {
        ws_split(t, a) + ws_splits_from(t, next_char(t, a))
    }
}

/// The contractions that join, from the character at `a` on, which stands behind
/// the one at `p`.
spec fn joins_from(t: Seq<u8>, p: int, a: int) -> int
    decreases t.len() - a,
{
    if a < 0 || a >= t.len() {
        0
    } else {
        contraction_join(t, p, a) + joins_from(t, a, next_char(t, a))
    }
}

/// Where the character that holds the byte at `pos` starts.
pub fn char_start_of(bytes: &[u8], pos: usize) -> (r: usize)
    requires
        pos < bytes@.len(),
    ensures
        r == char_start(bytes@, pos as int),
        r <= pos,
{
    let mut start: usize = pos;
    while start > 0 && 0x80 <= bytes[start] && bytes[start] < 0xC0
        invariant
            start <= pos < bytes@.len(),
            char_start(bytes@, start as int) == char_start(bytes@, pos as int),
        decreases start,
    {
        start = start - 1;
    }
    start
}

/// Scalar transition check for the character at `pos`, of the class and width
/// given. Returns 1 if its end is a token boundary, 0 otherwise.
#[inline(always)]
fn scalar_transition(bytes: &[u8], pos: usize, class: CharClass, width: usize) -> (r: usize)
    requires
        pos < bytes@.len(),
        class == class_at(bytes@, pos as int),
        width == width_at(bytes@, pos as int),
    ensures
        r == transition(bytes@, pos as int),
        r <= 1,
{
    let len: usize = bytes.len();
    if width >= len - pos {
        return 0;
    }
    let (next, _): (CharClass, usize) = char_at(bytes, pos + width);
    if class == next {
        return 0;
    }
    if bytes[pos] == 0x20 && next != CharClass::Whitespace {
        return 0;
    }
    1
}

/// The transitions of eight adjacent pairs of ASCII bytes, flagged in one word.
#[inline(always)]
fn transition_flags(bytes: &[u8], pos: usize, w0: u64, w1: u64) -> (m: u64)
    requires
        pos + 9 <= bytes@.len(),
        w0 & HI == 0,
        w1 & HI == 0,
        forall|k: int|
            0 <= k < 8 ==> #[trigger] lane(w0, k) == bytes@[pos + k] && lane(w0, k) < 0x80,
        forall|k: int|
            0 <= k < 8 ==> #[trigger] lane(w1, k) == bytes@[pos + k + 1] && lane(w1, k) < 0x80,
    ensures
        forall|k: int|
            0 <= k < 8 ==> (#[trigger] flag(m, k) <==> transition(bytes@, pos + k) == 1),
{
    let l0: u64 = swar64_letter_mask(w0);
    let l1: u64 = swar64_letter_mask(w1);
    let d0: u64 = swar_digit_mask(w0);
    let d1: u64 = swar_digit_mask(w1);
    let ws0: u64 = swar_ws_mask(w0);
    let ws1: u64 = swar_ws_mask(w1);
    let o0: u64 = !(l0 | d0 | ws0) & HI;
    let o1: u64 = !(l1 | d1 | ws1) & HI;
    let same: u64 = (l0 & l1) | (d0 & d1) | (ws0 & ws1) | (o0 & o1);
    let transitions: u64 = !same & HI;
    let space0: u64 = swar_cmpeq(w0, 0x20);
    let kept: u64 = !(space0 & (!ws1 & HI)) & HI;
    let m: u64 = transitions & kept;
    proof {
        assert forall|k: int| 0 <= k < 8 implies (#[trigger] flag(m, k) <==> transition(
            bytes@,
            pos + k,
        ) == 1) by {
            lemma_flags(l0, d0, k);
            lemma_flags(l0 | d0, ws0, k);
            lemma_flags(l0 | d0 | ws0, 0, k);
            lemma_flags(l1, d1, k);
            lemma_flags(l1 | d1, ws1, k);
            lemma_flags(l1 | d1 | ws1, 0, k);
            lemma_flags(l0, l1, k);
            lemma_flags(d0, d1, k);
            lemma_flags(ws0, ws1, k);
            lemma_flags(o0, o1, k);
            lemma_flags(l0 & l1, d0 & d1, k);
            lemma_flags((l0 & l1) | (d0 & d1), ws0 & ws1, k);
            lemma_flags((l0 & l1) | (d0 & d1) | (ws0 & ws1), o0 & o1, k);
            lemma_flags(same, 0, k);
            lemma_flags(ws1, 0, k);
            lemma_flags(space0, !ws1 & HI, k);
            lemma_flags(space0 & (!ws1 & HI), 0, k);
            lemma_flags(transitions, kept, k);
            assert(lane(w0, k) == bytes@[pos + k]);
            assert(lane(w1, k) == bytes@[pos + k + 1]);
            assert(next_char(bytes@, pos + k) == pos + k + 1);
        }
    }
    m
}

/// The transitions of single bytes are counted by their flags.
proof fn lemma_sum_flags(t: Seq<u8>, m: u64, pos: int, n: int)
    requires
        0 <= pos,
        0 <= n <= 8,
        pos + 9 <= t.len(),
        forall|k: int| 0 <= k < 8 ==> #[trigger] next_char(t, pos + k) == pos + k + 1,
        forall|k: int|
            0 <= k < 8 ==> transition(t, pos + k) == (if #[trigger] flag(m, k) {
                1int
            } else {
                0
            }),
    ensures
        transitions_from(t, pos) == flags_below(m, n) + transitions_from(t, pos + n),
    decreases n,
{
    if n > 0 {
        lemma_sum_flags(t, m, pos, n - 1);
        assert(next_char(t, pos + (n - 1)) == pos + n);
        assert(transition(t, pos + (n - 1)) == (if flag(m, n - 1) {
            1int
        } else {
            0
        }));
    }
}

proof fn lemma_sum_bounds(t: Seq<u8>, p: int, a: int)
    requires
        0 <= a <= t.len(),
    ensures
        0 <= transitions_from(t, a),
        0 <= ws_splits_from(t, a),
        transitions_from(t, a) + ws_splits_from(t, a) <= if a < t.len() {
            t.len() - a - 1
        } else {
            0
        },
        0 <= joins_from(t, p, a) <= transitions_from(t, a),
    decreases t.len() - a,
{
    if a < t.len() {
        lemma_sum_bounds(t, a, next_char(t, a));
        assert(contraction_join(t, p, a) <= transition(t, a));
    }
}

/// Count tokens using direct SWAR transition detection on raw bytes.
///
/// For each pair of adjacent characters, determines whether they are in the same
/// merged character class (letter, digit, whitespace, other), eight pairs at a
/// time where all are ASCII. Whitespace splits and contractions are put right in
/// a second and a third pass.
pub fn count_swar_transitions(bytes: &[u8], start: usize) -> (n: usize)
    ensures
        n == if start < bytes@.len() {
            pretokens(bytes@.skip(start as int)).len()
        } else {
            0
        },
{
    if start >= bytes.len() {
        return 0;
    }
    let full: usize = bytes.len();
    let bytes: &[u8] = &bytes[start..full];
    let len: usize = bytes.len();
    let ghost t = bytes@;
    proof {
        assert(t =~= bytes@);
        lemma_sum_bounds(t, -1, 0);
        lemma_count_from(t, -1, 0);
    }
    let ghost all = transitions_from(t, 0);
    let mut total: usize = 1;
    let mut pos: usize = 0;
    while pos < len
        invariant
            t == bytes@,
            len == t.len(),
            0 <= pos <= len,
            all == transitions_from(t, 0),
            all <= len - 1,
            total + transitions_from(t, pos as int) == 1 + all,
        decreases len - pos,
    {
        if len - pos >= 9 {
            let w0: u64 = load_word(bytes, pos);
            let w1: u64 = load_word(bytes, pos + 1);
            if all_ascii(w0) && all_ascii(w1) {
                let m: u64 = transition_flags(bytes, pos, w0, w1);
                proof {
                    assert forall|k: int| 0 <= k < 8 implies #[trigger] next_char(t, pos + k) == pos
                        + k + 1 by {
                        assert(lane(w0, k) == bytes@[pos + k] && lane(w0, k) < 0x80);
                    }
                    assert forall|k: int| 0 <= k < 8 implies transition(t, pos + k) == (
                    if #[trigger] flag(m, k) {
                        1int
                    } else {
                        0
                    }) by {}
                    lemma_sum_flags(t, m, pos as int, 8);
                    lemma_sum_bounds(t, -1, pos + 8);
                }
                total = total + count_flags(m);
                pos = pos + 8;
                continue ;
            }
        }
        let (class, width): (CharClass, usize) = char_at(bytes, pos);
        proof {
            lemma_sum_bounds(t, -1, next_char(t, pos as int));
        }
        total = total + scalar_transition(bytes, pos, class, width);
        pos = pos + width;
    }
    // Whitespace runs of two or more characters before other text.
    let ghost splits = ws_splits_from(t, 0);
    let mut i: usize = 0;
    while i < len
        invariant
            t == bytes@,
            len == t.len(),
            0 <= i <= len,
            splits == ws_splits_from(t, 0),
            1 + all + splits <= len,
            total + ws_splits_from(t, i as int) == 1 + all + splits,
        decreases len - i,
    {
        let (class, width): (CharClass, usize) = char_at(bytes, i);
        proof {
            lemma_sum_bounds(t, -1, next_char(t, i as int));
        }
        if class == CharClass::Whitespace && width < len - i {
            let (second, w2): (CharClass, usize) = char_at(bytes, i + width);
            if second == CharClass::Whitespace && w2 < len - i - width {
                let (third, _): (CharClass, usize) = char_at(bytes, i + width + w2);
                if third != CharClass::Whitespace {
                    total = total + 1;
                }
            }
        }
        i = i + width;
    }
    // Contractions at a token boundary.
    let ghost joins = joins_from(t, -1, 0);
    let ghost mut prev: int = -1;
    let mut boundary: bool = true;
    let mut i: usize = 0;
    while i < len
        invariant
            t == bytes@,
            len == t.len(),
            0 <= i <= len,
            boundary == at_boundary(t, prev),
            joins == joins_from(t, -1, 0),
            0 <= joins <= all,
            0 <= splits,
            total == 1 + all + splits - joins + joins_from(t, prev, i as int),
        decreases len - i,
    {
        let (class, width): (CharClass, usize) = char_at(bytes, i);
        let n: usize = contraction_len_at(bytes, i);
        proof {
            lemma_sum_bounds(t, i as int, next_char(t, i as int));
        }
        if n > 0 && boundary {
            let letter: bool = if n < len - i {
                let (after, _): (CharClass, usize) = char_at(bytes, i + n);
                after == CharClass::Letter
            } else {
                false
            };
            if !letter {
                total = total - 1;
            }
        }
        boundary = bytes[i] != 0x20 && class != CharClass::Other;
        proof {
            prev = i as int;
        }
        i = i + width;
    }
    total
}

/// What the characters from `a` on add to the count; the first stands behind the
/// one at `p`.
spec fn added(t: Seq<u8>, p: int, a: int) -> int
    decreases t.len() - a,
{
    if a < 0 || a >= t.len() {
        0
    } else {
        transition(t, a) + ws_split(t, a) - contraction_join(t, p, a) + added(
            t,
            a,
            next_char(t, a),
        )
    }
}

proof fn lemma_added_all(t: Seq<u8>, p: int, a: int)
    requires
        0 <= a <= t.len(),
    ensures
        added(t, p, a) == transitions_from(t, a) + ws_splits_from(t, a)
            - joins_from(t, p, a),
    decreases t.len() - a,
{
    if a < t.len() {
        lemma_added_all(t, a, next_char(t, a));
    }
}

/// An apostrophe at `pos` that starts a pretoken is judged to do so.
spec fn good_start(t: Seq<u8>, p: int, pos: int) -> bool {
    pos < t.len() && t[pos] == 0x27 ==> at_boundary(t, p)
}

/// Whether the characters from `a` up to `end` add `x`, and the last of them is
/// the one at `q`.
spec fn stretch(t: Seq<u8>, p: int, a: int, end: int, q: int, x: int) -> bool {
    &&& a <= q < end <= t.len()
    &&& next_char(t, q) == end
    &&& added(t, p, a) == x + added(t, q, end)
}

/// A run of characters of one class adds 1 where a character follows it.
proof fn lemma_run_adds(t: Seq<u8>, p: int, a: int, class: CharClass) -> (q: int)
    requires
        0 <= a < t.len(),
        class_at(t, a) == class,
        class != CharClass::Whitespace,
        contraction_join(t, p, a) == 0,
    ensures
        stretch(
            t,
            p,
            a,
            run_end(t, a, class),
            q,
            if run_end(t, a, class) < t.len() {
                1
            } else {
                0
            },
        ),
        class_at(t, q) == class,
    decreases t.len() - a,
{
    let next = next_char(t, a);
    assert(run_end(t, a, class) == run_end(t, next, class));
    if next < t.len() && class_at(t, next) == class {
        lemma_run_adds(t, a, next, class)
    } else {
        assert(t[a] != 0x20);
        a
    }
}

/// The characters of a whitespace run before other text, without the last, add 1.
proof fn lemma_ws_adds(t: Seq<u8>, p: int, a: int) -> (q: int)
    requires
        0 <= a < t.len(),
        class_at(t, a) == CharClass::Whitespace,
        run_end(t, a, CharClass::Whitespace) < t.len(),
        last_ws_char(t, a) > a,
    ensures
        stretch(t, p, a, last_ws_char(t, a), q, 1),
    decreases t.len() - a,
{
    let next = next_char(t, a);
    let last = last_ws_char(t, a);
    lemma_last_ws_char(t, a);
    assert(next < t.len() && class_at(t, next) == CharClass::Whitespace);
    assert(run_end(t, a, CharClass::Whitespace) == run_end(t, next, CharClass::Whitespace));
    lemma_last_ws_char(t, next);
    let k = next_char(t, next);
    if k < t.len() && class_at(t, k) == CharClass::Whitespace {
        lemma_last_ws_char(t, k);
        lemma_ws_adds(t, a, next)
    } else {
        assert(last == next);
        assert(run_end(t, next, CharClass::Whitespace) == run_end(t, k, CharClass::Whitespace));
        a
    }
}

/// The characters of a whitespace run at the end of a text add nothing.
proof fn lemma_ws_end_adds(t: Seq<u8>, p: int, a: int) -> (q: int)
    requires
        0 <= a < t.len(),
        class_at(t, a) == CharClass::Whitespace,
        run_end(t, a, CharClass::Whitespace) >= t.len(),
    ensures
        stretch(t, p, a, t.len() as int, q, 0),
    decreases t.len() - a,
{
    let next = next_char(t, a);
    assert(run_end(t, a, CharClass::Whitespace) == run_end(t, next, CharClass::Whitespace));
    if next < t.len() {
        assert(class_at(t, next) == CharClass::Whitespace);
        let k = next_char(t, next);
        assert(run_end(t, next, CharClass::Whitespace) == run_end(t, k, CharClass::Whitespace));
        lemma_ws_end_adds(t, a, next)
    } else {
        a
    }
}

/// The characters of one pretoken add 1 where another follows it, and 0 where
/// not.
proof fn lemma_pretoken_adds(t: Seq<u8>, p: int, pos: int) -> (q: int)
    requires
        0 <= pos < t.len(),
        good_start(t, p, pos),
    ensures
        stretch(
            t,
            p,
            pos,
            pretoken_end(t, pos),
            q,
            if pretoken_end(t, pos) < t.len() {
                1
            } else {
                0
            },
        ),
        good_start(t, q, pretoken_end(t, pos)),
{
    let end = pretoken_end(t, pos);
    let body = after_space(t, pos);
    let class = class_at(t, body);
    let n = contraction_len(t, pos);
    lemma_pretoken_progress(t, pos);
    if n > 0 {
        assert(next_char(t, pos) == pos + 1);
        assert(next_char(t, pos + 1) == pos + 2);
        assert(class_at(t, pos) == CharClass::Other);
        assert(class_at(t, pos + 1) == CharClass::Letter);
        assert(transition(t, pos) == 1 && ws_split(t, pos) == 0);
        assert(contraction_join(t, pos, pos + 1) == 0 && ws_split(t, pos + 1) == 0);
        if n == 3 {
            assert(next_char(t, pos + 2) == pos + 3);
            assert(class_at(t, pos + 2) == CharClass::Letter);
            assert(transition(t, pos + 1) == 0);
            assert(contraction_join(t, pos + 1, pos + 2) == 0 && ws_split(t, pos + 2) == 0);
            assert(added(t, pos + 1, pos + 2) == transition(t, pos + 2) + added(
                t,
                pos + 2,
                pos + 3,
            ));
        }
        assert(added(t, pos, pos + 1) == transition(t, pos + 1) + added(t, pos + 1, pos + 2));
        end - 1
    } else if class != CharClass::Whitespace {
        lemma_run_end_bounds(t, body, class);
        if body > pos {
            assert(next_char(t, pos) == body);
            assert(transition(t, pos) == 0 && ws_split(t, pos) == 0);
            lemma_run_adds(t, pos, body, class)
        } else {
            lemma_run_adds(t, p, pos, class)
        }
    } else {
        assert(class_at(t, pos) == CharClass::Whitespace);
        let stop = run_end(t, pos, CharClass::Whitespace);
        lemma_last_ws_char(t, pos);
        if stop >= t.len() {
            lemma_run_end_bounds(t, pos, CharClass::Whitespace);
            lemma_ws_end_adds(t, p, pos)
        } else if last_ws_char(t, pos) > pos {
            lemma_ws_adds(t, p, pos)
        } else {
            lemma_run_end_bounds(t, next_char(t, pos), CharClass::Whitespace);
            assert(next_char(t, pos) == stop);
            assert(class_at(t, stop) != CharClass::Whitespace);
            assert(transition(t, pos) == 1 && ws_split(t, pos) == 0);
            pos
        }
    }
}

/// The changes of class, whitespace splits and contractions count the pretokens.
proof fn lemma_added_counts(t: Seq<u8>, p: int, pos: int)
    requires
        0 <= pos < t.len(),
        good_start(t, p, pos),
    ensures
        pretokens_from(t, pos).len() == 1 + added(t, p, pos),
    decreases t.len() - pos,
{
    lemma_pretoken_progress(t, pos);
    let q = lemma_pretoken_adds(t, p, pos);
    let end = pretoken_end(t, pos);
    if end < t.len() {
        lemma_added_counts(t, q, end);
    } else {
        assert(pretokens_from(t, end) =~= Seq::empty());
    }
}

proof fn lemma_count_from(t: Seq<u8>, p: int, pos: int)
    requires
        0 <= pos < t.len(),
        p < 0,
    ensures
        pretokens_from(t, pos).len() == 1 + transitions_from(t, pos) + ws_splits_from(t, pos)
            - joins_from(t, p, pos),
{
    lemma_added_counts(t, p, pos);
    lemma_added_all(t, p, pos);
}

} // verus!
