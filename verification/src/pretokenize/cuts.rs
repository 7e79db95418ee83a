//! Where a document can be cut without changing its pretokens.

use vstd::prelude::*;
use vstd::utf8::{
    is_continuation_byte, length_of_first_scalar, pop_first_scalar, valid_first_scalar, valid_utf8,
};

use crate::pretokenize::gpt2::{
    after_space, contraction_len, last_ws_char, lemma_last_ws_char, lemma_pretoken_progress,
    pretoken_end, pretokens, pretokens_from,
};
use crate::pretokenize::scan::{
    class_at, digit_byte, lead_width, lemma_run_end_bounds, letter_byte, run_end, width_at,
};
use crate::pretokenize::unicode::CharClass;

verus! {

/// Whether stepping character by character from `a` comes to `b`.
pub open spec fn walks(s: Seq<u8>, a: int, b: int) -> bool
    decreases b - a,
{
    if a == b {
        true
    } else if 0 <= a < s.len() && 0 < width_at(s, a) <= b - a {
        walks(s, a + width_at(s, a), b)
    } else {
        false
    }
}

/// Of two places that a walk comes to, it comes to the second from the first.
pub proof fn lemma_walk_linear(s: Seq<u8>, a: int, e: int, q: int)
    requires
        walks(s, a, e),
        walks(s, a, q),
        e <= q,
    ensures
        walks(s, e, q),
    decreases e - a,
{
    if a < e {
        lemma_walk_linear(s, a + width_at(s, a), e, q);
    }
}

/// A walk is no walk back.
pub proof fn lemma_walk_forward(s: Seq<u8>, a: int, q: int)
    requires
        walks(s, a, q),
    ensures
        a <= q,
    decreases q - a,
{
}

/// Walks join.
pub proof fn lemma_walk_join(s: Seq<u8>, a: int, e: int, q: int)
    requires
        walks(s, a, e),
        walks(s, e, q),
        e <= q,
    ensures
        walks(s, a, q),
    decreases e - a,
{
    if a < e {
        lemma_walk_forward(s, a + width_at(s, a), e);
        lemma_walk_join(s, a + width_at(s, a), e, q);
    }
}

/// A run is walked, and does not pass a character of another class.
pub proof fn lemma_run_walks(s: Seq<u8>, pos: int, class: CharClass, q: int)
    requires
        0 <= pos <= s.len(),
        walks(s, pos, q),
        q < s.len(),
        class_at(s, q) != class,
    ensures
        walks(s, pos, run_end(s, pos, class)),
        run_end(s, pos, class) <= q,
    decreases q - pos,
{
    lemma_walk_forward(s, pos, q);
    if pos < q && class_at(s, pos) == class {
        lemma_walk_forward(s, pos + width_at(s, pos), q);
        lemma_run_walks(s, pos + width_at(s, pos), class, q);
        lemma_run_end_bounds(s, pos + width_at(s, pos), class);
    }
}

/// The last character of a whitespace run is on the walk through the run.
pub proof fn lemma_last_ws_walks(s: Seq<u8>, pos: int)
    requires
        0 <= pos < s.len(),
        class_at(s, pos) == CharClass::Whitespace,
    ensures
        walks(s, pos, last_ws_char(s, pos)),
    decreases s.len() - pos,
{
    let next = pos + width_at(s, pos);
    if next < s.len() && class_at(s, next) == CharClass::Whitespace {
        lemma_last_ws_walks(s, next);
        lemma_last_ws_char(s, next);
    }
}

/// Whether a pretoken boundary is certain at `p`: `p` holds a space that is
/// preceded by an ASCII alphanumeric and followed by an ASCII letter.
pub open spec fn safe_cut(s: Seq<u8>, p: int) -> bool {
    &&& 0 < p
    &&& p + 1 < s.len()
    &&& s[p] == 0x20
    &&& letter_byte(s[p - 1]) || digit_byte(s[p - 1])
    &&& letter_byte(s[p + 1])
}

/// Whether a word ends at `p`: `p` holds a space that is preceded by an ASCII
/// alphanumeric.
pub open spec fn word_end(s: Seq<u8>, p: int) -> bool {
    &&& 0 < p < s.len()
    &&& s[p] == 0x20
    &&& letter_byte(s[p - 1]) || digit_byte(s[p - 1])
}

/// No pretoken that starts before the end of a word passes it.
pub proof fn lemma_pretoken_stops_at_cut(s: Seq<u8>, pos: int, p: int)
    requires
        word_end(s, p),
        0 <= pos < p,
        walks(s, pos, p - 1),
    ensures
        pos < pretoken_end(s, pos) <= p,
        pretoken_end(s, pos) < p ==> walks(s, pretoken_end(s, pos), p - 1),
{
    let body = after_space(s, pos);
    let class = class_at(s, body);
    let end = pretoken_end(s, pos);
    lemma_pretoken_progress(s, pos);
    assert(walks(s, p - 1, p)) by {
        assert(walks(s, p, p));
    }
    lemma_walk_join(s, pos, p - 1, p);
    if contraction_len(s, pos) > 0 {
        assert(end <= p);
        assert(walks(s, pos, end)) by {
            reveal_with_fuel(walks, 4);
        }
    } else if class != CharClass::Whitespace {
        if body == pos + 1 {
            assert(pos != p - 1);
            assert(walks(s, pos, body)) by {
                reveal_with_fuel(walks, 2);
            }
            lemma_walk_linear(s, pos, body, p);
        }
        lemma_run_walks(s, body, class, p);
        if body == pos + 1 {
            lemma_run_end_bounds(s, body, class);
            lemma_walk_join(s, pos, body, end);
        }
    } else {
        assert(class_at(s, pos) == CharClass::Whitespace);
        lemma_run_walks(s, pos, CharClass::Whitespace, p - 1);
        lemma_last_ws_walks(s, pos);
        lemma_last_ws_char(s, pos);
    }
    if end < p {
        lemma_walk_linear(s, pos, end, p - 1);
    }
}

/// Characters before the end of a prefix are the same in the prefix.
proof fn lemma_prefix_char(s: Seq<u8>, p: int, pos: int)
    requires
        0 <= pos < p < s.len(),
        pos + width_at(s, pos) <= p,
    ensures
        class_at(s.take(p), pos) == class_at(s, pos),
        width_at(s.take(p), pos) == width_at(s, pos),
{
}

/// Runs that end within a prefix are the same in the prefix.
proof fn lemma_prefix_run(s: Seq<u8>, p: int, pos: int, class: CharClass)
    requires
        0 <= pos <= p < s.len(),
        walks(s, pos, p),
        run_end(s, pos, class) <= p,
    ensures
        run_end(s.take(p), pos, class) == run_end(s, pos, class),
    decreases p - pos,
{
    if pos < p {
        lemma_walk_forward(s, pos + width_at(s, pos), p);
        lemma_prefix_char(s, p, pos);
        if class_at(s, pos) == class {
            lemma_prefix_run(s, p, pos + width_at(s, pos), class);
        }
    } else {
        lemma_run_end_bounds(s, pos, class);
    }
}

proof fn lemma_prefix_last_ws(s: Seq<u8>, p: int, pos: int)
    requires
        0 <= pos < p < s.len(),
        walks(s, pos, p),
        class_at(s, pos) == CharClass::Whitespace,
        run_end(s, pos, CharClass::Whitespace) < p,
    ensures
        last_ws_char(s.take(p), pos) == last_ws_char(s, pos),
    decreases p - pos,
{
    let next = pos + width_at(s, pos);
    lemma_walk_forward(s, next, p);
    lemma_prefix_char(s, p, pos);
    lemma_run_end_bounds(s, next, CharClass::Whitespace);
    if next < p {
        assert(walks(s, next, p));
        lemma_walk_forward(s, next + width_at(s, next), p);
        lemma_prefix_char(s, p, next);
        if class_at(s, next) == CharClass::Whitespace {
            lemma_prefix_last_ws(s, p, next);
        }
    }
}

/// A pretoken before the end of a word is the same where the document ends there.
pub proof fn lemma_prefix_pretoken(s: Seq<u8>, p: int, pos: int)
    requires
        word_end(s, p),
        0 <= pos < p,
        walks(s, pos, p - 1),
    ensures
        pretoken_end(s.take(p), pos) == pretoken_end(s, pos),
{
    let t = s.take(p);
    let body = after_space(s, pos);
    let class = class_at(s, body);
    lemma_pretoken_stops_at_cut(s, pos, p);
    assert(walks(s, p - 1, p)) by {
        assert(walks(s, p, p));
    }
    lemma_walk_join(s, pos, p - 1, p);
    assert(contraction_len(t, pos) == contraction_len(s, pos));
    assert(after_space(t, pos) == body);
    assert(walks(s, pos, body)) by {
        reveal_with_fuel(walks, 2);
    }
    lemma_walk_linear(s, pos, body, p);
    lemma_walk_linear(s, pos, body, p - 1);
    lemma_walk_forward(s, body + width_at(s, body), p);
    lemma_prefix_char(s, p, body);
    if contraction_len(s, pos) == 0 {
        if class != CharClass::Whitespace {
            lemma_run_walks(s, body, class, p);
            lemma_prefix_run(s, p, body, class);
        } else {
            assert(class_at(s, pos) == CharClass::Whitespace);
            lemma_run_walks(s, pos, CharClass::Whitespace, p - 1);
            lemma_prefix_run(s, p, pos, CharClass::Whitespace);
            lemma_prefix_last_ws(s, p, pos);
        }
    }
}

/// Where a run ends depends on nothing before its start.
pub proof fn lemma_suffix_run(s: Seq<u8>, p: int, k: int, class: CharClass)
    requires
        0 <= p <= s.len(),
        0 <= k <= s.len() - p,
    ensures
        p + run_end(s.skip(p), k, class) == run_end(s, p + k, class),
    decreases s.len() - p - k,
{
    let u = s.skip(p);
    if k < u.len() {
        assert(class_at(u, k) == class_at(s, p + k));
        assert(width_at(u, k) == width_at(s, p + k));
        if class_at(u, k) == class {
            lemma_suffix_run(s, p, k + width_at(u, k), class);
        }
    }
}

/// Which white space of a run is its last depends on nothing before its start.
pub proof fn lemma_suffix_last_ws(s: Seq<u8>, p: int, k: int)
    requires
        0 <= p <= s.len(),
        0 <= k < s.len() - p,
    ensures
        p + last_ws_char(s.skip(p), k) == last_ws_char(s, p + k),
    decreases s.len() - p - k,
{
    let u = s.skip(p);
    let next = k + width_at(u, k);
    assert(width_at(u, k) == width_at(s, p + k));
    if next < u.len() {
        assert(class_at(u, next) == class_at(s, p + next));
        if class_at(u, next) == CharClass::Whitespace {
            lemma_suffix_last_ws(s, p, next);
        }
    }
}

/// Pretokens look at nothing before their start.
pub proof fn lemma_suffix_pretoken(s: Seq<u8>, p: int, k: int)
    requires
        0 <= p <= s.len(),
        0 <= k < s.len() - p,
    ensures
        p + pretoken_end(s.skip(p), k) == pretoken_end(s, p + k),
{
    let u = s.skip(p);
    let body = after_space(u, k);
    assert(contraction_len(u, k) == contraction_len(s, p + k));
    assert(after_space(s, p + k) == p + body);
    assert(class_at(u, body) == class_at(s, p + body));
    lemma_suffix_run(s, p, body, class_at(u, body));
    lemma_suffix_run(s, p, k, CharClass::Whitespace);
    lemma_suffix_last_ws(s, p, k);
}

/// The pretokens of a document from `p` on are those of the document that
/// starts at `p`.
pub proof fn lemma_suffix_pretokens(s: Seq<u8>, p: int, k: int)
    requires
        0 <= p <= s.len(),
        0 <= k <= s.len() - p,
    ensures
        pretokens_from(s.skip(p), k) == pretokens_from(s, p + k),
    decreases s.len() - p - k,
{
    let u = s.skip(p);
    if k < u.len() {
        lemma_pretoken_progress(u, k);
        lemma_suffix_pretoken(s, p, k);
        let end = pretoken_end(u, k);
        lemma_suffix_pretokens(s, p, end);
        assert(u.subrange(k, end) =~= s.subrange(p + k, p + end));
    }
}

proof fn lemma_prefix_pretokens(s: Seq<u8>, p: int, pos: int)
    requires
        word_end(s, p),
        0 <= pos <= p,
        pos == p || walks(s, pos, p - 1),
    ensures
        pretokens_from(s, pos) == pretokens_from(s.take(p), pos) + pretokens_from(s, p),
    decreases p - pos,
{
    let t = s.take(p);
    if pos == p {
        assert(pretokens_from(t, p) =~= Seq::empty());
        assert(pretokens_from(s, p) =~= pretokens_from(t, p) + pretokens_from(s, p));
    } else {
        lemma_walk_forward(s, pos, p - 1);
        lemma_pretoken_stops_at_cut(s, pos, p);
        lemma_prefix_pretoken(s, p, pos);
        let end = pretoken_end(s, pos);
        lemma_prefix_pretokens(s, p, end);
        assert(t.subrange(pos, end) =~= s.subrange(pos, end));
        assert(pretokens_from(s, pos) =~= pretokens_from(t, pos) + pretokens_from(s, p));
    }
}

/// Cutting a document at the end of a word changes none of its pretokens: those
/// of the two parts, one after the other, are those of the whole.
pub proof fn lemma_word_end(s: Seq<u8>, p: int)
    requires
        word_end(s, p),
        walks(s, 0, p - 1),
    ensures
        pretokens(s) == pretokens(s.take(p)) + pretokens(s.skip(p)),
{
    lemma_prefix_pretokens(s, p, 0);
    lemma_suffix_pretokens(s, p, 0);
}

/// Cutting a document at a safe cut changes none of its pretokens: those of
/// the two parts, one after the other, are those of the whole.
pub proof fn lemma_safe_cut(s: Seq<u8>, p: int)
    requires
        safe_cut(s, p),
        walks(s, 0, p - 1),
    ensures
        pretokens(s) == pretokens(s.take(p)) + pretokens(s.skip(p)),
{
    lemma_prefix_pretokens(s, p, 0);
    lemma_suffix_pretokens(s, p, 0);
}

/// In valid UTF-8, walking from the front comes to every byte that continues no
/// character.
pub proof fn lemma_valid_utf8_walks(s: Seq<u8>, q: int)
    requires
        valid_utf8(s),
        0 <= q < s.len(),
        q == 0 || !is_continuation_byte(s[q]),
    ensures
        walks(s, 0, q),
{
    assert(s.skip(0) =~= s);
    lemma_valid_utf8_walks_from(s, 0, q);
}

proof fn lemma_valid_utf8_walks_from(s: Seq<u8>, a: int, q: int)
    requires
        0 <= a <= q < s.len(),
        valid_utf8(s.skip(a)),
        a == q || !is_continuation_byte(s[q]),
    ensures
        walks(s, a, q),
    decreases q - a,
{
    if a < q {
        let u = s.skip(a);
        assert(valid_first_scalar(u));
        let n = length_of_first_scalar(u);
        assert(u[0] == s[a]);
        assert(n == lead_width(s[a]));
        assert(n == width_at(s, a));
        assert(pop_first_scalar(u) =~= s.skip(a + n));
        assert(a + n <= q) by {
            if q < a + n {
                assert(u[q - a] == s[q]);
                assert(is_continuation_byte(u[q - a]));
            }
        }
        lemma_valid_utf8_walks_from(s, a + n, q);
    }
}

/// Cutting valid UTF-8 at a safe cut changes none of its pretokens.
pub proof fn lemma_safe_cut_utf8(s: Seq<u8>, p: int)
    requires
        safe_cut(s, p),
        valid_utf8(s),
    ensures
        pretokens(s) == pretokens(s.take(p)) + pretokens(s.skip(p)),
{
    lemma_valid_utf8_walks(s, p - 1);
    lemma_safe_cut(s, p);
}

proof fn lemma_suffix_walks(s: Seq<u8>, p: int, a: int, b: int)
    requires
        0 <= p <= s.len(),
        0 <= a,
        walks(s, p + a, p + b),
    ensures
        walks(s.skip(p), a, b),
    decreases b - a,
{
    if a < b {
        let u = s.skip(p);
        assert(width_at(u, a) == width_at(s, p + a));
        lemma_suffix_walks(s, p, a + width_at(u, a), b);
    }
}

/// In valid UTF-8, walking from one cut comes to just before the next.
pub proof fn lemma_walks_between_cuts(s: Seq<u8>, start: int, p: int)
    requires
        valid_utf8(s),
        start == 0 || safe_cut(s, start),
        0 <= start < p,
        safe_cut(s, p),
    ensures
        walks(s.skip(start), 0, p - 1 - start),
{
    lemma_valid_utf8_walks(s, p - 1);
    lemma_valid_utf8_walks(s, start);
    lemma_walk_linear(s, 0, start, p - 1);
    lemma_suffix_walks(s, start, 0, p - 1 - start);
}

} // verus!
