//! A pretokenizer for the GPT-2 regex that can also count without collecting.

use vstd::prelude::*;

use crate::pretokenize::cuts::{lemma_run_walks, lemma_walk_join, walks};
use crate::pretokenize::gpt2::{
    advance_pos, after_space, contraction_len, lemma_last_ws_char, lemma_pretoken_progress,
    pretoken_end, pretokens_from,
};
use crate::pretokenize::pretoken::Pretoken;
use crate::pretokenize::scan::{class_at, is_ascii_ws, lead_width, width_at, ws_byte};
use crate::pretokenize::unicode::CharClass;

verus! {

/// Splits a document into pretokens, one at a time.
pub struct FastPretokenizer<'a> {
    bytes: &'a [u8],
    pos: usize,
}

impl<'a> FastPretokenizer<'a> {
    /// The document.
    pub closed spec fn doc(self) -> Seq<u8> {
        self.bytes@
    }

    /// The offset of the next pretoken.
    pub closed spec fn at(self) -> usize {
        self.pos
    }

    /// The pretokens that are left.
    pub open spec fn rest(self) -> Seq<Seq<u8>> {
        pretokens_from(self.doc(), self.at() as int)
    }

    /// Start at the front of `bytes`.
    #[inline]
    pub fn new(bytes: &'a [u8]) -> (r: Self)
        ensures
            r.doc() == bytes@,
            r.at() == 0,
    {
        Self { bytes, pos: 0 }
    }

    /// Advance past one token.
    #[inline(always)]
    pub fn advance(&mut self)
        requires
            old(self).at() < old(self).doc().len(),
        ensures
            final(self).doc() == old(self).doc(),
            final(self).at() == pretoken_end(old(self).doc(), old(self).at() as int),
            old(self).at() < final(self).at() <= old(self).doc().len(),
    {
        self.pos = advance_pos(self.bytes, self.pos);
    }

    /// The next pretoken, `None` at the end of the document.
    #[inline]
    pub fn next(&mut self) -> (r: Option<Pretoken<'a>>)
        ensures
            final(self).doc() == old(self).doc(),
            match r {
                Some(p) => {
                    &&& old(self).at() < old(self).doc().len()
                    &&& final(self).at() == pretoken_end(old(self).doc(), old(self).at() as int)
                    &&& old(self).at() < final(self).at() <= old(self).doc().len()
                    &&& p@ == old(self).doc().subrange(
                        old(self).at() as int,
                        final(self).at() as int,
                    )
                    &&& old(self).rest() == seq![p@] + final(self).rest()
                },
                None => {
                    &&& old(self).at() >= old(self).doc().len()
                    &&& final(self).at() == old(self).at()
                    &&& old(self).rest() == Seq::<Seq<u8>>::empty()
                },
            },
    {
        if self.pos >= self.bytes.len() {
            return None;
        }
        let start: usize = self.pos;
        self.advance();
        Some(Pretoken(&self.bytes[start..self.pos]))
    }

    /// How many pretokens are left.
    pub fn count(self) -> (n: usize)
        ensures
            n == self.rest().len(),
    {
        count_dual_cursor(self.bytes, self.pos)
    }
}

// ---------------------------------------------------------------------------
// Dual-cursor count
// ---------------------------------------------------------------------------

/// Whether no character that starts before `q` can reach past it.
spec fn barrier(s: Seq<u8>, q: int) -> bool {
    forall|j: int| 0 <= j < q && q - 3 <= j ==> j + lead_width(#[trigger] s[j]) <= q
}

/// A walk cannot step over a barrier.
proof fn lemma_barrier_walks(s: Seq<u8>, a: int, q: int)
    requires
        barrier(s, q),
        0 <= a <= q <= s.len(),
    ensures
        walks(s, a, q),
    decreases q - a,
{
    if a < q {
        assert(a + lead_width(s[a]) <= q);
        lemma_barrier_walks(s, a + width_at(s, a), q);
    }
}

/// Whether a pretoken boundary is certain at `q`: a newline that is a character
/// of its own, followed by an ASCII character that is no whitespace.
spec fn line_cut(s: Seq<u8>, q: int) -> bool {
    &&& 0 < q < s.len()
    &&& s[q - 1] == 0x0A
    &&& s[q] < 0x80
    &&& !ws_byte(s[q])
    &&& barrier(s, q - 1)
}

/// No pretoken that starts before a line cut passes it.
proof fn lemma_pretoken_stops_at_line(s: Seq<u8>, pos: int, q: int)
    requires
        line_cut(s, q),
        0 <= pos < q,
    ensures
        pretoken_end(s, pos) <= q,
{
    let body = after_space(s, pos);
    let class = class_at(s, body);
    lemma_barrier_walks(s, pos, q - 1);
    lemma_pretoken_progress(s, pos);
    assert(walks(s, q - 1, q)) by {
        assert(walks(s, q, q));
    }
    lemma_walk_join(s, pos, q - 1, q);
    if contraction_len(s, pos) == 0 {
        if class != CharClass::Whitespace {
            assert(body <= q - 1);
            lemma_barrier_walks(s, body, q - 1);
            lemma_run_walks(s, body, class, q - 1);
        } else {
            assert(class_at(s, pos) == CharClass::Whitespace);
            lemma_run_walks(s, pos, CharClass::Whitespace, q);
            lemma_last_ws_char(s, pos);
        }
    }
}

/// Whether the character at `j`, if one starts there, ends by `q`.
fn ends_by(bytes: &[u8], j: usize, q: usize) -> (r: bool)
    requires
        j < bytes@.len(),
        j < q,
    ensures
        r == (j + lead_width(bytes@[j as int]) <= q),
{
    let b: u8 = bytes[j];
    let w: usize = if b < 0x80 {
        1
    } else if b < 0xE0 {
        2
    } else if b < 0xF0 {
        3
    } else {
        4
    };
    w <= q - j
}

/// Whether `q` is a line cut.
fn is_line_cut(bytes: &[u8], q: usize) -> (r: bool)
    requires
        0 < q < bytes@.len(),
    ensures
        r == line_cut(bytes@, q as int),
{
    bytes[q - 1] == 0x0A && !is_ascii_ws(bytes[q]) && bytes[q] < 0x80 && (q < 2 || ends_by(
        bytes,
        q - 2,
        q - 1,
    )) && (q < 3 || ends_by(bytes, q - 3, q - 1)) && (q < 4 || ends_by(bytes, q - 4, q - 1))
}

/// The first line cut from `a` on and before `b`.
spec fn first_cut(s: Seq<u8>, a: int, b: int) -> Option<int>
    decreases b - a,
{
    if a >= b {
        None
    } else if line_cut(s, a) {
        Some(a)
    } else {
        first_cut(s, a + 1, b)
    }
}

/// The last line cut from `a` on and before `b`.
spec fn last_cut(s: Seq<u8>, a: int, b: int) -> Option<int>
    decreases b - a,
{
    if a >= b {
        None
    } else if line_cut(s, b - 1) {
        Some(b - 1)
    } else {
        last_cut(s, a, b - 1)
    }
}

/// How far behind and before its target a split is searched.
const SPLIT_REACH: usize = 4096;

/// The line cut to split at near `target`: the first behind it within reach, or
/// else the last up to it within reach, past the first byte behind `start`.
spec fn split_near(s: Seq<u8>, start: int, target: int) -> Option<int> {
    let end = if target + SPLIT_REACH + 2 < s.len() {
        target + SPLIT_REACH + 2
    } else {
        s.len() as int
    };
    let low = if target - SPLIT_REACH > start + 2 {
        target - SPLIT_REACH
    } else {
        start + 2
    };
    match first_cut(s, target + 1, end) {
        Some(q) => Some(q),
        None => last_cut(s, low, target + 1),
    }
}

/// Find a safe split point: a position where a newline is followed by a
/// non-whitespace byte. This guarantees a token boundary. The search goes
/// forward from `target`, then backward, and not too far either way.
fn find_split(bytes: &[u8], start: usize, target: usize) -> (r: Option<usize>)
    requires
        start <= target < bytes@.len(),
    ensures
        match r {
            Some(q) => {
                &&& split_near(bytes@, start as int, target as int) == Some(q as int)
                &&& line_cut(bytes@, q as int)
                &&& start < q
            },
            None => split_near(bytes@, start as int, target as int) is None,
        },
{
    let ghost s = bytes@;
    let len: usize = bytes.len();
    let end: usize = if len - target > SPLIT_REACH + 2 {
        target + SPLIT_REACH + 2
    } else {
        len
    };
    let mut i: usize = target + 1;
    while i < end
        invariant
            s == bytes@,
            len == s.len(),
            start <= target,
            end <= len,
            target < i,
            i <= end || i == target + 1,
            end == if target + SPLIT_REACH + 2 < s.len() {
                target + SPLIT_REACH + 2
            } else {
                s.len() as int
            },
            first_cut(s, i as int, end as int) == first_cut(s, target + 1, end as int),
        decreases end - i,
    {
        if is_line_cut(bytes, i) {
            return Some(i);
        }
        i = i + 1;
    }
    let mut i: usize = target;
    let ghost low = if target - SPLIT_REACH > start + 2 {
        target - SPLIT_REACH
    } else {
        start + 2
    };
    while i > start && i - start > 1 && target - i <= SPLIT_REACH
        invariant
            s == bytes@,
            start <= i <= target < s.len(),
            low == if target - SPLIT_REACH > start + 2 {
                target - SPLIT_REACH
            } else {
                start + 2
            },
            first_cut(
                s,
                target + 1,
                if target + SPLIT_REACH + 2 < s.len() {
                    target + SPLIT_REACH + 2
                } else {
                    s.len() as int
                },
            ) is None,
            last_cut(s, low, i + 1) == last_cut(s, low, target + 1),
        decreases i,
    {
        if is_line_cut(bytes, i) {
            return Some(i);
        }
        i = i - 1;
    }
    None
}

/// Count the pretokens from `start` on, over two cursors where the document has
/// a line to split at near its middle.
fn count_dual_cursor(bytes: &[u8], start: usize) -> (n: usize)
    ensures
        n == pretokens_from(bytes@, start as int).len(),
{
    let ghost s = bytes@;
    let len: usize = bytes.len();
    if start >= len {
        return 0;
    }
    let mid: usize = start + (len - start) / 2;
    let split: usize = match find_split(bytes, start, mid) {
        Some(q) => q,
        None => {
            let mut p: usize = start;
            let mut n: usize = 0;
            while p < len
                invariant
                    s == bytes@,
                    len == s.len(),
                    start <= p <= len,
                    n <= p - start,
                    n + pretokens_from(s, p as int).len() == pretokens_from(s, start as int).len(),
                decreases len - p,
            {
                p = advance_pos(bytes, p);
                n = n + 1;
            }
            return n;
        },
    };
    let mut p1: usize = start;
    let mut p2: usize = split;
    let ghost mut c1: int = 0;
    let ghost mut c2: int = 0;
    let mut count: usize = 0;
    while p1 < split && p2 < len
        invariant
            s == bytes@,
            len == s.len(),
            line_cut(s, split as int),
            start <= p1 <= split <= p2 <= len,
            count == c1 + c2,
            0 <= c1 <= p1 - start,
            0 <= c2 <= p2 - split,
            c1 + pretokens_from(s, p1 as int).len() == pretokens_from(s, start as int).len(),
            c2 + pretokens_from(s, p2 as int).len() == pretokens_from(s, split as int).len(),
        decreases len - p1,
    {
        proof {
            lemma_pretoken_stops_at_line(s, p1 as int, split as int);
        }
        p1 = advance_pos(bytes, p1);
        p2 = advance_pos(bytes, p2);
        count = count + 2;
        proof {
            c1 = c1 + 1;
            c2 = c2 + 1;
        }
    }
    while p1 < split
        invariant
            s == bytes@,
            len == s.len(),
            line_cut(s, split as int),
            start <= p1 <= split <= p2 <= len,
            count == c1 + c2,
            0 <= c1 <= p1 - start,
            0 <= c2 <= p2 - split,
            c1 + pretokens_from(s, p1 as int).len() == pretokens_from(s, start as int).len(),
            c2 + pretokens_from(s, p2 as int).len() == pretokens_from(s, split as int).len(),
        decreases split - p1,
    {
        proof {
            lemma_pretoken_stops_at_line(s, p1 as int, split as int);
        }
        p1 = advance_pos(bytes, p1);
        count = count + 1;
        proof {
            c1 = c1 + 1;
        }
    }
    while p2 < len
        invariant
            s == bytes@,
            len == s.len(),
            start <= p1 <= split <= p2 <= len,
            p1 == split,
            count == c1 + c2,
            0 <= c1 <= p1 - start,
            0 <= c2 <= p2 - split,
            c1 + pretokens_from(s, p1 as int).len() == pretokens_from(s, start as int).len(),
            c2 + pretokens_from(s, p2 as int).len() == pretokens_from(s, split as int).len(),
        decreases len - p2,
    {
        p2 = advance_pos(bytes, p2);
        count = count + 1;
        proof {
            c2 = c2 + 1;
        }
    }
    count
}

} // verus!
