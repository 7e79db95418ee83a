//! Building blocks of mask-scanner pretokenizers: batches of 64 bytes, each byte
//! predicate as one 64-bit mask.

use vstd::prelude::*;

use crate::pretokenize::bits::{
    bit, lemma_bit_one, lemma_bit_ops, lemma_bit_shl, lemma_bit_shr, lemma_bit_span, lemma_nonzero,
    lowest_bit,
};
use crate::pretokenize::scan::{
    ascii_class, ascii_class_of, class_at, cp_at, decode_cp, digit_byte, is_ascii_ws, is_digit,
    is_letter, lead_width, letter_byte, width_at,
};
use crate::pretokenize::transitions::{char_start, char_start_of};
use crate::pretokenize::unicode::{
    class_of, class_of_marks_join, cp_class, cp_class_marks_join, CharClass,
};

verus! {

/// One mask (bit i = byte scan+i) per byte predicate, for 64 bytes.
#[derive(Clone, Copy)]
pub struct AsciiMasks {
    /// ASCII letters.
    pub l: u64,
    /// ASCII digits.
    pub d: u64,
    /// Space (0x20) only.
    pub s: u64,
    /// Non-newline ASCII whitespace: \t, \x0b, \x0c.
    pub wt: u64,
    /// Newlines: \r, \n.
    pub n: u64,
    /// Non-ASCII bytes (>= 0x80).
    pub hi: u64,
    /// ASCII apostrophes.
    pub ap: u64,
}

/// Whether the bits of masks say what byte `b` is.
pub open spec fn masks_say(m: AsciiMasks, k: int, b: u8) -> bool {
    &&& bit(m.l, k) == letter_byte(b)
    &&& bit(m.d, k) == digit_byte(b)
    &&& bit(m.s, k) == (b == 0x20)
    &&& bit(m.wt, k) == (b == 9 || b == 11 || b == 12)
    &&& bit(m.n, k) == (b == 10 || b == 13)
    &&& bit(m.hi, k) == (b >= 0x80)
    &&& bit(m.ap, k) == (b == 0x27)
}

/// Whether no mask has bit `k` set.
pub open spec fn no_bits(m: AsciiMasks, k: int) -> bool {
    &&& !bit(m.l, k)
    &&& !bit(m.d, k)
    &&& !bit(m.s, k)
    &&& !bit(m.wt, k)
    &&& !bit(m.n, k)
    &&& !bit(m.hi, k)
    &&& !bit(m.ap, k)
}

/// A mask with bit `i` set where `on`.
fn with_bit(m: u64, i: u64, on: bool) -> (r: u64)
    requires
        i < 64,
        !bit(m, i as int),
    ensures
        forall|k: int|
            0 <= k < 64 ==> #[trigger] bit(r, k) == if k == i {
                on
            } else {
                bit(m, k)
            },
{
    proof {
        assert forall|k: int| 0 <= k < 64 implies #[trigger] bit(m | (1u64 << i), k) == (bit(m, k)
            || k == i) by {
            lemma_bit_ops(m, 1u64 << i, k);
            lemma_bit_one(i, k);
        }
    }
    if on {
        m | (1u64 << i)
    } else {
        m
    }
}

/// Classify `bytes[scan..scan+64]`.
pub fn ascii_masks(bytes: &[u8], scan: usize) -> (m: AsciiMasks)
    requires
        scan + 64 <= bytes@.len(),
    ensures
        forall|k: int| 0 <= k < 64 ==> masks_say(m, k, #[trigger] bytes@[scan + k]),
{
    let mut m = AsciiMasks { l: 0, d: 0, s: 0, wt: 0, n: 0, hi: 0, ap: 0 };
    proof {
        assert forall|k: int| 0 <= k < 64 implies !#[trigger] bit(0, k) by {
            lemma_bit_one(0, k);
        }
    }
    let len: usize = bytes.len();
    for i in 0..64usize
        invariant
            len == bytes@.len(),
            scan + 64 <= len,
            forall|k: int| 0 <= k < i ==> masks_say(m, k, #[trigger] bytes@[scan + k]),
            forall|k: int| i <= k < 64 ==> #[trigger] no_bits(m, k),
    {
        let b: u8 = bytes[scan + i];
        let j: u64 = i as u64;
        assert(no_bits(m, i as int));
        let ghost before = m;
        m = AsciiMasks {
            l: with_bit(m.l, j, is_letter(b)),
            d: with_bit(m.d, j, is_digit(b)),
            s: with_bit(m.s, j, b == 0x20),
            wt: with_bit(m.wt, j, b == 9 || b == 11 || b == 12),
            n: with_bit(m.n, j, b == 10 || b == 13),
            hi: with_bit(m.hi, j, b >= 0x80),
            ap: with_bit(m.ap, j, b == 0x27),
        };
        proof {
            assert forall|k: int| 0 <= k < i + 1 implies masks_say(
                m,
                k,
                #[trigger] bytes@[scan + k],
            ) by {
                if k < i {
                    assert(masks_say(before, k, bytes@[scan + k]));
                }
                assert(bit(m.l, k) == if k == i {
                    letter_byte(b)
                } else {
                    bit(before.l, k)
                });
            }
            assert forall|k: int| i + 1 <= k < 64 implies #[trigger] no_bits(m, k) by {
                assert(no_bits(before, k));
            }
        }
    }
    m
}

/// Is the character starting at `idx` not whitespace (`\S` for a `(?!\S)`
/// lookahead)?
pub fn nn_at_full(bytes: &[u8], idx: usize) -> (r: bool)
    requires
        idx < bytes@.len(),
    ensures
        r == (class_at(bytes@, idx as int) != CharClass::Whitespace),
{
    let b: u8 = bytes[idx];
    if b < 0x80 {
        return !is_ascii_ws(b);
    }
    let (cp, _): (u32, usize) = decode_cp(bytes, idx);
    class_of(cp) != CharClass::Whitespace
}

/// The class of the character at `pos` in a scheme's view: with marks joined to
/// letters or not.
pub open spec fn view_class(s: Seq<u8>, pos: int, marks_join: bool) -> CharClass {
    if s[pos] < 0x80 {
        ascii_class(s[pos])
    } else if pos + lead_width(s[pos]) > s.len() {
        CharClass::Other
    } else if marks_join {
        cp_class_marks_join(cp_at(s, pos))
    } else {
        cp_class(cp_at(s, pos))
    }
}

/// The class in a scheme's view, and the width, of the character at `pos`.
pub fn view_class_at(bytes: &[u8], pos: usize, marks_join: bool) -> (r: (CharClass, usize))
    requires
        pos < bytes@.len(),
    ensures
        r.0 == view_class(bytes@, pos as int, marks_join),
        r.1 == width_at(bytes@, pos as int),
        1 <= r.1 <= bytes@.len() - pos,
{
    let b: u8 = bytes[pos];
    if b < 0x80 {
        return (ascii_class_of(b), 1);
    }
    let (cp, w): (u32, usize) = decode_cp(bytes, pos);
    if marks_join {
        (class_of_marks_join(cp), w)
    } else {
        (class_of(cp), w)
    }
}

/// The character that holds byte `pos - 1`: its class, where it starts, and where
/// it ends. It straddles `pos` where it ends behind it.
pub fn char_through(bytes: &[u8], pos: usize, marks_join: bool) -> (r: (CharClass, usize, usize))
    requires
        0 < pos <= bytes@.len(),
    ensures
        r.1 == char_start(bytes@, pos - 1),
        r.0 == view_class(bytes@, r.1 as int, marks_join),
        r.2 == r.1 + width_at(bytes@, r.1 as int),
{
    let b: u8 = bytes[pos - 1];
    if b < 0x80 {
        return (ascii_class_of(b), pos - 1, pos);
    }
    let j: usize = char_start_of(bytes, pos - 1);
    let (class, w): (CharClass, usize) = view_class_at(bytes, j, marks_join);
    (class, j, j + w)
}

/// Per-byte class masks for a batch's unicode characters. Every byte of a
/// classified character carries the character's class.
#[derive(Clone, Copy, PartialEq, Eq, Structural)]
pub struct UniClasses {
    /// Letter / number / other / whitespace bytes.
    pub l: u64,
    pub n: u64,
    pub o: u64,
    pub ws: u64,
    /// Whitespace lead bits by character length, without those in `resid`.
    pub w2: u64,
    pub w3: u64,
    /// Lead bits of all classified characters by length.
    pub lead2: u64,
    pub lead3: u64,
    pub lead4: u64,
    /// Continuation bytes of classified characters.
    pub cont: u64,
    /// Bytes only the scalar path can decide: whitespace characters straddling
    /// the batch end, number characters where numbers are not classified, and
    /// stray continuation bytes.
    pub resid: u64,
}

/// The bits of a batch that are looked at: from `i` on each set bit, but those
/// that a character before it covers.
pub open spec fn visits(s: Seq<u8>, scan: int, m: u64, i: int) -> Seq<int>
    decreases
            if i < 64 {
                64 - i
            } else {
                0
            },
{
    if i < 0 || i >= 64 {
        Seq::empty()
    } else if !bit(m, i) {
        visits(s, scan, m, i + 1)
    } else if s[scan + i] < 0xC2 {
        seq![i] + visits(s, scan, m, i + 1)
    } else {
        seq![i] + visits(s, scan, m, i + lead_width(s[scan + i]))
    }
}

/// The union of what each of some bits adds to a mask.
pub open spec fn union_of(v: Seq<int>, f: spec_fn(int) -> u64) -> u64
    decreases v.len(),
{
    if v.len() == 0 {
        0
    } else {
        union_of(v.drop_last(), f) | f(v.last())
    }
}

/// The bytes of the character at bit `i` that are in the batch.
pub open spec fn char_span(s: Seq<u8>, scan: int, i: int) -> u64 {
    (((1u64 << (lead_width(s[scan + i]) as u64)) - 1) as u64) << (i as u64)
}

/// How the unicode characters of a batch are classified.
pub struct UniView {
    pub numbers: bool,
    pub leads: bool,
    pub marks_join: bool,
}

impl UniView {
    /// Whether the bit is that of a stray continuation byte.
    pub open spec fn stray(self, s: Seq<u8>, scan: int, i: int) -> bool {
        s[scan + i] < 0xC2
    }

    /// What a bit adds to the mask of a class.
    pub open spec fn of_class(self, s: Seq<u8>, scan: int, class: CharClass) -> spec_fn(
        int,
    ) -> u64 {
        |i: int|
            if !self.stray(s, scan, i) && view_class(s, scan + i, self.marks_join) == class {
                char_span(s, scan, i)
            } else {
                0
            }
    }

    /// Whether a whitespace character is left to the scalar path.
    pub open spec fn late_ws(self, s: Seq<u8>, scan: int, i: int) -> bool {
        i + lead_width(s[scan + i]) > 64 || lead_width(s[scan + i]) == 4
    }

    /// What a bit adds to the whitespace leads of a length.
    pub open spec fn ws_lead(self, s: Seq<u8>, scan: int, n: int) -> spec_fn(int) -> u64 {
        |i: int|
            if !self.stray(s, scan, i) && view_class(s, scan + i, self.marks_join)
                == CharClass::Whitespace && !self.late_ws(s, scan, i) && lead_width(s[scan + i])
                == n {
                1u64 << (i as u64)
            } else {
                0
            }
    }

    /// What a bit adds to the leads of a length.
    pub open spec fn lead(self, s: Seq<u8>, scan: int, n: int) -> spec_fn(int) -> u64 {
        |i: int|
            if self.leads && !self.stray(s, scan, i) && lead_width(s[scan + i]) == n {
                1u64 << (i as u64)
            } else {
                0
            }
    }

    /// What a bit adds to the continuation bytes.
    pub open spec fn conts(self, s: Seq<u8>, scan: int) -> spec_fn(int) -> u64 {
        |i: int|
            if !self.stray(s, scan, i) {
                char_span(s, scan, i) & !(1u64 << (i as u64))
            } else {
                0
            }
    }

    /// What a bit adds to what is left to the scalar path.
    pub open spec fn left(self, s: Seq<u8>, scan: int) -> spec_fn(int) -> u64 {
        |i: int|
            {
                let class = view_class(s, scan + i, self.marks_join);
                if self.stray(s, scan, i) {
                    1u64 << (i as u64)
                } else if class == CharClass::Number && !self.numbers {
                    char_span(s, scan, i)
                } else if class == CharClass::Whitespace && self.late_ws(s, scan, i) {
                    char_span(s, scan, i)
                } else {
                    0
                }
            }
    }

    /// The masks of some bits.
    pub open spec fn classes(self, s: Seq<u8>, scan: int, v: Seq<int>) -> UniClasses {
        UniClasses {
            l: union_of(v, self.of_class(s, scan, CharClass::Letter)),
            n: union_of(v, self.of_class(s, scan, CharClass::Number)),
            o: union_of(v, self.of_class(s, scan, CharClass::Other)),
            ws: union_of(v, self.of_class(s, scan, CharClass::Whitespace)),
            w2: union_of(v, self.ws_lead(s, scan, 2)),
            w3: union_of(v, self.ws_lead(s, scan, 3)),
            lead2: union_of(v, self.lead(s, scan, 2)),
            lead3: union_of(v, self.lead(s, scan, 3)),
            lead4: union_of(v, self.lead(s, scan, 4)),
            cont: union_of(v, self.conts(s, scan)),
            resid: union_of(v, self.left(s, scan)),
        }
    }
}

/// Bits that are not set are not looked at.
proof fn lemma_visits_skip(s: Seq<u8>, scan: int, m: u64, i: int, j: int)
    requires
        0 <= i <= j <= 64,
        forall|k: int| i <= k < j ==> !#[trigger] bit(m, k),
    ensures
        visits(s, scan, m, i) == visits(s, scan, m, j),
    decreases j - i,
{
    if i < j {
        assert(!bit(m, i));
        lemma_visits_skip(s, scan, m, i + 1, j);
    }
}

/// Classify every unicode character whose lead bit is in `m` for
/// `bytes[scan..scan+64]`. A character spilling off the batch end has class bits
/// for its in-batch bytes only.
pub fn classify_uni_chars(bytes: &[u8], scan: usize, m: u64, view: &UniView) -> (u: UniClasses)
    requires
        scan + 64 <= bytes@.len(),
    ensures
        u == view.classes(bytes@, scan as int, visits(bytes@, scan as int, m, 0)),
{
    let ghost s = bytes@;
    let ghost at = scan as int;
    let ghost want = visits(s, at, m, 0);
    let len: usize = bytes.len();
    let mut u = UniClasses {
        l: 0,
        n: 0,
        o: 0,
        ws: 0,
        w2: 0,
        w3: 0,
        lead2: 0,
        lead3: 0,
        lead4: 0,
        cont: 0,
        resid: 0,
    };
    let mut rest: u64 = m;
    let ghost mut next: int = 0;
    let ghost mut done: Seq<int> = Seq::empty();
    proof {
        assert(done + want =~= want);
        assert(u == view.classes(s, at, done));
    }
    while rest != 0
        invariant
            s == bytes@,
            at == scan,
            len == s.len(),
            scan + 64 <= len,
            0 <= next <= 64,
            forall|k: int| 0 <= k < 64 ==> (#[trigger] bit(rest, k) <==> k >= next && bit(m, k)),
            done + visits(s, at, m, next) == want,
            u == view.classes(s, at, done),
        decreases 64 - next,
    {
        let i: u32 = lowest_bit(rest);
        let b: u8 = bytes[scan + i as usize];
        let lead: u64 = 1u64 << i;
        let ghost before = u;
        proof {
            assert(bit(rest, i as int));
            assert forall|k: int| next <= k < i implies !#[trigger] bit(m, k) by {
                assert(!bit(rest, k));
            }
            lemma_visits_skip(s, at, m, next, i as int);
        }
        if b < 0xC2 {
            u.resid = u.resid | lead;
            let ghost prior = rest;
            rest = rest & !lead;
            proof {
                lemma_step(*view, s, at, done, i as int, before, u);
                lemma_cleared(m, prior, rest, 1, i as int, next);
                done = done.push(i as int);
                next = i + 1;
                let tail = visits(s, at, m, i + 1);
                assert(done + tail =~= done.drop_last() + (seq![i as int] + tail));
            }
        } else {
            let l: u64 = if b < 0xE0 {
                2
            } else if b < 0xF0 {
                3
            } else {
                4
            };
            proof {
                lemma_bit_span(l, i as u64, 0);
            }
            let span: u64 = ((1u64 << l) - 1) << i;
            let (class, _): (CharClass, usize) = view_class_at(
                bytes,
                scan + i as usize,
                view.marks_join,
            );
            match class {
                CharClass::Letter => {
                    u.l = u.l | span;
                },
                CharClass::Number => {
                    u.n = u.n | span;
                    if !view.numbers {
                        u.resid = u.resid | span;
                    }
                },
                CharClass::Other => {
                    u.o = u.o | span;
                },
                CharClass::Whitespace => {
                    u.ws = u.ws | span;
                    if i as u64 + l > 64 || l == 4 {
                        // Its true class marks keep neighbors' tests exact.
                        u.resid = u.resid | span;
                    } else if l == 2 {
                        u.w2 = u.w2 | lead;
                    } else {
                        u.w3 = u.w3 | lead;
                    }
                },
            }
            if view.leads {
                if l == 2 {
                    u.lead2 = u.lead2 | lead;
                } else if l == 3 {
                    u.lead3 = u.lead3 | lead;
                } else {
                    u.lead4 = u.lead4 | lead;
                }
            }
            u.cont = u.cont | (span & !lead);
            let ghost prior = rest;
            rest = rest & !span;
            proof {
                assert(lead_width(b) == l);
                assert(span == char_span(s, at, i as int));
                lemma_step(*view, s, at, done, i as int, before, u);
                lemma_cleared(m, prior, rest, l, i as int, next);
                done = done.push(i as int);
                let stop = i + l;
                let tail = visits(s, at, m, stop);
                assert(done + tail =~= done.drop_last() + (seq![i as int] + tail));
                if stop > 64 {
                    assert(visits(s, at, m, 64) =~= tail);
                    next = 64;
                } else {
                    next = stop;
                }
            }
        }
    }
    proof {
        assert forall|k: int| next <= k < 64 implies !#[trigger] bit(m, k) by {
            if bit(m, k) {
                assert(bit(rest, k));
                lemma_nonzero(rest, k);
            }
        }
        lemma_visits_skip(s, at, m, next, 64);
        assert(done + visits(s, at, m, 64) =~= done);
    }
    u
}

/// What one more bit adds.
proof fn lemma_step(
    view: UniView,
    s: Seq<u8>,
    scan: int,
    done: Seq<int>,
    i: int,
    before: UniClasses,
    after: UniClasses,
)
    requires
        before == view.classes(s, scan, done),
        after.l == before.l | (view.of_class(s, scan, CharClass::Letter))(i) || (after.l == before.l
            && (view.of_class(s, scan, CharClass::Letter))(i) == 0),
        after.n == before.n | (view.of_class(s, scan, CharClass::Number))(i) || (after.n == before.n
            && (view.of_class(s, scan, CharClass::Number))(i) == 0),
        after.o == before.o | (view.of_class(s, scan, CharClass::Other))(i) || (after.o == before.o
            && (view.of_class(s, scan, CharClass::Other))(i) == 0),
        after.ws == before.ws | (view.of_class(s, scan, CharClass::Whitespace))(i) || (after.ws
            == before.ws && (view.of_class(s, scan, CharClass::Whitespace))(i) == 0),
        after.w2 == before.w2 | (view.ws_lead(s, scan, 2))(i) || (after.w2 == before.w2 && (
        view.ws_lead(s, scan, 2))(i) == 0),
        after.w3 == before.w3 | (view.ws_lead(s, scan, 3))(i) || (after.w3 == before.w3 && (
        view.ws_lead(s, scan, 3))(i) == 0),
        after.lead2 == before.lead2 | (view.lead(s, scan, 2))(i) || (after.lead2 == before.lead2
            && (view.lead(s, scan, 2))(i) == 0),
        after.lead3 == before.lead3 | (view.lead(s, scan, 3))(i) || (after.lead3 == before.lead3
            && (view.lead(s, scan, 3))(i) == 0),
        after.lead4 == before.lead4 | (view.lead(s, scan, 4))(i) || (after.lead4 == before.lead4
            && (view.lead(s, scan, 4))(i) == 0),
        after.cont == before.cont | (view.conts(s, scan))(i) || (after.cont == before.cont && (
        view.conts(s, scan))(i) == 0),
        after.resid == before.resid | (view.left(s, scan))(i) || (after.resid == before.resid && (
        view.left(s, scan))(i) == 0),
    ensures
        after == view.classes(s, scan, done.push(i)),
{
    assert(done.push(i).drop_last() =~= done);
    assert(forall|x: u64| #[trigger] (x | 0u64) == x) by (bit_vector);
}

/// Which bits are left once a character's are taken out.
proof fn lemma_cleared(m: u64, before: u64, after: u64, l: u64, i: int, next: int)
    requires
        0 <= next <= i < 64,
        1 <= l <= 4,
        forall|k: int| 0 <= k < 64 ==> (#[trigger] bit(before, k) <==> k >= next && bit(m, k)),
        forall|k: int| 0 <= k < i ==> !#[trigger] bit(before, k),
        after == before & !((((1u64 << l) - 1) as u64) << (i as u64)) || (l == 1 && after == before
            & !(1u64 << (i as u64))),
    ensures
        forall|k: int| 0 <= k < 64 ==> (#[trigger] bit(after, k) <==> k >= i + l && bit(m, k)),
{
    assert forall|k: int| 0 <= k < 64 implies (#[trigger] bit(after, k) <==> k >= i + l && bit(
        m,
        k,
    )) by {
        let span = (((1u64 << l) - 1) as u64) << (i as u64);
        let one = 1u64 << (i as u64);
        lemma_bit_span(l, i as u64, k);
        lemma_bit_one(i as u64, k);
        lemma_bit_ops(span, before, k);
        lemma_bit_ops(one, before, k);
        lemma_bit_ops(before, !span, k);
        lemma_bit_ops(before, !one, k);
        assert(bit(before, k) <==> k >= next && bit(m, k));
        if k < i {
            assert(!bit(before, k));
        }
    }
}

/// Where the run of set bits that holds bit `p` starts.
pub open spec fn run_start(d: u64, p: int) -> int
    decreases p,
{
    if p > 0 && bit(d, p - 1) {
        run_start(d, p - 1)
    } else {
        p
    }
}

/// The start of a run is at or before a bit, and the bits between are set.
proof fn lemma_run_start(d: u64, p: int)
    requires
        bit(d, p),
    ensures
        0 <= run_start(d, p) <= p,
        forall|k: int| run_start(d, p) <= k <= p ==> #[trigger] bit(d, k),
        run_start(d, p) > 0 ==> !bit(d, run_start(d, p) - 1),
    decreases p,
{
    if p > 0 && bit(d, p - 1) {
        lemma_run_start(d, p - 1);
    }
}

/// Bits of one run have one start.
proof fn lemma_same_run(d: u64, q: int, p: int)
    requires
        0 <= q <= p < 64,
        forall|k: int| q <= k <= p ==> #[trigger] bit(d, k),
    ensures
        run_start(d, p) == run_start(d, q),
    decreases p - q,
{
    if q < p {
        assert(bit(d, p - 1));
        lemma_same_run(d, q, p - 1);
    }
}

/// Whether a bit is the start of one of the first `n` groups of three of its run.
pub open spec fn group_start(d: u64, p: int, n: int) -> bool {
    &&& bit(d, p)
    &&& (p - run_start(d, p)) % 3 == 0
    &&& p - run_start(d, p) < 3 * n
}

/// Whether the bits from `p` to `p + n` are set.
pub open spec fn all_set(d: u64, p: int, n: int) -> bool {
    p + n < 64 && forall|k: int| p <= k <= p + n ==> #[trigger] bit(d, k)
}

/// Token-start bits inside ASCII digit runs for `\p{N}{1,3}`: each run splits
/// into tokens of three, so boundaries sit at every third place of a run.
pub fn digit_run_splits3(d: u64) -> (b: u64)
    ensures
        forall|p: int|
            0 <= p < 64 ==> (#[trigger] bit(b, p) <==> bit(d, p) && (p - run_start(d, p)) % 3 == 0),
{
    let mut b: u64 = d & !(d << 1);
    let mut c: u64 = d & (d >> 1) & (d >> 2) & (d >> 3);
    let mut sh: u64 = 3;
    let ghost mut n: int = 1;
    proof {
        assert forall|p: int| 0 <= p < 64 implies (#[trigger] bit(b, p) <==> group_start(
            d,
            p,
            1,
        )) by {
            lemma_bit_shl(d, 1, p);
            lemma_bit_ops(d << 1, 0, p);
            lemma_bit_ops(d, !(d << 1), p);
            if bit(d, p) {
                lemma_run_start(d, p);
            }
        }
        assert forall|p: int| 0 <= p < 64 implies (#[trigger] bit(c, p) <==> all_set(d, p, 3)) by {
            lemma_bit_shr(d, 1, p);
            lemma_bit_shr(d, 2, p);
            lemma_bit_shr(d, 3, p);
            lemma_bit_ops(d, d >> 1, p);
            lemma_bit_ops(d & (d >> 1), d >> 2, p);
            lemma_bit_ops(d & (d >> 1) & (d >> 2), d >> 3, p);
            if bit(c, p) {
                assert forall|k: int| p <= k <= p + 3 implies #[trigger] bit(d, k) by {
                    assert(k == p || k == p + 1 || k == p + 2 || k == p + 3);
                }
            }
            if all_set(d, p, 3) {
                assert(bit(d, p) && bit(d, p + 1) && bit(d, p + 2) && bit(d, p + 3));
            }
        }
    }
    while sh < 64
        invariant
            1 <= n <= 42,
            sh == 3 * n,
            forall|p: int| 0 <= p < 64 ==> (#[trigger] bit(b, p) <==> group_start(d, p, n)),
            forall|p: int| 0 <= p < 64 ==> (#[trigger] bit(c, p) <==> all_set(d, p, 3 * n)),
        decreases
                if sh < 64 {
                    64 - sh
                } else {
                    0
                },
    {
        let ghost b0 = b;
        let ghost c0 = c;
        b = b | ((b & c) << sh);
        c = c & (c >> sh);
        proof {
            assert forall|p: int| 0 <= p < 64 implies (#[trigger] bit(b, p) <==> group_start(
                d,
                p,
                2 * n,
            )) by {
                lemma_bit_ops(b0, (b0 & c0) << sh, p);
                lemma_bit_shl(b0 & c0, sh, p);
                assert(bit(b0, p) <==> group_start(d, p, n));
                let q = p - sh;
                if q >= 0 {
                    lemma_bit_ops(b0, c0, q);
                    assert(bit(b0, q) <==> group_start(d, q, n));
                    assert(bit(c0, q) <==> all_set(d, q, 3 * n));
                    if bit(b0, q) && bit(c0, q) {
                        assert(bit(d, p));
                        lemma_same_run(d, q, p);
                    }
                    if group_start(d, p, 2 * n) && !group_start(d, p, n) {
                        lemma_run_start(d, p);
                        assert(run_start(d, p) <= q);
                        assert(bit(d, q));
                        lemma_same_run(d, q, p);
                        assert(all_set(d, q, 3 * n));
                    }
                } else {
                    if group_start(d, p, 2 * n) {
                        lemma_run_start(d, p);
                    }
                }
            }
            assert forall|p: int| 0 <= p < 64 implies (#[trigger] bit(c, p) <==> all_set(
                d,
                p,
                6 * n,
            )) by {
                lemma_bit_ops(c0, c0 >> sh, p);
                lemma_bit_shr(c0, sh, p);
                assert(bit(c0, p) <==> all_set(d, p, 3 * n));
                if p + sh < 64 {
                    assert(bit(c0, p + sh) <==> all_set(d, p + sh, 3 * n));
                    if bit(c, p) {
                        assert forall|k: int| p <= k <= p + 6 * n implies #[trigger] bit(d, k) by {
                            if k <= p + 3 * n {
                                assert(bit(d, k));
                            } else {
                                assert(p + sh <= k <= p + sh + 3 * n);
                            }
                        }
                    }
                    if all_set(d, p, 6 * n) {
                        assert forall|k: int| p <= k <= p + 3 * n implies #[trigger] bit(
                            d,
                            k,
                        ) by {}
                        assert forall|k: int| p + sh <= k <= p + sh + 3 * n implies #[trigger] bit(
                            d,
                            k,
                        ) by {}
                    }
                }
            }
            n = 2 * n;
        }
        sh = sh * 2;
    }
    proof {
        assert forall|p: int| 0 <= p < 64 implies (#[trigger] bit(b, p) <==> bit(d, p) && (p
            - run_start(d, p)) % 3 == 0) by {
            assert(bit(b, p) <==> group_start(d, p, n));
            if bit(d, p) {
                lemma_run_start(d, p);
            }
        }
    }
    b
}

} // verus!
