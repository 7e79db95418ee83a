//! The batch walker of mask-scanner pretokenizers.
//!
//! A mask scanner processes 64-byte batches: every byte is classified, and bitmask
//! algebra derives "a token starts here" bits, of which `next_span` pops one per
//! token. What a batch cannot decide goes through the scalar `advance`.

use vstd::prelude::*;
use vstd::utf8::valid_utf8;

use crate::pretokenize::bits::{
    bit, lemma_bit_one, lemma_bit_ops, lemma_bit_shl, lemma_bit_span, lemma_nonzero, lowest_bit,
};

verus! {

/// Whether the tokens from `from` on reach a token that starts at `p` (or the end
/// of the input there).
pub open spec fn reaches(end: spec_fn(int) -> int, len: int, from: int, p: int) -> bool
    decreases len - from,
{
    from == p || (0 <= from < p && from < len && from < end(from) <= len && reaches(
        end,
        len,
        end(from),
        p,
    ))
}

/// Whether every token takes at least a byte, and ends within the input.
pub open spec fn advancing(end: spec_fn(int) -> int, len: int) -> bool {
    forall|p: int| 0 <= p < len ==> p < #[trigger] end(p) <= len
}

/// Of two token starts the later one is reached from the earlier one.
pub proof fn lemma_reaches_linear(end: spec_fn(int) -> int, len: int, from: int, p: int, q: int)
    requires
        advancing(end, len),
        reaches(end, len, from, p),
        reaches(end, len, from, q),
        0 <= from,
        p < q,
    ensures
        p < len,
        reaches(end, len, end(p), q),
        end(p) <= q,
    decreases len - from,
{
    if from < p {
        lemma_reaches_linear(end, len, end(from), p, q);
    } else {
        lemma_reaches_order(end, len, end(p), q);
    }
}

proof fn lemma_reaches_order(end: spec_fn(int) -> int, len: int, from: int, q: int)
    requires
        reaches(end, len, from, q),
    ensures
        from <= q,
{
}

/// One more token is reached.
pub proof fn lemma_reaches_next(end: spec_fn(int) -> int, len: int, from: int, p: int)
    requires
        advancing(end, len),
        reaches(end, len, from, p),
        0 <= from,
        p < len,
    ensures
        reaches(end, len, from, end(p)),
    decreases len - from,
{
    assert(p < end(p) <= len) by {
        lemma_reaches_order(end, len, from, p);
    }
    if from < p {
        lemma_reaches_next(end, len, end(from), p);
        lemma_reaches_order(end, len, end(from), p);
    } else {
        assert(reaches(end, len, end(p), end(p)));
    }
}

/// Whether a batch's masks can be trusted: a `usable` bit is a token start, and a
/// token start off the `bad` bytes is `usable`.
pub open spec fn trusted(
    end: spec_fn(int) -> int,
    len: int,
    scan: int,
    usable: u64,
    bad: u64,
) -> bool {
    forall|k: int|
        0 <= k < 64 ==> {
            &&& (#[trigger] bit(usable, k)) ==> reaches(end, len, 0, scan + k)
            &&& !bit(bad, k) && reaches(end, len, 0, scan + k) ==> bit(usable, k)
            &&& !(bit(usable, k) && bit(bad, k))
        }
}

/// The per-scheme hooks of a mask-scanner pretokenizer.
pub trait MaskScheme {
    /// The end of the token that starts at a place.
    spec fn ends(s: Seq<u8>) -> spec_fn(int) -> int;

    /// Every token takes at least a byte, and ends within the input.
    proof fn lemma_advancing(s: Seq<u8>)
        ensures
            advancing(Self::ends(s), s.len() as int),
    ;

    /// End of the token starting at `pos`.
    fn advance(bytes: &[u8], pos: usize) -> (end: usize)
        requires
            pos < bytes@.len(),
        ensures
            end == (Self::ends(bytes@))(pos as int),
    ;

    /// `(usable, bad)` for `bytes[scan..scan+64]`: `usable` bit k = trustworthy
    /// token start at scan+k; `bad` bit k = byte scan+k needs the scalar path.
    fn batch_masks(bytes: &[u8], scan: usize) -> (r: (u64, u64))
        requires
            scan + 64 <= bytes@.len(),
            valid_utf8(bytes@),
        ensures
            trusted(Self::ends(bytes@), bytes@.len() as int, scan as int, r.0, r.1),
    ;
}

/// Scheme-agnostic mask-scanner state: pops trusted boundary bits, walks bad zones
/// through the scheme's scalar `advance`, runs the buffer tail scalar, and
/// precomputes one batch ahead.
pub struct MaskState {
    /// Start of the pending (not yet emitted) token.
    pos: usize,
    /// Base of the next batch to scan.
    scan: usize,
    /// Base the `rem`/`batch_*` bits refer to.
    mask_base: usize,
    /// Boundary bits of the current segment (trusted, pop-ready).
    rem: u64,
    /// Full usable mask of the current batch (later segments).
    batch_usable: u64,
    /// Bad zones of the current batch not yet passed.
    batch_bad: u64,
    /// Emit tokens via the scalar advance while `pos < scalar_until`.
    scalar_until: usize,
    /// Eagerly computed masks for a batch, and its base.
    pre: Option<(usize, u64, u64)>,
    /// All token starts behind `pos` and before this are in `rem`.
    upto: Ghost<int>,
}

impl MaskState {
    /// Start of the pending token.
    pub closed spec fn at(self) -> int {
        self.pos as int
    }

    /// The bits of the segment: all token starts from `pos` up to `upto`.
    closed spec fn segment_ok(self, end: spec_fn(int) -> int, len: int) -> bool {
        &&& forall|k: int|
            0 <= k < 64 && #[trigger] bit(self.rem, k) ==> {
                &&& reaches(end, len, 0, self.mask_base + k)
                &&& self.pos < self.mask_base + k < self.upto@
            }
        &&& forall|q: int|
            #![trigger reaches(end, len, 0, q)]
            reaches(end, len, 0, q) && self.pos < q < self.upto@ ==> {
                &&& self.mask_base <= q < self.mask_base + 64
                &&& bit(self.rem, q - self.mask_base)
            }
    }

    /// The state is that of a walk over the tokens of an input.
    pub closed spec fn wf(self, end: spec_fn(int) -> int, len: int) -> bool {
        &&& reaches(end, len, 0, self.pos as int)
        &&& self.pos <= len
        &&& self.scan <= len
        &&& self.segment_ok(end, len)
        &&& self.batch_bad != 0 ==> {
            &&& self.mask_base + 64 == self.scan
            &&& self.mask_base <= self.scalar_until
            &&& trusted(end, len, self.mask_base as int, self.batch_usable, self.batch_bad)
        }
        &&& self.batch_bad == 0 ==> self.upto@ >= self.scan || self.pos >= self.scan
        &&& self.rem != 0 ==> self.mask_base + 64 <= len
        &&& self.pre matches Some((base, usable, bad)) ==> trusted(
            end,
            len,
            base as int,
            usable,
            bad,
        )
    }

    /// A walk that starts with the token at `pos`; without `batches` every token
    /// takes the scalar path.
    pub fn new(pos: usize, batches: bool) -> (m: Self)
        ensures
            m.at() == pos,
            forall|end: spec_fn(int) -> int, len: int|
                pos <= len && reaches(end, len, 0, pos as int) ==> #[trigger] m.wf(end, len),
    {
        let scalar_until: usize = if batches {
            pos
        } else {
            usize::MAX
        };
        let m = MaskState {
            pos,
            scan: pos,
            mask_base: pos,
            rem: 0,
            batch_usable: 0,
            batch_bad: 0,
            scalar_until,
            pre: None,
            upto: Ghost(pos as int),
        };
        assert forall|end: spec_fn(int) -> int, len: int|
            pos <= len && reaches(end, len, 0, pos as int) implies #[trigger] m.wf(end, len) by {
            assert forall|k: int| 0 <= k < 64 implies !#[trigger] bit(m.rem, k) by {
                lemma_bit_one(0, k);
            }
            assert(m.segment_ok(end, len));
        }
        m
    }

    /// Start of the pending token.
    pub fn pos(&self) -> (p: usize)
        ensures
            p == self.at(),
    {
        self.pos
    }

    /// Load the segment of `batch_usable` bits from `from_bit` up to the next bad
    /// run into `rem` and aim `scalar_until` past that bad run at the next trusted
    /// boundary (or the batch end).
    fn load_segment(&mut self, from_bit: u64, Ghost(end): Ghost<spec_fn(int) -> int>, Ghost(len): Ghost<
        int,
    >)
        requires
            from_bit < 64,
            reaches(end, len, 0, old(self).pos as int),
            old(self).mask_base + 64 <= len,
            old(self).mask_base + 64 <= usize::MAX,
            trusted(
                end,
                len,
                old(self).mask_base as int,
                old(self).batch_usable,
                old(self).batch_bad,
            ),
            old(self).pos == old(self).mask_base + from_bit || (old(self).pos
                < old(self).mask_base && from_bit == 0),
            forall|q: int|
                #![trigger reaches(end, len, 0, q)]
                old(self).pos < q < old(self).mask_base ==> !reaches(end, len, 0, q),
        ensures
            final(self).pos == old(self).pos,
            final(self).scan == old(self).scan,
            final(self).mask_base == old(self).mask_base,
            final(self).batch_usable == old(self).batch_usable,
            final(self).pre == old(self).pre,
            final(self).segment_ok(end, len),
            final(self).batch_bad == 0 ==> final(self).upto@ == old(self).mask_base + 64,
            final(self).batch_bad != 0 ==> {
                &&& final(self).batch_bad == old(self).batch_bad
                &&& old(self).mask_base <= final(self).scalar_until
                &&& old(self).pos < final(self).scalar_until
            },
    {
        let ghost base = self.mask_base as int;
        let ghost usable = self.batch_usable;
        let ghost bad = self.batch_bad;
        let live: u64 = u64::MAX << from_bit;
        let seg_bad: u64 = self.batch_bad & live;
        proof {
            assert forall|k: int| 0 <= k < 64 implies #[trigger] bit(live, k) == (k
                >= from_bit) by {
                lemma_bit_shl(u64::MAX, from_bit, k);
                if k >= from_bit {
                    lemma_bit_one(0, k - from_bit);
                }
            }
            assert forall|k: int| 0 <= k < 64 implies #[trigger] bit(seg_bad, k) == (bit(bad, k)
                && k >= from_bit) by {
                lemma_bit_ops(bad, live, k);
                assert(bit(live, k) == (k >= from_bit));
            }
        }
        let ghost stop: int;
        if seg_bad == 0 {
            self.rem = self.batch_usable & live;
            self.batch_bad = 0;
            proof {
                stop = 64;
                assert forall|k: int| from_bit <= k < 64 implies !#[trigger] bit(bad, k) by {
                    if bit(bad, k) {
                        assert(bit(seg_bad, k));
                        lemma_nonzero(seg_bad, k);
                    }
                }
                assert forall|k: int| 0 <= k < 64 implies #[trigger] bit(self.rem, k) == (bit(
                    usable,
                    k,
                ) && from_bit <= k < stop) by {
                    lemma_bit_ops(usable, live, k);
                    assert(bit(live, k) == (k >= from_bit));
                }
            }
        } else {
            let nb: u32 = lowest_bit(seg_bad);
            proof {
                lemma_bit_span(nb as u64, 0, 0);
                assert(bit(seg_bad, nb as int));
            }
            let low: u64 = (1u64 << nb) - 1;
            self.rem = self.batch_usable & live & low;
            let above: u64 = u64::MAX << nb;
            let rest: u64 = self.batch_usable & above;
            proof {
                stop = nb as int;
                assert forall|k: int| from_bit <= k < stop implies !#[trigger] bit(bad, k) by {
                    assert(!bit(seg_bad, k));
                }
                assert forall|k: int| 0 <= k < 64 implies #[trigger] bit(self.rem, k) == (bit(
                    usable,
                    k,
                ) && from_bit <= k < stop) by {
                    lemma_bit_ops(usable, live, k);
                    assert(bit(live, k) == (k >= from_bit));
                    lemma_bit_span(nb as u64, 0, k);
                    lemma_bit_ops(usable & live, low, k);
                }
                assert forall|k: int| 0 <= k < 64 implies #[trigger] bit(rest, k) == (bit(usable, k)
                    && k >= nb) by {
                    lemma_bit_ops(usable, above, k);
                    lemma_bit_shl(u64::MAX, nb as u64, k);
                    if k >= nb {
                        lemma_bit_one(0, k - nb);
                    }
                }
            }
            if rest != 0 {
                let first: u32 = lowest_bit(rest);
                proof {
                    assert(bit(rest, first as int));
                    assert(!(bit(usable, nb as int) && bit(bad, nb as int)));
                    assert(bit(bad, nb as int));
                    assert(first != nb);
                }
                self.scalar_until = self.mask_base + first as usize;
            } else {
                self.scalar_until = self.mask_base + 64;
            }
            assert(bad != 0) by {
                assert(bit(bad, nb as int));
                lemma_nonzero(bad, nb as int);
            }
        }
        // A bit at the pending token's own start is not an end.
        let ghost before = self.rem;
        if self.pos >= self.mask_base {
            let own: u64 = 1u64 << from_bit;
            self.rem = self.rem & !own;
            proof {
                assert forall|k: int| 0 <= k < 64 implies #[trigger] bit(self.rem, k) == (bit(
                    before,
                    k,
                ) && k != from_bit) by {
                    lemma_bit_one(from_bit, k);
                    lemma_bit_ops(own, 0, k);
                    lemma_bit_ops(before, !own, k);
                }
            }
        }
        proof {
            self.upto@ = base + stop;
            assert forall|k: int| 0 <= k < 64 && #[trigger] bit(self.rem, k) implies {
                &&& reaches(end, len, 0, base + k)
                &&& self.pos < base + k < self.upto@
            } by {
                assert(bit(before, k));
                assert(bit(usable, k));
            }
            assert forall|q: int|
                #![trigger reaches(end, len, 0, q)]
                reaches(end, len, 0, q) && self.pos < q < self.upto@ implies {
                &&& base <= q < base + 64
                &&& bit(self.rem, q - base)
            } by {
                let k = q - base;
                assert(base <= q);
                assert(from_bit <= k < stop);
                assert(!bit(bad, k));
                assert(base + k == q);
                assert(bit(usable, k) || !bit(usable, k));
                assert(bit(usable, k));
                assert(bit(before, k));
            }
        }
    }

    /// The next token's byte range, or None at end of input.
    pub fn next_span<S: MaskScheme>(&mut self, bytes: &[u8]) -> (r: Option<(usize, usize)>)
        requires
            valid_utf8(bytes@),
            old(self).wf(S::ends(bytes@), bytes@.len() as int),
        ensures
            final(self).wf(S::ends(bytes@), bytes@.len() as int),
            match r {
                Some((start, stop)) => {
                    &&& start == old(self).at()
                    &&& start < stop <= bytes@.len()
                    &&& stop == (S::ends(bytes@))(start as int)
                    &&& final(self).at() == stop
                },
                None => old(self).at() == bytes@.len() && final(self).at() == old(self).at(),
            },
    {
        let ghost end = S::ends(bytes@);
        let ghost size = bytes@.len() as int;
        let ghost first = self.pos as int;
        let len: usize = bytes.len();
        proof {
            S::lemma_advancing(bytes@);
        }
        loop
            invariant
                valid_utf8(bytes@),
                end == S::ends(bytes@),
                size == bytes@.len(),
                len == size,
                advancing(end, size),
                self.wf(end, size),
                self.pos == first,
                first == old(self).at(),
            decreases
                    size - self.scan,
                    if self.rem != 0 || self.pos < self.scalar_until {
                        0int
                    } else if self.batch_bad != 0 {
                        2
                    } else {
                        1
                    },
        {
            if self.rem != 0 {
                let tz: u32 = lowest_bit(self.rem);
                let stop: usize = self.mask_base + tz as usize;
                let one: u64 = 1u64 << tz;
                let ghost before = *self;
                proof {
                    assert(bit(self.rem, tz as int));
                    assert(reaches(end, size, 0, stop as int));
                    lemma_reaches_linear(end, size, 0, first, stop as int);
                    lemma_reaches_next(end, size, 0, first);
                    let e = end(first);
                    assert(reaches(end, size, 0, e));
                    if e < stop {
                        assert(bit(self.rem, e - self.mask_base));
                    }
                    lemma_reaches_within(end, size, 0, stop as int);
                }
                self.rem = self.rem & !one;
                let start: usize = self.pos;
                self.pos = stop;
                proof {
                    lemma_popped(before, *self, end, size, tz as u64);
                }
                return Some((start, stop));
            }
            if self.pos < self.scalar_until {
                if self.pos >= len {
                    return None;
                }
                let start: usize = self.pos;
                let stop: usize = S::advance(bytes, start);
                let ghost before = *self;
                self.pos = stop;
                proof {
                    lemma_reaches_next(end, size, 0, first);
                    lemma_moved(before, *self, end, size);
                }
                return Some((start, stop));
            }
            // Continue with the current batch's next trusted segment after a
            // scalar gap (each batch is computed exactly once).
            if self.batch_bad != 0 && self.pos - self.mask_base < 64 {
                let from_bit: u64 = (self.pos - self.mask_base) as u64;
                self.load_segment(from_bit, Ghost(end), Ghost(size));
                assert(self.wf(end, size));
                continue;
            }
            self.batch_bad = 0;
            let ghost scan0 = self.scan;
            // Resume after a scalar overrun without leaving the 64-byte grid.
            while self.scan <= self.pos && self.pos - self.scan >= 64
                invariant
                    scan0 <= self.scan,
                    self.rem == 0,
                    self.batch_bad == 0,
                    self.pos == first,
                    self.pos >= self.scalar_until,
                    self.pos <= size,
                    self.scan <= size,
                    size <= usize::MAX,
                    reaches(end, size, 0, self.pos as int),
                    self.segment_ok(end, size),
                    self.upto@ >= self.scan || self.pos >= self.scan,
                    self.pre matches Some((base, usable, bad)) ==> trusted(
                        end,
                        size,
                        base as int,
                        usable,
                        bad,
                    ),
                decreases size - self.scan,
            {
                self.scan = self.scan + 64;
            }
            if len - self.scan < 64 {
                // Tail: scalar to the end of the buffer.
                if self.pos >= len {
                    return None;
                }
                self.scalar_until = usize::MAX;
                continue;
            }
            let ghost upto = self.upto@;
            let (usable, bad): (u64, u64) = match self.pre {
                Some((base, usable, bad)) => if base == self.scan {
                    (usable, bad)
                } else {
                    S::batch_masks(bytes, self.scan)
                },
                None => S::batch_masks(bytes, self.scan),
            };
            proof {
                assert forall|q: int|
                    #![trigger reaches(end, size, 0, q)]
                    self.pos < q < self.scan implies !reaches(end, size, 0, q) by {
                    if reaches(end, size, 0, q) {
                        assert(q < upto);
                        assert(bit(self.rem, q - self.mask_base));
                        lemma_bit_one(0, q - self.mask_base);
                    }
                }
            }
            self.mask_base = self.scan;
            self.scan = self.scan + 64;
            self.batch_usable = usable;
            self.batch_bad = bad;
            // Kick off the next batch now.
            if len - self.scan >= 64 {
                let (u2, b2): (u64, u64) = S::batch_masks(bytes, self.scan);
                self.pre = Some((self.scan, u2, b2));
            } else {
                self.pre = None;
            }
            // An overrun may have left `pos` inside this grid batch; start from
            // its bit so that bits below never pop.
            let from_bit: u64 = if self.pos > self.mask_base {
                (self.pos - self.mask_base) as u64
            } else {
                0
            };
            self.load_segment(from_bit, Ghost(end), Ghost(size));
            assert(self.wf(end, size));
        }
    }
}

/// What is reached lies within the input.
proof fn lemma_reaches_within(end: spec_fn(int) -> int, len: int, from: int, p: int)
    requires
        reaches(end, len, from, p),
        from <= len,
    ensures
        p <= len,
    decreases len - from,
{
    if from != p {
        lemma_reaches_within(end, len, end(from), p);
    }
}

/// A state whose lowest bit is popped.
proof fn lemma_popped(a: MaskState, b: MaskState, end: spec_fn(int) -> int, len: int, tz: u64)
    requires
        a.wf(end, len),
        tz < 64,
        bit(a.rem, tz as int),
        forall|k: int| 0 <= k < tz ==> !#[trigger] bit(a.rem, k),
        b == (MaskState {
            rem: a.rem & !(1u64 << tz),
            pos: b.pos,
            ..a
        }),
        b.pos == a.mask_base + tz,
        b.pos <= len,
        a.rem != 0,
    ensures
        b.wf(end, len),
{
    let one = 1u64 << tz;
    assert forall|k: int| 0 <= k < 64 implies #[trigger] bit(b.rem, k) == (bit(a.rem, k) && k
        != tz) by {
        lemma_bit_one(tz, k);
        lemma_bit_ops(one, 0, k);
        lemma_bit_ops(a.rem, !one, k);
    }
    assert(reaches(end, len, 0, b.pos as int));
    assert forall|k: int| 0 <= k < 64 && #[trigger] bit(b.rem, k) implies {
        &&& reaches(end, len, 0, b.mask_base + k)
        &&& b.pos < b.mask_base + k < b.upto@
    } by {
        assert(bit(a.rem, k));
    }
    assert(b.segment_ok(end, len));
}

/// A state without bits whose pending token is taken.
proof fn lemma_moved(a: MaskState, b: MaskState, end: spec_fn(int) -> int, len: int)
    requires
        a.wf(end, len),
        a.rem == 0,
        b == (MaskState { pos: b.pos, ..a }),
        reaches(end, len, 0, b.pos as int),
        a.pos <= b.pos <= len,
    ensures
        b.wf(end, len),
{
    assert forall|k: int| 0 <= k < 64 implies !#[trigger] bit(b.rem, k) by {
        lemma_bit_one(0, k);
    }
    assert(b.segment_ok(end, len));
}

} // verus!
