//! Padded and truncated batch assembly.

use vstd::prelude::*;

use crate::batch::rows::{append_u32, int_lens, lemma_sum_concat, lemma_sum_nonnegative, sum};

verus! {

/// How [`pad_truncate_matrix`] assembles rows into a rectangular matrix.
pub struct PadTruncate {
    pub pad_id: u32,
    /// Truncation limit and/or fixed pad width, depending on the two flags.
    pub max_length: Option<usize>,
    /// Pad every row to exactly `max_length` instead of the longest row.
    pub pad_to_max_length: bool,
    /// Keep at most `max_length` ids per row, counting prefix and suffix.
    pub truncate: bool,
    /// Put the padding before the tokens instead of after them.
    pub pad_left: bool,
    /// Drop tokens from the start of a row instead of the end.
    pub truncate_left: bool,
    /// Special-token ids written before / after every row's tokens; they count
    /// toward the truncation budget.
    pub prefix: Vec<u32>,
    pub suffix: Vec<u32>,
}

/// Why a batch cannot be assembled.
#[derive(Debug, Clone, Copy, PartialEq, Eq, Structural)]
pub enum PadError {
    /// Truncation without a length.
    TruncateNeedsMaxLength,
    /// `max_length` leaves no room for the special tokens of a row.
    NoRoom { max: usize, extra: usize },
    /// Padding to `max_length` without one.
    PadNeedsMaxLength,
    /// A row is longer than the width to pad to.
    TooLong { longest: usize, max: usize },
}

/// The smaller of two numbers; no bound is no limit.
pub open spec fn capped(n: int, cap: Option<int>) -> int {
    match cap {
        Some(c) => if n < c {
            n
        } else {
            c
        },
        None => n,
    }
}

/// The tokens of a row of `n` that starts at `at` of which `cap` are kept.
pub open spec fn kept_tokens(
    flat: Seq<u32>,
    at: int,
    n: int,
    cap: Option<int>,
    truncate_left: bool,
) -> Seq<u32> {
    let kept = capped(n, cap);
    if truncate_left {
        flat.subrange(at + n - kept, at + n)
    } else {
        flat.subrange(at, at + kept)
    }
}

/// The longest of rows of which each keeps `cap` tokens and holds `extra` more; 0
/// where there is no row.
pub open spec fn longest_row(counts: Seq<int>, cap: Option<int>, extra: int) -> int
    decreases counts.len(),
{
    if counts.len() == 0 {
        0
    } else {
        let init = longest_row(counts.drop_last(), cap, extra);
        let len = capped(counts.last(), cap) + extra;
        if init < len {
            len
        } else {
            init
        }
    }
}

/// So many of one id.
pub open spec fn repeated(id: u32, n: int) -> Seq<u32> {
    Seq::new(
        if n < 0 {
            0
        } else {
            n as nat
        },
        |i: int| id,
    )
}

impl PadTruncate {
    /// How many special tokens a row holds.
    pub open spec fn extra(self) -> int {
        (self.prefix@.len() + self.suffix@.len()) as int
    }

    /// How many tokens a row keeps, where that is limited.
    pub open spec fn cap(self) -> Option<int> {
        if self.truncate && self.max_length is Some {
            Some(self.max_length->0 - self.extra())
        } else {
            None
        }
    }

    /// The width of the matrix of rows of so many tokens, or why there is none.
    pub open spec fn width(self, counts: Seq<int>) -> Result<int, PadError> {
        let longest = longest_row(counts, self.cap(), self.extra());
        if self.truncate && self.max_length is None {
            Err(PadError::TruncateNeedsMaxLength)
        } else if self.truncate && self.max_length->0 < self.extra() {
            Err(PadError::NoRoom { max: self.max_length->0, extra: self.extra() as usize })
        } else if !self.pad_to_max_length {
            Ok(longest)
        } else if self.max_length is None {
            Err(PadError::PadNeedsMaxLength)
        } else if longest > self.max_length->0 {
            Err(PadError::TooLong { longest: longest as usize, max: self.max_length->0 })
        } else {
            Ok(self.max_length->0 as int)
        }
    }

    /// A row: `prefix`, the kept tokens, `suffix`, padded to `width`.
    pub open spec fn row(self, flat: Seq<u32>, at: int, n: int, width: int) -> Seq<u32> {
        let row = self.prefix@ + kept_tokens(flat, at, n, self.cap(), self.truncate_left)
            + self.suffix@;
        let pad = repeated(self.pad_id, width - row.len());
        if self.pad_left {
            pad + row
        } else {
            row + pad
        }
    }

    /// The rows of a batch, one after the other.
    pub open spec fn matrix(self, flat: Seq<u32>, counts: Seq<int>, width: int) -> Seq<u32>
        decreases counts.len(),
    {
        if counts.len() == 0 {
            Seq::empty()
        } else {
            self.matrix(flat, counts.drop_last(), width) + self.row(
                flat,
                sum(counts.drop_last()),
                counts.last(),
                width,
            )
        }
    }

    /// The real (unpadded) lengths of rows.
    pub open spec fn lengths(self, counts: Seq<int>) -> Seq<i64> {
        counts.map_values(|n: int| (capped(n, self.cap()) + self.extra()) as i64)
    }
}

/// Whether counts are those of the rows of so many ids.
pub open spec fn rows_within(counts: Seq<i64>, len: int) -> bool {
    &&& forall|i: int| 0 <= i < counts.len() ==> 0 <= #[trigger] counts[i]
    &&& sum(int_lens(counts)) <= len
}

/// Where a row of a batch lies.
pub proof fn lemma_row_within(counts: Seq<i64>, len: int, i: int)
    requires
        rows_within(counts, len),
        0 <= i < counts.len(),
    ensures
        int_lens(counts).take(i + 1).drop_last() == int_lens(counts).take(i),
        int_lens(counts).take(i + 1).last() == counts[i],
        sum(int_lens(counts).take(i + 1)) == sum(int_lens(counts).take(i)) + counts[i],
        0 <= sum(int_lens(counts).take(i)),
        sum(int_lens(counts).take(i)) + counts[i] <= len,
{
    let all = int_lens(counts);
    assert(all.take(i + 1).drop_last() =~= all.take(i));
    assert(all.take(i + 1) + all.skip(i + 1) =~= all);
    lemma_sum_concat(all.take(i + 1), all.skip(i + 1));
    assert forall|k: int| 0 <= k < all.take(i).len() implies 0 <= #[trigger] all.take(i)[k] by {
        assert(0 <= counts[k]);
    }
    assert forall|k: int| 0 <= k < all.skip(i + 1).len() implies 0 <= #[trigger] all.skip(
        i + 1,
    )[k] by {
        assert(0 <= counts[k + i + 1]);
    }
    lemma_sum_nonnegative(all.take(i));
    lemma_sum_nonnegative(all.skip(i + 1));
    assert(0 <= counts[i]);
}

/// Append so many of one id.
fn push_pad(out: &mut Vec<u32>, id: u32, n: usize)
    ensures
        final(out)@ == old(out)@ + repeated(id, n as int),
{
    assert(out@ + repeated(id, 0) =~= out@);
    for i in 0..n
        invariant
            out@ == old(out)@ + repeated(id, i as int),
    {
        out.push(id);
        assert(out@ =~= old(out)@ + repeated(id, i as int + 1));
    }
}

/// A longest row is at least each of them.
proof fn lemma_longest(counts: Seq<int>, cap: Option<int>, extra: int, i: int)
    requires
        0 <= i < counts.len(),
    ensures
        capped(counts[i], cap) + extra <= longest_row(counts, cap, extra),
    decreases counts.len(),
{
    if i < counts.len() - 1 {
        lemma_longest(counts.drop_last(), cap, extra, i);
    }
}

/// The longest row, and the real lengths of all.
fn row_lengths(counts: &[i64], opts: &PadTruncate, cap: Option<usize>, extra: usize, len: usize) -> (r:
    (Vec<i64>, usize))
    requires
        rows_within(counts@, len as int),
        len + extra <= usize::MAX,
        extra == opts.extra(),
        match cap {
            Some(c) => opts.cap() == Some(c as int),
            None => opts.cap() is None,
        },
    ensures
        r.0@ == opts.lengths(int_lens(counts@)),
        r.1 == longest_row(int_lens(counts@), opts.cap(), opts.extra()),
{
    let ghost all = int_lens(counts@);
    let mut lengths: Vec<i64> = Vec::with_capacity(counts.len());
    let mut longest: usize = 0;
    assert(all.take(0) =~= Seq::<int>::empty());
    assert(lengths@ =~= opts.lengths(all.take(0)));
    for i in 0..counts.len()
        invariant
            rows_within(counts@, len as int),
            len + extra <= usize::MAX,
            extra == opts.extra(),
            all == int_lens(counts@),
            match cap {
                Some(c) => opts.cap() == Some(c as int),
                None => opts.cap() is None,
            },
            lengths@ == opts.lengths(all.take(i as int)),
            longest == longest_row(all.take(i as int), opts.cap(), opts.extra()),
    {
        proof {
            lemma_row_within(counts@, len as int, i as int);
        }
        let n: usize = counts[i] as usize;
        let kept: usize = match cap {
            Some(c) => if n < c {
                n
            } else {
                c
            },
            None => n,
        };
        assert(kept == capped(all[i as int], opts.cap()));
        lengths.push((kept + extra) as i64);
        if longest < kept + extra {
            longest = kept + extra;
        }
        assert(lengths@ =~= opts.lengths(all.take(i as int + 1)));
    }
    assert(all.take(all.len() as int) =~= all);
    (lengths, longest)
}

/// Append a row.
fn push_row(
    out: &mut Vec<u32>,
    flat: &[u32],
    pos: usize,
    n: usize,
    opts: &PadTruncate,
    cap: Option<usize>,
    width: usize,
)
    requires
        pos + n <= flat@.len(),
        match cap {
            Some(c) => opts.cap() == Some(c as int),
            None => opts.cap() is None,
        },
        capped(n as int, opts.cap()) + opts.extra() <= width,
    ensures
        final(out)@ == old(out)@ + opts.row(flat@, pos as int, n as int, width as int),
{
    let len: usize = flat.len();
    let extra: usize = opts.prefix.len() + opts.suffix.len();
    let kept: usize = match cap {
        Some(c) => if n < c {
            n
        } else {
            c
        },
        None => n,
    };
    let tokens: &[u32] = if opts.truncate_left {
        &flat[pos + n - kept..pos + n]
    } else {
        &flat[pos..pos + kept]
    };
    let ghost before = out@;
    let ghost t = tokens@;
    assert(t == kept_tokens(flat@, pos as int, n as int, opts.cap(), opts.truncate_left));
    let pad: usize = width - (kept + extra);
    let ghost row = opts.prefix@ + t + opts.suffix@;
    let ghost p = repeated(opts.pad_id, pad as int);
    if opts.pad_left {
        push_pad(out, opts.pad_id, pad);
    }
    append_u32(out, opts.prefix.as_slice());
    append_u32(out, tokens);
    append_u32(out, opts.suffix.as_slice());
    if !opts.pad_left {
        push_pad(out, opts.pad_id, pad);
        assert(out@ =~= before + (row + p));
    } else {
        assert(out@ =~= before + (p + row));
    }
}

/// Assemble a ragged token batch into one row-major (rows x width) matrix. Each
/// row is `prefix` + the (optionally truncated) tokens + `suffix`, padded with
/// `pad_id` to the longest row (or to exactly `max_length` when
/// `pad_to_max_length`). Returns the matrix data, each row's real (unpadded)
/// length, and the width.
pub fn pad_truncate_matrix(flat: &[u32], counts: &[i64], opts: &PadTruncate) -> (r: Result<
    (Vec<u32>, Vec<i64>, usize),
    PadError,
>)
    requires
        rows_within(counts@, flat@.len() as int),
        flat@.len() + opts.extra() <= usize::MAX,
    ensures
        match (r, opts.width(int_lens(counts@))) {
            (Ok((data, lengths, width)), Ok(w)) => {
                &&& width == w
                &&& data@ == opts.matrix(flat@, int_lens(counts@), w)
                &&& lengths@ == opts.lengths(int_lens(counts@))
            },
            (Err(e), Err(want)) => e == want,
            _ => false,
        },
{
    let ghost all = int_lens(counts@);
    let extra: usize = opts.prefix.len() + opts.suffix.len();
    let cap: Option<usize> = if opts.truncate {
        match opts.max_length {
            None => return Err(PadError::TruncateNeedsMaxLength),
            Some(max) => {
                if max < extra {
                    return Err(PadError::NoRoom { max, extra });
                }
                Some(max - extra)
            },
        }
    } else {
        None
    };
    let (lengths, longest): (Vec<i64>, usize) = row_lengths(counts, opts, cap, extra, flat.len());
    let width: usize = if opts.pad_to_max_length {
        match opts.max_length {
            None => return Err(PadError::PadNeedsMaxLength),
            Some(max) => {
                if longest > max {
                    return Err(PadError::TooLong { longest, max });
                }
                max
            },
        }
    } else {
        longest
    };
    let mut out: Vec<u32> = Vec::new();
    let mut pos: usize = 0;
    assert(all.take(0) =~= Seq::<int>::empty());
    for i in 0..counts.len()
        invariant
            rows_within(counts@, flat@.len() as int),
            flat@.len() + extra <= usize::MAX,
            extra == opts.extra(),
            all == int_lens(counts@),
            match cap {
                Some(c) => opts.cap() == Some(c as int),
                None => opts.cap() is None,
            },
            longest_row(all, opts.cap(), opts.extra()) <= width,
            pos == sum(all.take(i as int)),
            out@ == opts.matrix(flat@, all.take(i as int), width as int),
    {
        proof {
            lemma_row_within(counts@, flat@.len() as int, i as int);
            lemma_longest(all, opts.cap(), opts.extra(), i as int);
        }
        let n: usize = counts[i] as usize;
        assert(all[i as int] == n);
        push_row(&mut out, flat, pos, n, opts, cap, width);
        pos = pos + n;
    }
    assert(all.take(all.len() as int) =~= all);
    Ok((out, lengths, width))
}

/// Every row of a padded matrix is as wide as the matrix.
pub proof fn lemma_matrix_len(opts: PadTruncate, flat: Seq<u32>, counts: Seq<int>, width: int)
    requires
        forall|i: int| 0 <= i < counts.len() ==> 0 <= #[trigger] counts[i],
        sum(counts) <= flat.len(),
        opts.width(counts) == Ok::<int, PadError>(width),
    ensures
        opts.matrix(flat, counts, width).len() == counts.len() * width,
{
    assert(longest_row(counts, opts.cap(), opts.extra()) <= width);
    lemma_matrix_len_upto(opts, flat, counts, width, counts.len() as int);
    assert(counts.take(counts.len() as int) =~= counts);
}

proof fn lemma_matrix_len_upto(
    opts: PadTruncate,
    flat: Seq<u32>,
    counts: Seq<int>,
    width: int,
    n: int,
)
    requires
        0 <= n <= counts.len(),
        forall|i: int| 0 <= i < counts.len() ==> 0 <= #[trigger] counts[i],
        sum(counts) <= flat.len(),
        opts.cap() matches Some(c) ==> 0 <= c,
        longest_row(counts, opts.cap(), opts.extra()) <= width,
    ensures
        opts.matrix(flat, counts.take(n), width).len() == n * width,
    decreases n,
{
    if n > 0 {
        lemma_matrix_len_upto(opts, flat, counts, width, n - 1);
        let t = counts.take(n);
        assert(t.drop_last() =~= counts.take(n - 1));
        assert(t.last() == counts[n - 1]);
        lemma_longest(counts, opts.cap(), opts.extra(), n - 1);
        let at = sum(counts.take(n - 1));
        let c = counts[n - 1];
        assert(0 <= at && at + c <= flat.len()) by {
            let a = counts.take(n - 1);
            let b = counts.skip(n);
            assert(counts =~= a.push(c) + b);
            assert(a.push(c).drop_last() =~= a);
            lemma_sum_concat(a.push(c), b);
            assert forall|k: int| 0 <= k < a.len() implies 0 <= #[trigger] a[k] by {
                assert(0 <= counts[k]);
            }
            assert forall|k: int| 0 <= k < b.len() implies 0 <= #[trigger] b[k] by {
                assert(0 <= counts[k + n]);
            }
            lemma_sum_nonnegative(a);
            lemma_sum_nonnegative(b);
        }
        assert(opts.row(flat, at, c, width).len() == width);
        assert((n - 1) * width + width == n * width) by (nonlinear_arith);
    } else {
        assert(counts.take(0) =~= Seq::<int>::empty());
        assert(0 * width == 0) by (nonlinear_arith);
    }
}

/// How rows of a batch are wrapped: what stands before and after each row's
/// tokens, and how many of them are kept, not counting prefix and suffix.
pub struct WrapTruncate {
    pub prefix: Vec<u32>,
    pub suffix: Vec<u32>,
    pub max_tokens: Option<usize>,
    /// Drop ids from the start of a row instead of the end.
    pub truncate_left: bool,
}

impl WrapTruncate {
    pub open spec fn cap(self) -> Option<int> {
        match self.max_tokens {
            Some(n) => Some(n as int),
            None => None,
        }
    }

    /// Row `i` of a batch.
    pub open spec fn row(self, flat: Seq<u32>, counts: Seq<int>, i: int) -> Seq<u32> {
        self.prefix@ + kept_tokens(
            flat,
            sum(counts.take(i)),
            counts[i],
            self.cap(),
            self.truncate_left,
        ) + self.suffix@
    }
}

/// Assemble a ragged token batch into one list per document: optional truncation
/// to `max_tokens` ids, wrapped in `prefix` and `suffix`.
pub fn wrap_rows(flat: &[u32], counts: &[i64], opts: &WrapTruncate) -> (rows: Vec<Vec<u32>>)
    requires
        rows_within(counts@, flat@.len() as int),
    ensures
        rows@.len() == counts@.len(),
        forall|i: int|
            0 <= i < rows@.len() ==> (#[trigger] rows@[i])@ == opts.row(
                flat@,
                int_lens(counts@),
                i,
            ),
{
    let ghost all = int_lens(counts@);
    let len: usize = flat.len();
    let mut rows: Vec<Vec<u32>> = Vec::with_capacity(counts.len());
    let mut pos: usize = 0;
    assert(all.take(0) =~= Seq::<int>::empty());
    for i in 0..counts.len()
        invariant
            rows_within(counts@, flat@.len() as int),
            len == flat@.len(),
            all == int_lens(counts@),
            pos == sum(all.take(i as int)),
            rows@.len() == i,
            forall|k: int|
                0 <= k < rows@.len() ==> (#[trigger] rows@[k])@ == opts.row(flat@, all, k),
    {
        proof {
            lemma_row_within(counts@, flat@.len() as int, i as int);
        }
        let n: usize = counts[i] as usize;
        let kept: usize = match opts.max_tokens {
            Some(cap) => if n < cap {
                n
            } else {
                cap
            },
            None => n,
        };
        let tokens: &[u32] = if opts.truncate_left {
            &flat[pos + n - kept..pos + n]
        } else {
            &flat[pos..pos + kept]
        };
        let mut row: Vec<u32> = Vec::new();
        append_u32(&mut row, opts.prefix.as_slice());
        append_u32(&mut row, tokens);
        append_u32(&mut row, opts.suffix.as_slice());
        assert(row@ =~= opts.row(flat@, all, i as int));
        rows.push(row);
        pos = pos + n;
    }
    rows
}

/// The documents of a flat buffer, from per-document byte counts.
pub fn split_flat<'a>(bytes: &'a [u8], counts: &[i64]) -> (docs: Vec<&'a [u8]>)
    requires
        rows_within(counts@, bytes@.len() as int),
    ensures
        docs@.len() == counts@.len(),
        forall|i: int|
            0 <= i < docs@.len() ==> (#[trigger] docs@[i])@ == bytes@.subrange(
                sum(int_lens(counts@).take(i)),
                sum(int_lens(counts@).take(i)) + counts@[i],
            ),
{
    let ghost all = int_lens(counts@);
    let len: usize = bytes.len();
    let mut docs: Vec<&'a [u8]> = Vec::with_capacity(counts.len());
    let mut pos: usize = 0;
    assert(all.take(0) =~= Seq::<int>::empty());
    for i in 0..counts.len()
        invariant
            rows_within(counts@, bytes@.len() as int),
            len == bytes@.len(),
            all == int_lens(counts@),
            pos == sum(all.take(i as int)),
            docs@.len() == i,
            forall|k: int|
                0 <= k < docs@.len() ==> (#[trigger] docs@[k])@ == bytes@.subrange(
                    sum(all.take(k)),
                    sum(all.take(k)) + counts@[k],
                ),
    {
        proof {
            lemma_row_within(counts@, bytes@.len() as int, i as int);
        }
        let n: usize = counts[i] as usize;
        docs.push(&bytes[pos..pos + n]);
        pos = pos + n;
    }
    docs
}

} // verus!
