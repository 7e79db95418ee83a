//! Laws: what stands in each cell of a padded batch, and in each wrapped row.

use vstd::prelude::*;

use crate::batch::padding::{capped, longest_row, PadError, PadTruncate, WrapTruncate};
use crate::batch::rows::{lemma_sum_concat, lemma_sum_nonnegative, sum};

verus! {

/// Where a row of a batch lies among all ids: behind the rows before it, which take
/// up their counts.
proof fn lemma_row_place(counts: Seq<int>, len: int, i: int)
    requires
        forall|k: int| 0 <= k < counts.len() ==> 0 <= #[trigger] counts[k],
        sum(counts) <= len,
        0 <= i < counts.len(),
    ensures
        sum(counts.take(0)) == 0,
        sum(counts.take(i + 1)) == sum(counts.take(i)) + counts[i],
        0 <= sum(counts.take(i)),
        sum(counts.take(i)) + counts[i] <= len,
{
    let a = counts.take(i);
    let b = counts.skip(i + 1);
    assert(counts.take(0) =~= Seq::<int>::empty());
    assert(counts.take(i + 1).drop_last() =~= a);
    assert(counts =~= counts.take(i + 1) + b);
    lemma_sum_concat(counts.take(i + 1), b);
    assert forall|k: int| 0 <= k < a.len() implies 0 <= #[trigger] a[k] by {
        assert(0 <= counts[k]);
    }
    assert forall|k: int| 0 <= k < b.len() implies 0 <= #[trigger] b[k] by {
        assert(0 <= counts[k + i + 1]);
    }
    lemma_sum_nonnegative(a);
    lemma_sum_nonnegative(b);
}

proof fn lemma_longest_bounds(counts: Seq<int>, cap: Option<int>, extra: int, i: int)
    requires
        0 <= i < counts.len(),
    ensures
        capped(counts[i], cap) + extra <= longest_row(counts, cap, extra),
    decreases counts.len(),
{
    if i < counts.len() - 1 {
        lemma_longest_bounds(counts.drop_last(), cap, extra, i);
    }
}

proof fn lemma_longest_is_one(counts: Seq<int>, cap: Option<int>, extra: int)
    requires
        counts.len() > 0,
        0 <= extra,
        cap matches Some(c) ==> 0 <= c,
        forall|k: int| 0 <= k < counts.len() ==> 0 <= #[trigger] counts[k],
    ensures
        exists|i: int|
            0 <= i < counts.len() && capped(#[trigger] counts[i], cap) + extra == longest_row(
                counts,
                cap,
                extra,
            ),
    decreases counts.len(),
{
    let init = counts.drop_last();
    let last = counts.len() - 1;
    assert(capped(counts[last], cap) >= 0);
    if init.len() == 0 {
        assert(longest_row(init, cap, extra) == 0);
    }
    if longest_row(init, cap, extra) < capped(counts[last], cap) + extra || init.len() == 0 {
        assert(capped(counts[last], cap) + extra == longest_row(counts, cap, extra));
    } else {
        lemma_longest_is_one(init, cap, extra);
        let i = choose|i: int|
            0 <= i < init.len() && capped(#[trigger] init[i], cap) + extra == longest_row(
                init,
                cap,
                extra,
            );
        assert(counts[i] == init[i]);
    }
}

/// The rows of a matrix stand one behind the other, each as wide as the matrix.
proof fn lemma_matrix_row(
    opts: PadTruncate,
    flat: Seq<u32>,
    counts: Seq<int>,
    width: int,
    n: int,
    i: int,
)
    requires
        0 <= i < n <= counts.len(),
        forall|k: int| 0 <= k < counts.len() ==> 0 <= #[trigger] counts[k],
        sum(counts) <= flat.len(),
        opts.cap() matches Some(c) ==> 0 <= c,
        longest_row(counts, opts.cap(), opts.extra()) <= width,
    ensures
        opts.matrix(flat, counts.take(n), width).len() == n * width,
        0 <= i * width,
        i * width + width <= n * width,
        opts.matrix(flat, counts.take(n), width).subrange(i * width, i * width + width) == opts.row(
            flat,
            sum(counts.take(i)),
            counts[i],
            width,
        ),
    decreases n,
{
    let t = counts.take(n);
    let before = opts.matrix(flat, counts.take(n - 1), width);
    let last = opts.row(flat, sum(counts.take(n - 1)), counts[n - 1], width);
    assert(t.drop_last() =~= counts.take(n - 1));
    assert(t.last() == counts[n - 1]);
    lemma_row_place(counts, flat.len() as int, n - 1);
    lemma_longest_bounds(counts, opts.cap(), opts.extra(), n - 1);
    assert(last.len() == width);
    assert(opts.matrix(flat, t, width) == before + last);
    assert((n - 1) * width + width == n * width) by (nonlinear_arith);
    assert(0 <= width);
    if n == 1 {
        assert(counts.take(0) =~= Seq::<int>::empty());
        assert(0 * width == 0) by (nonlinear_arith);
        assert((before + last).subrange(0, width) =~= last);
    } else if i == n - 1 {
        lemma_matrix_row(opts, flat, counts, width, n - 1, 0);
        assert(0 <= (n - 1) * width) by (nonlinear_arith)
            requires
                0 <= width,
                1 <= n,
        ;
        assert((before + last).subrange((n - 1) * width, (n - 1) * width + width) =~= last);
    } else {
        lemma_matrix_row(opts, flat, counts, width, n - 1, i);
        assert((before + last).subrange(i * width, i * width + width) =~= before.subrange(
            i * width,
            i * width + width,
        ));
    }
}

/// A cell of a row.
proof fn lemma_row_cell(
    opts: PadTruncate,
    flat: Seq<u32>,
    at: int,
    n: int,
    width: int,
    k: int,
    j: int,
)
    requires
        0 <= at,
        0 <= k <= n,
        at + n <= flat.len(),
        k == capped(n, opts.cap()),
        k + opts.extra() <= width,
        0 <= j < width,
    ensures
        ({
            let p = opts.prefix@.len() as int;
            let q = opts.suffix@.len() as int;
            let from = if opts.truncate_left {
                at + n - k
            } else {
                at
            };
            let start = if opts.pad_left {
                width - (p + k + q)
            } else {
                0
            };
            let cell = opts.row(flat, at, n, width)[j];
            &&& j < start ==> cell == opts.pad_id
            &&& start <= j < start + p ==> cell == opts.prefix@[j - start]
            &&& start + p <= j < start + p + k ==> cell == flat[from + j - start - p]
            &&& start + p + k <= j < start + p + k + q ==> cell == opts.suffix@[j - start - p - k]
            &&& start + p + k + q <= j ==> cell == opts.pad_id
        }),
{
}

/// A cell of a matrix is a cell of a row.
proof fn lemma_matrix_cell(
    opts: PadTruncate,
    flat: Seq<u32>,
    counts: Seq<int>,
    width: int,
    i: int,
    j: int,
)
    requires
        0 <= i < counts.len(),
        forall|k: int| 0 <= k < counts.len() ==> 0 <= #[trigger] counts[k],
        sum(counts) <= flat.len(),
        opts.cap() matches Some(c) ==> 0 <= c,
        longest_row(counts, opts.cap(), opts.extra()) <= width,
        0 <= j < width,
    ensures
        opts.matrix(flat, counts, width).len() == counts.len() * width,
        0 <= i * width + j < counts.len() * width,
        opts.matrix(flat, counts, width)[i * width + j] == opts.row(
            flat,
            sum(counts.take(i)),
            counts[i],
            width,
        )[j],
{
    assert(counts.take(counts.len() as int) =~= counts);
    lemma_matrix_row(opts, flat, counts, width, counts.len() as int, i);
    let data = opts.matrix(flat, counts, width);
    assert(data.subrange(i * width, i * width + width)[j] == data[i * width + j]);
}

/// Every cell of a padded matrix. Row `i` keeps `k` of its `n` tokens: all of them
/// or, where rows are truncated, no more than `max_length` leaves beside prefix and
/// suffix. The kept tokens are the first of the row, or with `truncate_left` the last;
/// before them stands the prefix, behind them the suffix, and what is left of the row
/// is padding, at its end or with `pad_left` at its start.
pub proof fn lemma_matrix_cells(
    opts: PadTruncate,
    flat: Seq<u32>,
    counts: Seq<int>,
    width: int,
    i: int,
    j: int,
)
    requires
        forall|k: int| 0 <= k < counts.len() ==> 0 <= #[trigger] counts[k],
        sum(counts) <= flat.len(),
        opts.width(counts) == Ok::<int, PadError>(width),
        0 <= i < counts.len(),
        0 <= j < width,
    ensures
        ({
            let p = opts.prefix@.len() as int;
            let q = opts.suffix@.len() as int;
            let n = counts[i];
            let k = if opts.truncate && opts.max_length->0 - p - q < n {
                opts.max_length->0 - p - q
            } else {
                n
            };
            let at = sum(counts.take(i));
            let from = if opts.truncate_left {
                at + n - k
            } else {
                at
            };
            let start = if opts.pad_left {
                width - (p + k + q)
            } else {
                0
            };
            let data = opts.matrix(flat, counts, width);
            let cell = data[i * width + j];
            &&& data.len() == counts.len() * width
            &&& 0 <= i * width + j < data.len()
            &&& sum(counts.take(0)) == 0
            &&& sum(counts.take(i + 1)) == at + n
            &&& 0 <= k <= n
            &&& p + k + q <= width
            &&& opts.lengths(counts)[i] == (p + k + q) as i64
            &&& j < start ==> cell == opts.pad_id
            &&& start <= j < start + p ==> cell == opts.prefix@[j - start]
            &&& start + p <= j < start + p + k ==> cell == flat[from + j - start - p]
            &&& start + p + k <= j < start + p + k + q ==> cell == opts.suffix@[j - start - p - k]
            &&& start + p + k + q <= j ==> cell == opts.pad_id
        }),
{
    assert(longest_row(counts, opts.cap(), opts.extra()) <= width);
    lemma_matrix_cell(opts, flat, counts, width, i, j);
    lemma_row_place(counts, flat.len() as int, i);
    lemma_longest_bounds(counts, opts.cap(), opts.extra(), i);
    lemma_row_cell(
        opts,
        flat,
        sum(counts.take(i)),
        counts[i],
        width,
        capped(counts[i], opts.cap()),
        j,
    );
}

/// How wide a padded matrix is: `max_length` where rows are padded to it, else as
/// wide as some row is long. No row is longer.
pub proof fn lemma_matrix_width(opts: PadTruncate, counts: Seq<int>, width: int)
    requires
        forall|k: int| 0 <= k < counts.len() ==> 0 <= #[trigger] counts[k],
        opts.width(counts) == Ok::<int, PadError>(width),
    ensures
        opts.pad_to_max_length ==> opts.max_length == Some(width as usize),
        !opts.pad_to_max_length && counts.len() == 0 ==> width == 0,
        !opts.pad_to_max_length && counts.len() > 0 ==> exists|i: int|
            0 <= i < counts.len() && #[trigger] opts.lengths(counts)[i] == width as i64,
        opts.truncate ==> opts.max_length is Some && (counts.len() > 0 ==> opts.pad_to_max_length
            || width <= opts.max_length->0),
{
    if counts.len() > 0 {
        lemma_longest_is_one(counts, opts.cap(), opts.extra());
        let i = choose|i: int|
            0 <= i < counts.len() && capped(#[trigger] counts[i], opts.cap()) + opts.extra()
                == longest_row(counts, opts.cap(), opts.extra());
        assert(opts.lengths(counts)[i] == (capped(counts[i], opts.cap()) + opts.extra()) as i64);
    }
}

/// When a batch can be padded, and why it cannot: truncation and padding to a length
/// need one, the length holds prefix and suffix, and a row that is padded to it is no
/// longer.
pub proof fn lemma_matrix_owed(opts: PadTruncate, counts: Seq<int>)
    requires
        forall|k: int| 0 <= k < counts.len() ==> 0 <= #[trigger] counts[k],
        sum(counts) + opts.prefix@.len() + opts.suffix@.len() <= usize::MAX,
    ensures
        opts.width(counts) is Ok <==> {
            &&& opts.truncate || opts.pad_to_max_length ==> opts.max_length is Some
            &&& opts.truncate ==> opts.prefix@.len() + opts.suffix@.len() <= opts.max_length->0
            &&& opts.pad_to_max_length && !opts.truncate ==> forall|i: int|
                0 <= i < counts.len() ==> (#[trigger] counts[i]) + opts.prefix@.len()
                    + opts.suffix@.len() <= opts.max_length->0
        },
        opts.truncate && opts.max_length is None ==> opts.width(counts) == Err::<int, PadError>(
            PadError::TruncateNeedsMaxLength,
        ),
        opts.pad_to_max_length && opts.max_length is None && !opts.truncate ==> opts.width(counts)
            == Err::<int, PadError>(PadError::PadNeedsMaxLength),
{
    let cap = opts.cap();
    let extra = opts.extra();
    if counts.len() > 0 && (cap matches Some(c) ==> 0 <= c) {
        lemma_longest_is_one(counts, cap, extra);
        assert forall|i: int| 0 <= i < counts.len() implies capped(#[trigger] counts[i], cap) + extra
            <= longest_row(counts, cap, extra) by {
            lemma_longest_bounds(counts, cap, extra, i);
        }
    }
}

/// A wrapped row: prefix, kept tokens, suffix. The kept tokens are all of the row's or,
/// where there is a limit, as many; the first ones, or with `truncate_left` the last.
pub proof fn lemma_wrapped_row(opts: WrapTruncate, flat: Seq<u32>, counts: Seq<int>, i: int)
    requires
        forall|k: int| 0 <= k < counts.len() ==> 0 <= #[trigger] counts[k],
        sum(counts) <= flat.len(),
        0 <= i < counts.len(),
    ensures
        ({
            let p = opts.prefix@.len() as int;
            let q = opts.suffix@.len() as int;
            let n = counts[i];
            let k = if opts.max_tokens is Some && opts.max_tokens->0 < n {
                opts.max_tokens->0 as int
            } else {
                n
            };
            let at = sum(counts.take(i));
            let from = if opts.truncate_left {
                at + n - k
            } else {
                at
            };
            let row = opts.row(flat, counts, i);
            &&& sum(counts.take(0)) == 0
            &&& sum(counts.take(i + 1)) == at + n
            &&& row.len() == p + k + q
            &&& forall|j: int| 0 <= j < p ==> #[trigger] row[j] == opts.prefix@[j]
            &&& forall|j: int| 0 <= j < k ==> #[trigger] row[p + j] == flat[from + j]
            &&& forall|j: int| 0 <= j < q ==> #[trigger] row[p + k + j] == opts.suffix@[j]
        }),
{
    lemma_row_place(counts, flat.len() as int, i);
}

} // verus!
