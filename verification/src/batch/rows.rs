//! Token output of chunks, and its assembly into rows.

use vstd::prelude::*;


verus! {

/// Token output of one chunk: a flat id buffer plus one length per document row.
/// `continues` means the first length extends the previous chunk's last row (a
/// non-first fragment of a split document).
pub struct ChunkTokens {
    pub ids: Vec<u32>,
    pub lens: Vec<i64>,
    pub continues: bool,
}

/// Row lengths of a chunk, and whether the first goes on with the row before.
pub type Lens = (Seq<int>, bool);

/// Row lengths as integers.
pub open spec fn int_lens(lens: Seq<i64>) -> Seq<int> {
    lens.map_values(|l: i64| l as int)
}

impl ChunkTokens {
    /// The row lengths.
    pub open spec fn rows(self) -> Lens {
        (int_lens(self.lens@), self.continues)
    }
}

/// The row lengths of chunks.
pub open spec fn lens_of(chunks: Seq<ChunkTokens>) -> Seq<Lens> {
    chunks.map_values(|c: ChunkTokens| c.rows())
}

/// Rows with those of one more chunk.
pub open spec fn more_rows(rows: Seq<int>, chunk: Lens) -> Seq<int> {
    if chunk.1 && chunk.0.len() > 0 {
        rows.update(rows.len() - 1, rows.last() + chunk.0[0]) + chunk.0.skip(1)
    } else {
        rows + chunk.0
    }
}

/// The row lengths of documents: those of the chunks, with each continuation
/// added to the row that it goes on with.
pub open spec fn rows_of(chunks: Seq<Lens>) -> Seq<int>
    decreases chunks.len(),
{
    if chunks.len() == 0 {
        Seq::empty()
    } else {
        more_rows(rows_of(chunks.drop_last()), chunks.last())
    }
}

/// Whether no continuation comes before any row.
pub open spec fn well_started(chunks: Seq<Lens>) -> bool {
    forall|k: int|
        0 <= k < chunks.len() && (#[trigger] chunks[k]).1 && chunks[k].0.len() > 0 ==> rows_of(
            chunks.take(k),
        ).len() > 0
}

/// The sum of numbers.
pub open spec fn sum(v: Seq<int>) -> int
    decreases v.len(),
{
    if v.len() == 0 {
        0
    } else {
        sum(v.drop_last()) + v.last()
    }
}

/// The sum of all row lengths of chunks.
pub open spec fn sum_lens(chunks: Seq<Lens>) -> int
    decreases chunks.len(),
{
    if chunks.len() == 0 {
        0
    } else {
        sum_lens(chunks.drop_last()) + sum(chunks.last().0)
    }
}

/// Whether every row length is a length, and all of them together fit.
pub open spec fn lens_fit(chunks: Seq<Lens>) -> bool {
    &&& forall|k: int, i: int|
        0 <= k < chunks.len() && 0 <= i < chunks[k].0.len() ==> 0 <= #[trigger] chunks[k].0[i]
    &&& sum_lens(chunks) <= i64::MAX
}

pub proof fn lemma_sum_concat(a: Seq<int>, b: Seq<int>)
    ensures
        sum(a + b) == sum(a) + sum(b),
    decreases b.len(),
{
    if b.len() == 0 {
        assert(a + b =~= a);
    } else {
        assert((a + b).drop_last() =~= a + b.drop_last());
        lemma_sum_concat(a, b.drop_last());
    }
}

proof fn lemma_sum_update(v: Seq<int>, i: int, x: int)
    requires
        0 <= i < v.len(),
    ensures
        sum(v.update(i, x)) == sum(v) - v[i] + x,
    decreases v.len(),
{
    let t = v.update(i, x);
    if i == v.len() - 1 {
        assert(t.drop_last() =~= v.drop_last());
    } else {
        assert(t.drop_last() =~= v.drop_last().update(i, x));
        lemma_sum_update(v.drop_last(), i, x);
    }
}

/// A sum of numbers that are not negative is at least each of them.
pub proof fn lemma_sum_bounds(v: Seq<int>, i: int)
    requires
        0 <= i < v.len(),
        forall|k: int| 0 <= k < v.len() ==> 0 <= #[trigger] v[k],
    ensures
        v[i] <= sum(v),
    decreases v.len(),
{
    let init = v.drop_last();
    assert forall|k: int| 0 <= k < init.len() implies 0 <= #[trigger] init[k] by {
        assert(init[k] == v[k]);
    }
    lemma_sum_nonnegative(init);
    if i < init.len() {
        lemma_sum_bounds(init, i);
        assert(v[v.len() - 1] >= 0);
    }
}

pub proof fn lemma_sum_nonnegative(v: Seq<int>)
    requires
        forall|k: int| 0 <= k < v.len() ==> 0 <= #[trigger] v[k],
    ensures
        0 <= sum(v),
    decreases v.len(),
{
    if v.len() > 0 {
        let init = v.drop_last();
        assert forall|k: int| 0 <= k < init.len() implies 0 <= #[trigger] init[k] by {
            assert(init[k] == v[k]);
        }
        lemma_sum_nonnegative(init);
        assert(v[v.len() - 1] >= 0);
    }
}

/// The rows of one more chunk hold its lengths on top.
proof fn lemma_more_rows_sum(rows: Seq<int>, chunk: Lens)
    requires
        chunk.1 && chunk.0.len() > 0 ==> rows.len() > 0,
        forall|k: int| 0 <= k < rows.len() ==> 0 <= #[trigger] rows[k],
        forall|k: int| 0 <= k < chunk.0.len() ==> 0 <= #[trigger] chunk.0[k],
    ensures
        sum(more_rows(rows, chunk)) == sum(rows) + sum(chunk.0),
        forall|k: int|
            0 <= k < more_rows(rows, chunk).len() ==> 0 <= #[trigger] more_rows(rows, chunk)[k],
{
    let all = more_rows(rows, chunk);
    if chunk.1 && chunk.0.len() > 0 {
        let n = rows.len() - 1;
        let x = rows.last() + chunk.0[0];
        let t = rows.update(n, x);
        let rest = chunk.0.skip(1);
        lemma_sum_update(rows, n, x);
        lemma_sum_concat(t, rest);
        assert(chunk.0 =~= seq![chunk.0[0]] + rest);
        lemma_sum_concat(seq![chunk.0[0]], rest);
        assert(seq![chunk.0[0]].drop_last() =~= Seq::<int>::empty());
        assert(sum(seq![chunk.0[0]]) == chunk.0[0]) by {
            assert(sum(Seq::<int>::empty()) == 0);
        }
        assert forall|k: int| 0 <= k < all.len() implies 0 <= #[trigger] all[k] by {
            assert(rows[n] >= 0);
            if k >= rows.len() {
                assert(all[k] == chunk.0[k - rows.len() + 1]);
            } else if k < n {
                assert(all[k] == rows[k]);
            }
        }
    } else {
        lemma_sum_concat(rows, chunk.0);
        assert forall|k: int| 0 <= k < all.len() implies 0 <= #[trigger] all[k] by {
            if k < rows.len() {
                assert(all[k] == rows[k]);
            } else {
                assert(all[k] == chunk.0[k - rows.len()]);
            }
        }
    }
}

/// Of chunks whose lengths fit, the first ones' do.
proof fn lemma_fit_prefix(chunks: Seq<Lens>, k: int)
    requires
        0 <= k <= chunks.len(),
        lens_fit(chunks),
        well_started(chunks),
    ensures
        sum_lens(chunks.take(k)) <= sum_lens(chunks),
        sum(rows_of(chunks.take(k))) == sum_lens(chunks.take(k)),
        forall|i: int|
            0 <= i < rows_of(chunks.take(k)).len() ==> 0 <= #[trigger] rows_of(chunks.take(k))[i],
    decreases k,
{
    let t = chunks.take(k);
    lemma_sum_prefix(chunks, k);
    if k > 0 {
        lemma_fit_prefix(chunks, k - 1);
        assert(t.drop_last() =~= chunks.take(k - 1));
        assert(t.last() == chunks[k - 1]);
        assert forall|i: int| 0 <= i < chunks[k - 1].0.len() implies 0 <= #[trigger] chunks[k
            - 1].0[i] by {}
        lemma_more_rows_sum(rows_of(chunks.take(k - 1)), chunks[k - 1]);
    }
}

proof fn lemma_sum_prefix(chunks: Seq<Lens>, k: int)
    requires
        0 <= k <= chunks.len(),
        lens_fit(chunks),
    ensures
        sum_lens(chunks.take(k)) <= sum_lens(chunks),
    decreases chunks.len() - k,
{
    if k < chunks.len() {
        lemma_sum_prefix(chunks, k + 1);
        let t = chunks.take(k + 1);
        assert(t.drop_last() =~= chunks.take(k));
        assert(t.last() == chunks[k]);
        assert forall|i: int| 0 <= i < chunks[k].0.len() implies 0 <= #[trigger] chunks[k].0[i] by {}
        lemma_sum_nonnegative(chunks[k].0);
    } else {
        assert(chunks.take(k) =~= chunks);
    }
}

/// The lengths of one chunk are at most those of all.
pub proof fn lemma_sum_part(chunks: Seq<Lens>, k: int)
    requires
        0 <= k < chunks.len(),
        lens_fit(chunks),
    ensures
        sum(chunks[k].0) <= sum_lens(chunks),
{
    lemma_sum_prefix(chunks, k + 1);
    lemma_sums_nonnegative(chunks, k);
    let t = chunks.take(k + 1);
    assert(t.drop_last() =~= chunks.take(k));
    assert(t.last() == chunks[k]);
}

proof fn lemma_sums_nonnegative(chunks: Seq<Lens>, k: int)
    requires
        0 <= k <= chunks.len(),
        lens_fit(chunks),
    ensures
        0 <= sum_lens(chunks.take(k)),
    decreases k,
{
    if k > 0 {
        lemma_sums_nonnegative(chunks, k - 1);
        let t = chunks.take(k);
        assert(t.drop_last() =~= chunks.take(k - 1));
        assert(t.last() == chunks[k - 1]);
        assert forall|i: int| 0 <= i < chunks[k - 1].0.len() implies 0 <= #[trigger] chunks[k
            - 1].0[i] by {}
        lemma_sum_nonnegative(chunks[k - 1].0);
    }
}

/// How many rows chunks have rests on how many each has and on which of them go
/// on, not on how long the rows are.
pub proof fn lemma_same_shape(a: Seq<Lens>, b: Seq<Lens>)
    requires
        a.len() == b.len(),
        forall|k: int|
            0 <= k < a.len() ==> (#[trigger] a[k]).0.len() == b[k].0.len() && a[k].1 == b[k].1,
        well_started(a),
    ensures
        rows_of(a).len() == rows_of(b).len(),
        well_started(b),
{
    assert forall|k: int| 0 <= k <= a.len() implies rows_of(#[trigger] a.take(k)).len() == rows_of(
        b.take(k),
    ).len() by {
        lemma_same_rows(a, b, k);
    }
    assert(a.take(a.len() as int) =~= a);
    assert(b.take(b.len() as int) =~= b);
    assert forall|k: int|
        0 <= k < b.len() && (#[trigger] b[k]).1 && b[k].0.len() > 0 implies rows_of(
        b.take(k),
    ).len() > 0 by {
        assert(a[k].1 && a[k].0.len() > 0);
        assert(rows_of(a.take(k)).len() > 0);
    }
}

proof fn lemma_same_rows(a: Seq<Lens>, b: Seq<Lens>, n: int)
    requires
        0 <= n <= a.len(),
        a.len() == b.len(),
        forall|k: int|
            0 <= k < a.len() ==> (#[trigger] a[k]).0.len() == b[k].0.len() && a[k].1 == b[k].1,
        well_started(a),
    ensures
        rows_of(a.take(n)).len() == rows_of(b.take(n)).len(),
    decreases n,
{
    if n > 0 {
        lemma_same_rows(a, b, n - 1);
        assert(a.take(n).drop_last() =~= a.take(n - 1));
        assert(b.take(n).drop_last() =~= b.take(n - 1));
        assert(a.take(n).last() == a[n - 1]);
        assert(b.take(n).last() == b[n - 1]);
        assert(a[n - 1].1 && a[n - 1].0.len() > 0 ==> rows_of(a.take(n - 1)).len() > 0);
    }
}

/// Concatenate per-chunk row lengths into per-document row counts, merging
/// `continues` fragments into the previous document's row.
pub fn row_counts(chunks: &[ChunkTokens]) -> (counts: Vec<i64>)
    requires
        well_started(lens_of(chunks@)),
    ensures
        counts@.len() == rows_of(lens_of(chunks@)).len(),
        lens_fit(lens_of(chunks@)) ==> int_lens(counts@) == rows_of(lens_of(chunks@)),
{
    let ghost all = lens_of(chunks@);
    let mut counts: Vec<i64> = Vec::new();
    assert(all.take(0) =~= Seq::<Lens>::empty());
    assert(int_lens(counts@) =~= rows_of(all.take(0)));
    for i in 0..chunks.len()
        invariant
            all == lens_of(chunks@),
            well_started(all),
            counts@.len() == rows_of(all.take(i as int)).len(),
            lens_fit(all) ==> int_lens(counts@) == rows_of(all.take(i as int)),
    {
        let chunk: &ChunkTokens = &chunks[i];
        let ghost c = all[i as int];
        let ghost before = counts@;
        let ghost rows = rows_of(all.take(i as int));
        proof {
            let t = all.take(i as int + 1);
            assert(t.drop_last() =~= all.take(i as int));
            assert(t.last() == c);
            assert(c == chunk.rows());
            if lens_fit(all) {
                lemma_fit_prefix(all, i as int);
                lemma_fit_prefix(all, i as int + 1);
                assert forall|k: int| 0 <= k < c.0.len() implies 0 <= #[trigger] c.0[k] by {
                    assert(all[i as int].0[k] >= 0);
                }
                lemma_sum_nonnegative(c.0);
            }
        }
        let mut from: usize = 0;
        let n: usize = chunk.lens.len();
        if chunk.continues && n > 0 {
            let last: usize = counts.len() - 1;
            let x: i64 = counts[last];
            let y: i64 = chunk.lens[0];
            proof {
                if lens_fit(all) {
                    // The sum of a row and its continuation is at most that of all.
                    assert(int_lens(before)[last as int] == x);
                    assert(c.0[0] == y);
                    lemma_sum_bounds(rows, last as int);
                    lemma_sum_bounds(c.0, 0);
                    assert(sum_lens(all.take(i as int + 1)) == sum_lens(all.take(i as int)) + sum(
                        c.0,
                    ));
                    assert(x + y <= i64::MAX);
                }
            }
            counts.set(last, x.wrapping_add(y));
            from = 1;
        }
        let ghost mid = counts@;
        let ghost start = from as int;
        proof {
            let t = if c.1 && c.0.len() > 0 {
                rows.update(rows.len() - 1, rows.last() + c.0[0])
            } else {
                rows
            };
            assert(lens_fit(all) ==> int_lens(mid) =~= t);
            assert(int_lens(chunk.lens@).subrange(start, start) =~= Seq::<int>::empty());
        }
        let mut k: usize = from;
        while k < n
            invariant
                n == chunk.lens@.len(),
                from <= k <= n,
                start == from,
                counts@ == mid + chunk.lens@.subrange(start, k as int),
            decreases n - k,
        {
            counts.push(chunk.lens[k]);
            k = k + 1;
            assert(chunk.lens@.subrange(start, k as int) =~= chunk.lens@.subrange(
                start,
                k as int - 1,
            ).push(chunk.lens@[k as int - 1]));
        }
        proof {
            if from > n {
                assert(false);
            }
            assert(k == n || n < from);
            let tail = chunk.lens@.subrange(start, n as int);
            assert(int_lens(counts@) =~= int_lens(mid) + int_lens(tail));
            assert(int_lens(tail) =~= c.0.skip(start));
            assert(c.0.skip(0) =~= c.0);
        }
    }
    assert(all.take(all.len() as int) =~= all);
    counts
}

/// The ids of chunks, one after the other.
pub open spec fn flat_ids(chunks: Seq<ChunkTokens>) -> Seq<u32>
    decreases chunks.len(),
{
    if chunks.len() == 0 {
        Seq::empty()
    } else {
        flat_ids(chunks.drop_last()) + chunks.last().ids@
    }
}

/// Append ids.
pub fn append_u32(out: &mut Vec<u32>, ids: &[u32])
    ensures
        final(out)@ == old(out)@ + ids@,
{
    let ghost before = out@;
    for i in 0..ids.len()
        invariant
            out@ == before + ids@.take(i as int),
    {
        out.push(ids[i]);
        assert(ids@.take(i as int + 1) =~= ids@.take(i as int).push(ids@[i as int]));
    }
    assert(ids@.take(ids@.len() as int) =~= ids@);
}

/// Copy all chunk id buffers into one flat buffer.
pub fn gather_flat(chunks: &[ChunkTokens]) -> (flat: Vec<u32>)
    ensures
        flat@ == flat_ids(chunks@),
{
    let mut flat: Vec<u32> = Vec::new();
    assert(chunks@.take(0) =~= Seq::<ChunkTokens>::empty());
    for i in 0..chunks.len()
        invariant
            flat@ == flat_ids(chunks@.take(i as int)),
    {
        append_u32(&mut flat, chunks[i].ids.as_slice());
        proof {
            let t = chunks@.take(i as int + 1);
            assert(t.drop_last() =~= chunks@.take(i as int));
            assert(t.last() == chunks@[i as int]);
        }
    }
    assert(chunks@.take(chunks@.len() as int) =~= chunks@);
    flat
}

/// Merge per-chunk outputs into one flat id buffer and per-document row counts.
pub fn assemble_ragged(chunks: Vec<ChunkTokens>) -> (r: (Vec<u32>, Vec<i64>))
    requires
        well_started(lens_of(chunks@)),
    ensures
        r.0@ == flat_ids(chunks@),
        r.1@.len() == rows_of(lens_of(chunks@)).len(),
        lens_fit(lens_of(chunks@)) ==> int_lens(r.1@) == rows_of(lens_of(chunks@)),
{
    let counts: Vec<i64> = row_counts(chunks.as_slice());
    (gather_flat(chunks.as_slice()), counts)
}

} // verus!
