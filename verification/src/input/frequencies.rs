//! Counting the pretokens of a table: rows of a text and how often it occurs.

use vstd::prelude::*;

use crate::byte_map::ByteMap;
use crate::pretokenize::counts::{counted, lemma_occurrences_concat, occurrences, sums};
use crate::pretokenize::gpt2::pretokens;
use crate::pretokenize::r50k::pretokenize_as_iter;

verus! {

/// A row: its text and its frequency, where it has them.
pub type Row = (Option<Seq<u8>>, Option<i64>);

/// The contents of rows.
pub open spec fn row_views(rows: Seq<(Option<Vec<u8>>, Option<i64>)>) -> Seq<Row> {
    rows.map_values(
        |r: (Option<Vec<u8>>, Option<i64>)|
            match r.0 {
                Some(text) => (Some(text@), r.1),
                None => (None, r.1),
            },
    )
}

/// How often a text counts: by its frequency, or once.
pub open spec fn weight(frequency: Option<i64>) -> usize {
    match frequency {
        Some(f) => f as usize,
        None => 1,
    }
}

/// What a row adds to the count of a pretoken: a row without a text adds nothing.
pub open spec fn row_adds(row: Row, p: Seq<u8>) -> nat {
    match row.0 {
        Some(text) => weight(row.1) as nat * occurrences(pretokens(text), p),
        None => 0,
    }
}

/// Whether the text of a row has a pretoken.
pub open spec fn row_has(row: Row, p: Seq<u8>) -> bool {
    match row.0 {
        Some(text) => occurrences(pretokens(text), p) > 0,
        None => false,
    }
}

/// What rows add to the count of a pretoken.
pub open spec fn rows_add(rows: Seq<Row>, p: Seq<u8>) -> nat
    decreases rows.len(),
{
    if rows.len() == 0 {
        0
    } else {
        rows_add(rows.drop_last(), p) + row_adds(rows.last(), p)
    }
}

/// Whether a text of the rows has a pretoken.
pub open spec fn rows_have(rows: Seq<Row>, p: Seq<u8>) -> bool
    decreases rows.len(),
{
    rows.len() > 0 && (rows_have(rows.drop_last(), p) || row_has(rows.last(), p))
}

/// Whether counts are those of rows: a pretoken has a count where a text has it.
pub open spec fn counts_rows(counts: Map<Seq<u8>, usize>, rows: Seq<Row>) -> bool {
    forall|p: Seq<u8>| #[trigger]
        counted(counts, p) == rows_add(rows, p) && (counts.contains_key(p) <==> rows_have(rows, p))
}

/// Whether counts are those of before with the pretokens of a list added, each
/// `f` times.
pub open spec fn adds_weighted(
    before: Map<Seq<u8>, usize>,
    after: Map<Seq<u8>, usize>,
    ps: Seq<Seq<u8>>,
    f: nat,
) -> bool {
    forall|p: Seq<u8>| #[trigger]
        counted(after, p) == counted(before, p) + f * occurrences(ps, p) && (after.contains_key(p)
            <==> before.contains_key(p) || occurrences(ps, p) > 0)
}

/// Rows add more the more there are.
proof fn lemma_rows_grow(rows: Seq<Row>, n: int, p: Seq<u8>)
    requires
        0 <= n <= rows.len(),
    ensures
        rows_add(rows.take(n), p) <= rows_add(rows, p),
    decreases rows.len() - n,
{
    if n == rows.len() {
        assert(rows.take(n) =~= rows);
    } else {
        lemma_rows_grow(rows, n + 1, p);
        assert(rows.take(n + 1).drop_last() =~= rows.take(n));
    }
}

/// Count the pretokens of a document, each `f` times.
fn count_weighted(doc: &[u8], f: usize, counts: &mut ByteMap<usize>)
    requires
        old(counts).wf(),
        forall|p: Seq<u8>| #[trigger]
            counted(old(counts)@, p) + f as nat * occurrences(pretokens(doc@), p) <= usize::MAX,
    ensures
        final(counts).wf(),
        adds_weighted(old(counts)@, final(counts)@, pretokens(doc@), f as nat),
{
    let ghost before = counts@;
    let ghost all = pretokens(doc@);
    let ghost w = f as nat;
    let ghost mut done: Seq<Seq<u8>> = Seq::empty();
    let mut it = pretokenize_as_iter(doc);
    let mut more: bool = true;
    assert(done + all =~= all);
    assert(w * 0 == 0) by (nonlinear_arith);
    while more
        invariant
            w == f as nat,
            counts.wf(),
            it.doc() == doc@,
            all == pretokens(doc@),
            all == done + it.remaining(),
            !more ==> done == all,
            adds_weighted(before, counts@, done, w),
            forall|p: Seq<u8>| #[trigger]
                counted(before, p) + w * occurrences(all, p) <= usize::MAX,
        decreases it.remaining().len() + if more {
            1int
        } else {
            0
        },
    {
        let ghost left = it.remaining();
        match it.next() {
            None => {
                more = false;
                assert(done + left =~= done);
            },
            Some(pretoken) => {
                let ghost p = pretoken@;
                let ghost now = counts@;
                let ghost next = done.push(p);
                let ghost k = occurrences(done, p);
                proof {
                    assert(all =~= next + it.remaining());
                    assert(next.drop_last() =~= done);
                    lemma_occurrences_concat(next, it.remaining(), p);
                    let m = occurrences(all, p);
                    assert(counted(now, p) == counted(before, p) + w * k);
                    assert(counted(before, p) + w * m <= usize::MAX);
                    assert(w * k + w <= w * m) by (nonlinear_arith)
                        requires
                            k + 1 <= m,
                    ;
                }
                let n: usize = match counts.get(pretoken.0) {
                    Some(n) => n,
                    None => 0,
                };
                counts.insert(pretoken.0, n + f);
                proof {
                    assert(w * (k + 1) == w * k + w) by (nonlinear_arith);
                    assert forall|q: Seq<u8>| #[trigger]
                        counted(counts@, q) == counted(before, q) + w * occurrences(next, q) && (
                        counts@.contains_key(q) <==> before.contains_key(q) || occurrences(next, q)
                            > 0) by {
                        assert(counted(now, q) == counted(before, q) + w * occurrences(done, q));
                    }
                    done = next;
                }
            },
        }
    }
}

/// Count the pretokens of the texts of rows, each text as often as its
/// frequency says.
pub fn count_rows(rows: &[(Option<Vec<u8>>, Option<i64>)]) -> (counts: ByteMap<usize>)
    requires
        forall|p: Seq<u8>| #[trigger] rows_add(row_views(rows@), p) <= usize::MAX,
    ensures
        counts.wf(),
        counts_rows(counts@, row_views(rows@)),
{
    let ghost views = row_views(rows@);
    let mut counts: ByteMap<usize> = ByteMap::new();
    assert(views.take(0) =~= Seq::<Row>::empty());
    for i in 0..rows.len()
        invariant
            views == row_views(rows@),
            counts.wf(),
            counts_rows(counts@, views.take(i as int)),
            forall|p: Seq<u8>| #[trigger] rows_add(views, p) <= usize::MAX,
    {
        let ghost now = counts@;
        let ghost next = views.take(i as int + 1);
        assert(next.drop_last() =~= views.take(i as int));
        assert(next.last() == views[i as int]);
        if let Some(text) = &rows[i].0 {
            let f: usize = match rows[i].1 {
                Some(f) => f as usize,
                None => 1,
            };
            proof {
                assert forall|p: Seq<u8>| #[trigger]
                    counted(now, p) + f as nat * occurrences(pretokens(text@), p) <= usize::MAX by {
                    lemma_rows_grow(views, i as int + 1, p);
                    assert(counted(now, p) == rows_add(views.take(i as int), p));
                    assert(rows_add(views, p) <= usize::MAX);
                }
            }
            count_weighted(text.as_slice(), f, &mut counts);
            proof {
                assert forall|p: Seq<u8>| #[trigger]
                    counted(counts@, p) == rows_add(next, p) && (counts@.contains_key(p)
                        <==> rows_have(next, p)) by {
                    assert(counted(now, p) == rows_add(views.take(i as int), p));
                    assert(counted(counts@, p) == counted(now, p) + f as nat * occurrences(
                        pretokens(text@),
                        p,
                    ));
                }
            }
        } else {
            proof {
                assert forall|p: Seq<u8>| #[trigger]
                    counted(counts@, p) == rows_add(next, p) && (counts@.contains_key(p)
                        <==> rows_have(next, p)) by {
                    assert(counted(now, p) == rows_add(views.take(i as int), p));
                }
            }
        }
    }
    assert(views.take(views.len() as int) =~= views);
    counts
}

/// The rows of two tables, one after the other, add what both add.
proof fn lemma_rows_concat(a: Seq<Row>, b: Seq<Row>, p: Seq<u8>)
    ensures
        rows_add(a + b, p) == rows_add(a, p) + rows_add(b, p),
        rows_have(a + b, p) <==> rows_have(a, p) || rows_have(b, p),
    decreases b.len(),
{
    if b.len() == 0 {
        assert(a + b =~= a);
    } else {
        assert((a + b).drop_last() =~= a + b.drop_last());
        assert((a + b).last() == b.last());
        lemma_rows_concat(a, b.drop_last(), p);
    }
}

/// Counting rows in parts and adding up counts as counting all at once does.
pub proof fn lemma_rows_in_parts(
    a: Map<Seq<u8>, usize>,
    b: Map<Seq<u8>, usize>,
    sum: Map<Seq<u8>, usize>,
    xs: Seq<Row>,
    ys: Seq<Row>,
)
    requires
        counts_rows(a, xs),
        counts_rows(b, ys),
        sums(a, b, sum),
    ensures
        counts_rows(sum, xs + ys),
{
    assert forall|p: Seq<u8>| #[trigger]
        counted(sum, p) == rows_add(xs + ys, p) && (sum.contains_key(p) <==> rows_have(xs + ys, p)) by {
        lemma_rows_concat(xs, ys, p);
        assert(counted(a, p) == rows_add(xs, p));
        assert(counted(b, p) == rows_add(ys, p));
        assert(counted(sum, p) == counted(a, p) + counted(b, p));
    }
}

/// Rows per part: enough that `n` parts hold `len` rows.
pub open spec fn part_rows(len: int, n: int) -> int {
    (len + n - 1) / n
}

/// Where part `i` of a table starts.
pub open spec fn part_start(len: int, n: int, i: int) -> int {
    if i * part_rows(len, n) < len {
        i * part_rows(len, n)
    } else {
        len
    }
}

/// Cut the rows of a table into `n` parts of equal size; the last ones may be
/// shorter, or empty.
pub fn row_parts(len: usize, n: usize) -> (parts: Vec<(usize, usize)>)
    requires
        n > 0,
    ensures
        parts@.len() == n,
        forall|i: int|
            0 <= i < n ==> (#[trigger] parts@[i]).0 == part_start(len as int, n as int, i)
                && parts@[i].1 == part_start(len as int, n as int, i + 1),
{
    let rest: usize = len % n;
    proof {
        lemma_part_rows(len as int, n as int);
        assert(0 * part_rows(len as int, n as int) == 0) by (nonlinear_arith);
        let q = len as int / n as int;
        vstd::arithmetic::div_mod::lemma_fundamental_div_mod(len as int, n as int);
        assert(rest != 0 ==> q < len) by (nonlinear_arith)
            requires
                n * q + rest == len,
                n > 0,
                q >= 0,
                0 <= rest,
        ;
    }
    let size: usize = if rest == 0 {
        len / n
    } else {
        len / n + 1
    };
    let mut parts: Vec<(usize, usize)> = Vec::with_capacity(n);
    let mut start: usize = 0;
    for i in 0..n
        invariant
            size == part_rows(len as int, n as int),
            start == part_start(len as int, n as int, i as int),
            parts@.len() == i,
            forall|k: int|
                0 <= k < i ==> (#[trigger] parts@[k]).0 == part_start(len as int, n as int, k)
                    && parts@[k].1 == part_start(len as int, n as int, k + 1),
    {
        let end: usize = if len - start > size {
            start + size
        } else {
            len
        };
        assert((i + 1) * size == i * size + size) by (nonlinear_arith);
        assert(size == 0 ==> i * size == 0) by (nonlinear_arith);
        parts.push((start, end));
        start = end;
    }
    parts
}

proof fn lemma_part_rows(len: int, n: int)
    requires
        n > 0,
        len >= 0,
    ensures
        part_rows(len, n) == if len % n == 0 {
            len / n
        } else {
            len / n + 1
        },
        part_rows(len, n) * n >= len,
{
    vstd::arithmetic::div_mod::lemma_fundamental_div_mod(len, n);
    let q = len / n;
    let r = len % n;
    assert((q + 1) * n == n * q + n) by (nonlinear_arith);
    assert(q * n == n * q) by (nonlinear_arith);
    if r == 0 {
        vstd::arithmetic::div_mod::lemma_fundamental_div_mod_converse(len + n - 1, n, q, n - 1);
    } else {
        vstd::arithmetic::div_mod::lemma_fundamental_div_mod_converse(len + n - 1, n, q + 1, r - 1);
    }
}

/// The parts hold every row once: the first starts at the first row, each ends
/// where the next starts, and the last ends at the last row.
pub proof fn lemma_parts_cover(len: int, n: int)
    requires
        len >= 0,
        n > 0,
    ensures
        part_start(len, n, 0) == 0,
        part_start(len, n, n) == len,
        forall|i: int|
            0 <= i < n ==> #[trigger] part_start(len, n, i) <= part_start(len, n, i + 1) <= len,
{
    lemma_part_rows(len, n);
    let size = part_rows(len, n);
    assert(0 * size == 0) by (nonlinear_arith);
    assert(size >= 0) by (nonlinear_arith)
        requires
            size * n >= len,
            len >= 0,
            n > 0,
    ;
    assert(n * size == size * n) by (nonlinear_arith);
    assert forall|i: int| 0 <= i < n implies #[trigger] part_start(len, n, i) <= part_start(
        len,
        n,
        i + 1,
    ) <= len by {
        assert((i + 1) * size == i * size + size) by (nonlinear_arith);
    }
}

} // verus!
