//! Laws: documents found chunk by chunk are the documents of the whole.

use vstd::prelude::*;

use crate::input::documents::{
    chunk_bounds, deduped, docs, docs_from, inner_bounds, lemma_scan_at, lemma_scan_on, scan_at,
};
use crate::input::file_source::{file_ranges, ranges_from, region_docs, DocFormat};
use crate::input::jsonl::{
    all_texts, jsonl_docs, lemma_jsonl_cut, lemma_line_start, line_end, line_start,
};
use crate::search::{first_at, first_byte, lemma_first_at, lemma_first_byte};
use crate::seqs::occurs_at;

verus! {

proof fn lemma_occurs_in_prefix(s: Seq<u8>, sep: Seq<u8>, p: int, at: int)
    requires
        0 <= p <= s.len(),
    ensures
        occurs_at(s.take(p), sep, at) == (occurs_at(s, sep, at) && at + sep.len() <= p),
{
    if 0 <= at && at + sep.len() <= p {
        assert(s.take(p).subrange(at, at + sep.len()) =~= s.subrange(at, at + sep.len()));
    }
}

/// The first occurrence in a prefix that holds one is the first in the whole.
proof fn lemma_first_in_prefix(s: Seq<u8>, sep: Seq<u8>, p: int, pos: int)
    requires
        0 <= pos <= p <= s.len(),
    ensures
        match first_at(s, sep, pos) {
            Some(at) => if at + sep.len() <= p {
                first_at(s.take(p), sep, pos) == Some(at)
            } else {
                first_at(s.take(p), sep, pos) is None || sep.len() == 0
            },
            None => first_at(s.take(p), sep, pos) is None,
        },
{
    let t = s.take(p);
    lemma_first_at(s, sep, pos);
    lemma_first_at(t, sep, pos);
    assert forall|i: int| #[trigger] occurs_at(t, sep, i) implies occurs_at(s, sep, i) && i
        + sep.len() <= p by {
        lemma_occurs_in_prefix(s, sep, p, i);
    }
    match first_at(s, sep, pos) {
        Some(at) => {
            lemma_occurs_in_prefix(s, sep, p, at);
            match first_at(t, sep, pos) {
                Some(b) => {
                    assert(occurs_at(t, sep, b));
                    if b < at {
                        assert(!occurs_at(s, sep, b));
                    }
                    if at + sep.len() <= p && at < b {
                        assert(occurs_at(t, sep, at));
                    }
                },
                None => {
                    if at + sep.len() <= p {
                        assert(occurs_at(t, sep, at));
                    }
                },
            }
        },
        None => {
            if let Some(b) = first_at(t, sep, pos) {
                assert(occurs_at(t, sep, b));
                assert(occurs_at(s, sep, b));
            }
        },
    }
}

/// A separator that a scan takes is taken in a prefix that holds it.
proof fn lemma_scan_in_prefix(s: Seq<u8>, sep: Seq<u8>, p: int, pos: int, at: int)
    requires
        sep.len() > 0,
        0 <= pos <= s.len(),
        at + sep.len() <= p <= s.len(),
        scan_at(s, sep, pos, at) == Some(at),
    ensures
        scan_at(s.take(p), sep, pos, at) == Some(at),
    decreases s.len() - pos,
{
    lemma_first_at(s, sep, pos);
    lemma_scan_at(s, sep, pos, at);
    lemma_first_in_prefix(s, sep, p, pos);
    let first = first_at(s, sep, pos)->0;
    if first < at {
        lemma_scan_at(s, sep, first + sep.len(), at);
        lemma_scan_in_prefix(s, sep, p, first + sep.len(), at);
    }
}

/// Cutting a byte string behind a separator that a scan takes changes none of
/// its documents.
pub proof fn lemma_docs_cut(s: Seq<u8>, sep: Seq<u8>, pos: int, q: int)
    requires
        sep.len() > 0,
        0 <= pos <= s.len(),
        scan_at(s, sep, pos, q) == Some(q),
    ensures
        docs_from(s, sep, pos) == docs_from(s.take(q + sep.len()), sep, pos) + docs_from(
            s,
            sep,
            q + sep.len(),
        ),
    decreases s.len() - pos,
{
    let p = q + sep.len();
    let t = s.take(p);
    lemma_first_at(s, sep, pos);
    lemma_scan_at(s, sep, pos, q);
    lemma_first_in_prefix(s, sep, p, pos);
    let at = first_at(s, sep, pos)->0;
    let head = if pos < at {
        seq![s.subrange(pos, at)]
    } else {
        Seq::empty()
    };
    assert(t.subrange(pos, at) =~= s.subrange(pos, at));
    if at == q {
        assert(docs_from(t, sep, p) =~= Seq::<Seq<u8>>::empty());
        assert(docs_from(t, sep, pos) =~= head);
    } else {
        let next = at + sep.len();
        lemma_scan_at(s, sep, next, q);
        lemma_docs_cut(s, sep, next, q);
        assert(head + (docs_from(t, sep, next) + docs_from(s, sep, p)) =~= head + docs_from(
            t,
            sep,
            next,
        ) + docs_from(s, sep, p));
    }
}

/// A separator at the end that a scan takes closes the last document, and starts
/// none.
pub proof fn lemma_docs_closed(s: Seq<u8>, sep: Seq<u8>, pos: int, end: int)
    requires
        sep.len() > 0,
        0 <= pos <= s.len(),
        scan_at(s, sep, pos, end) == Some(end),
    ensures
        docs_from(s.take(end + sep.len()), sep, pos) == docs_from(s.take(end), sep, pos),
    decreases s.len() - pos,
{
    let p = end + sep.len();
    let t = s.take(p);
    let u = s.take(end);
    lemma_first_at(s, sep, pos);
    lemma_scan_at(s, sep, pos, end);
    lemma_first_in_prefix(s, sep, p, pos);
    lemma_first_in_prefix(s, sep, end, pos);
    let at = first_at(s, sep, pos)->0;
    if at == end {
        assert(docs_from(t, sep, p) =~= Seq::<Seq<u8>>::empty());
        if pos < end {
            assert(t.subrange(pos, at) =~= u.skip(pos));
            assert(docs_from(t, sep, pos) =~= seq![u.skip(pos)]);
        } else {
            assert(docs_from(t, sep, pos) =~= Seq::<Seq<u8>>::empty());
        }
    } else {
        lemma_scan_at(s, sep, at + sep.len(), end);
        lemma_docs_closed(s, sep, at + sep.len(), end);
        assert(t.subrange(pos, at) =~= u.subrange(pos, at));
    }
}

/// The documents between consecutive boundaries, one chunk after the other.
pub open spec fn docs_between(s: Seq<u8>, sep: Seq<u8>, bounds: Seq<int>) -> Seq<Seq<u8>>
    decreases bounds.len(),
{
    if bounds.len() <= 1 {
        Seq::empty()
    } else {
        docs_between(s, sep, bounds.drop_last()) + docs_from(
            s.take(bounds.last()),
            sep,
            bounds[bounds.len() - 2],
        )
    }
}

/// A repeated boundary encloses no documents.
pub proof fn lemma_deduped_docs(s: Seq<u8>, sep: Seq<u8>, bounds: Seq<int>)
    requires
        forall|i: int| 0 <= i < bounds.len() ==> 0 <= #[trigger] bounds[i] <= s.len(),
    ensures
        docs_between(s, sep, deduped(bounds)) == docs_between(s, sep, bounds),
        deduped(bounds).len() > 0 <==> bounds.len() > 0,
        bounds.len() > 0 ==> deduped(bounds).last() == bounds.last(),
    decreases bounds.len(),
{
    if bounds.len() > 1 {
        let init = bounds.drop_last();
        assert forall|i: int| 0 <= i < init.len() implies 0 <= #[trigger] init[i] <= s.len() by {
            assert(init[i] == bounds[i]);
        }
        lemma_deduped_docs(s, sep, init);
        let last = bounds.last();
        let prev = bounds[bounds.len() - 2];
        assert(init.last() == prev);
        if last == prev {
            assert(docs_from(s.take(last), sep, prev) =~= Seq::<Seq<u8>>::empty());
            assert(docs_between(s, sep, bounds) =~= docs_between(s, sep, init));
        } else {
            let v = deduped(bounds);
            assert(v.drop_last() =~= deduped(init));
            assert(v[v.len() - 2] == deduped(init).last());
        }
    }
}

/// Whether boundaries ascend, and each but the first and the last is the end of
/// a separator that a scan from the front takes.
pub open spec fn aligned(s: Seq<u8>, sep: Seq<u8>, bounds: Seq<int>) -> bool {
    &&& bounds.len() >= 2
    &&& bounds[0] == 0
    &&& bounds.last() == s.len()
    &&& forall|i: int, j: int|
        0 <= i <= j < bounds.len() ==> #[trigger] bounds[i] <= #[trigger] bounds[j]
    &&& forall|i: int|
        0 < i < bounds.len() - 1 ==> scan_at(s, sep, 0, #[trigger] bounds[i] - sep.len()) == Some(
            bounds[i] - sep.len(),
        )
}

/// The chunks up to a boundary hold the documents up to it.
proof fn lemma_aligned_docs(s: Seq<u8>, sep: Seq<u8>, bounds: Seq<int>, k: int)
    requires
        sep.len() > 0,
        aligned(s, sep, bounds),
        1 <= k < bounds.len(),
    ensures
        docs_between(s, sep, bounds.take(k + 1)) == docs(s.take(bounds[k]), sep),
    decreases k,
{
    let v = bounds.take(k + 1);
    let a = bounds[k - 1];
    let b = bounds[k];
    let t = s.take(b);
    assert(v.drop_last() =~= bounds.take(k));
    assert(v.last() == b);
    assert(v[v.len() - 2] == a);
    assert(0 <= a <= b <= s.len()) by {
        assert(bounds[0] <= bounds[k - 1]);
        assert(bounds[k] <= bounds[bounds.len() - 1]);
    }
    if k == 1 {
        assert(docs_between(s, sep, bounds.take(1)) =~= Seq::<Seq<u8>>::empty());
        assert(docs_between(s, sep, v) =~= docs_from(t, sep, 0));
    } else {
        lemma_aligned_docs(s, sep, bounds, k - 1);
        assert(bounds.take(k - 1 + 1) =~= bounds.take(k));
        assert(scan_at(s, sep, 0, bounds[k - 1] - sep.len()) == Some(a - sep.len()));
        lemma_scan_in_prefix(s, sep, b, 0, a - sep.len());
        lemma_docs_cut(t, sep, 0, a - sep.len());
        assert(t.take(a) =~= s.take(a));
    }
}

/// Chunks at aligned boundaries hold the documents of the whole, in order.
pub proof fn lemma_chunks_keep_docs(s: Seq<u8>, sep: Seq<u8>, bounds: Seq<int>)
    requires
        sep.len() > 0,
        aligned(s, sep, bounds),
    ensures
        docs_between(s, sep, bounds) == docs(s, sep),
{
    let k = bounds.len() - 1;
    lemma_aligned_docs(s, sep, bounds, k);
    assert(bounds.take(k + 1) =~= bounds);
    assert(s.take(s.len() as int) =~= s);
}

proof fn lemma_inner_bounds(s: Seq<u8>, sep: Seq<u8>, n: int, i: int)
    requires
        1 <= i,
        0 < n,
        sep.len() > 0,
    ensures
        forall|j: int|
            0 <= j < inner_bounds(s, sep, n, i).len() ==> {
                let b = #[trigger] inner_bounds(s, sep, n, i)[j];
                &&& scan_at(s, sep, 0, b - sep.len()) == Some(b - sep.len())
                &&& b <= s.len()
                &&& b >= i * (s.len() as int / n) + sep.len()
            },
        forall|j: int, k: int|
            0 <= j <= k < inner_bounds(s, sep, n, i).len() ==> #[trigger] inner_bounds(
                s,
                sep,
                n,
                i,
            )[j] <= #[trigger] inner_bounds(s, sep, n, i)[k],
    decreases n - i,
{
    let c = s.len() as int / n;
    if i < n {
        assert(0 <= i * c <= s.len() && i * c <= (i + 1) * c) by (nonlinear_arith)
            requires
                c == (s.len() as int) / n,
                0 <= s.len(),
                1 <= i < n,
        ;
        lemma_scan_at(s, sep, 0, i * c);
        if let Some(at) = scan_at(s, sep, 0, i * c) {
            lemma_inner_bounds(s, sep, n, i + 1);
            let all = inner_bounds(s, sep, n, i);
            let rest = inner_bounds(s, sep, n, i + 1);
            assert forall|j: int| 0 <= j < all.len() implies {
                let b = #[trigger] all[j];
                &&& scan_at(s, sep, 0, b - sep.len()) == Some(b - sep.len())
                &&& b <= s.len()
                &&& b >= i * c + sep.len()
            } by {
                if j > 0 {
                    assert(all[j] == rest[j - 1]);
                }
            }
            assert forall|j: int, k: int| 0 <= j <= k < all.len() implies #[trigger] all[j]
                <= #[trigger] all[k] by {
                if k > 0 {
                    assert(all[k] == rest[k - 1]);
                    if j > 0 {
                        assert(all[j] == rest[j - 1]);
                    } else {
                        // A later place has no earlier first separator.
                        let b = rest[k - 1] - sep.len();
                        assert(scan_at(s, sep, 0, b) == Some(b));
                        assert(b >= i * c);
                        lemma_scan_on(s, sep, 0, i * c, b);
                        lemma_scan_at(s, sep, at, b);
                    }
                }
            }
        }
    }
}

/// The places at which bytes are cut, before repeats are left out.
pub open spec fn raw_bounds(s: Seq<u8>, sep: Seq<u8>, n: int) -> Seq<int> {
    seq![0int] + inner_bounds(s, sep, n, 1) + seq![s.len() as int]
}

/// The places at which bytes are cut ascend.
pub proof fn lemma_raw_bounds(s: Seq<u8>, sep: Seq<u8>, n: int)
    requires
        1 <= n,
        sep.len() > 0,
    ensures
        aligned(s, sep, raw_bounds(s, sep, n)),
        forall|i: int|
            0 <= i < raw_bounds(s, sep, n).len() ==> 0 <= #[trigger] raw_bounds(s, sep, n)[i]
                <= s.len(),
{
    lemma_inner_bounds(s, sep, n, 1);
    let inner = inner_bounds(s, sep, n, 1);
    let bounds = raw_bounds(s, sep, n);
    let m = inner.len() as int;
    assert forall|i: int| 0 < i <= m implies #[trigger] bounds[i] == inner[i - 1] by {}
    assert forall|i: int, j: int| 0 <= i <= j < bounds.len() implies #[trigger] bounds[i]
        <= #[trigger] bounds[j] by {
        if 0 < i && j <= m {
            assert(inner[i - 1] <= inner[j - 1]);
        } else if i == 0 && 0 < j <= m {
            assert(scan_at(s, sep, 0, inner[j - 1] - sep.len()) == Some(inner[j - 1] - sep.len()));
            lemma_scan_at(s, sep, 0, inner[j - 1] - sep.len());
        }
    }
    assert forall|i: int| 0 < i < bounds.len() - 1 implies scan_at(
        s,
        sep,
        0,
        #[trigger] bounds[i] - sep.len(),
    ) == Some(bounds[i] - sep.len()) by {
        assert(bounds[i] == inner[i - 1]);
    }
    assert forall|i: int| 0 <= i < bounds.len() implies 0 <= #[trigger] bounds[i] <= s.len() by {
        assert(bounds[0] <= bounds[i]);
        assert(bounds[i] <= bounds[bounds.len() - 1]);
    }
}

/// Splitting into any number of chunks loses no document and changes none: those
/// of the chunks, one after the other, are those of the whole.
pub proof fn lemma_par_chunks_keep_docs(s: Seq<u8>, sep: Seq<u8>, n: int)
    ensures
        docs_between(s, sep, chunk_bounds(s, sep, n)) == docs(s, sep),
{
    if n <= 1 || s.len() == 0 || sep.len() == 0 {
        let v = seq![0, s.len() as int];
        assert(v.drop_last() =~= seq![0int]);
        assert(docs_between(s, sep, seq![0int]) =~= Seq::<Seq<u8>>::empty());
        assert(s.take(s.len() as int) =~= s);
        assert(docs_between(s, sep, v) =~= docs(s, sep));
    } else {
        let bounds = raw_bounds(s, sep, n);
        lemma_raw_bounds(s, sep, n);
        lemma_chunks_keep_docs(s, sep, bounds);
        lemma_deduped_docs(s, sep, bounds);
    }
}

proof fn lemma_first_at_shift(s: Seq<u8>, sep: Seq<u8>, a: int, k: int)
    requires
        0 <= a <= s.len(),
        0 <= k,
    ensures
        first_at(s.skip(a), sep, k) == match first_at(s, sep, a + k) {
            Some(at) => Some(at - a),
            None => None,
        },
    decreases s.len() - a - k,
{
    let u = s.skip(a);
    if k <= u.len() {
        if k + sep.len() <= u.len() {
            assert(u.subrange(k, k + sep.len()) =~= s.subrange(a + k, a + k + sep.len()));
        }
        if !occurs_at(s, sep, a + k) && k < u.len() {
            lemma_first_at_shift(s, sep, a, k + 1);
        }
    }
}

/// The documents of a part that starts at `a` are those from `a` on.
pub proof fn lemma_docs_shift(s: Seq<u8>, sep: Seq<u8>, a: int, k: int)
    requires
        0 <= a <= s.len(),
        0 <= k,
    ensures
        docs_from(s.skip(a), sep, k) == docs_from(s, sep, a + k),
    decreases s.len() - a - k,
{
    let u = s.skip(a);
    if k < u.len() {
        if sep.len() == 0 {
            assert(u.skip(k) =~= s.skip(a + k));
        } else {
            lemma_first_at_shift(s, sep, a, k);
            lemma_first_at(s, sep, a + k);
            match first_at(s, sep, a + k) {
                Some(at) => {
                    assert(u.subrange(k, at - a) =~= s.subrange(a + k, at));
                    lemma_docs_shift(s, sep, a, at - a + sep.len());
                },
                None => {
                    assert(u.skip(k) =~= s.skip(a + k));
                },
            }
        }
    }
}

proof fn lemma_first_byte_shift(s: Seq<u8>, byte: u8, a: int, k: int)
    requires
        0 <= a <= s.len(),
        0 <= k,
    ensures
        first_byte(s.skip(a), byte, k) == match first_byte(s, byte, a + k) {
            Some(at) => Some(at - a),
            None => None,
        },
    decreases s.len() - a - k,
{
    let u = s.skip(a);
    if k < u.len() {
        assert(u[k] == s[a + k]);
        lemma_first_byte_shift(s, byte, a, k + 1);
    }
}

proof fn lemma_line_start_shift(s: Seq<u8>, a: int, k: int)
    requires
        0 <= a <= s.len(),
        0 <= k,
    ensures
        line_start(s.skip(a), k) == line_start(s, a + k) - a,
    decreases s.len() - a - k,
{
    let u = s.skip(a);
    if k < u.len() {
        assert(u[k] == s[a + k]);
        if s[a + k] == 0x0A {
            lemma_line_start_shift(s, a, k + 1);
        }
    }
}

/// The documents of JSON lines that start at `a` are those from `a` on.
pub proof fn lemma_jsonl_shift(s: Seq<u8>, field: Seq<char>, a: int, k: int)
    requires
        0 <= a <= s.len(),
        0 <= k <= s.len() - a,
    ensures
        jsonl_docs(s.skip(a), field, k) == jsonl_docs(s, field, a + k),
    decreases s.len() - a - k,
{
    let u = s.skip(a);
    lemma_line_start_shift(s, a, k);
    lemma_line_start(s, a + k);
    let start = line_start(s, a + k);
    if start < s.len() {
        lemma_first_byte_shift(s, 0x0A, a, start - a);
        lemma_first_byte(s, 0x0A, start);
        let end = line_end(s, start);
        assert(line_end(u, start - a) == end - a);
        assert(u.subrange(start - a, end - a) =~= s.subrange(start, end));
        if end < s.len() {
            lemma_jsonl_shift(s, field, a, end + 1 - a);
        }
    }
}

/// The documents of ranges of a file, one range after the other.
pub open spec fn docs_of_ranges(s: Seq<u8>, format: DocFormat, ranges: Seq<(int, int)>) -> Seq<
    Seq<u8>,
>
    decreases ranges.len(),
{
    if ranges.len() == 0 {
        Seq::empty()
    } else {
        region_docs(s.subrange(ranges[0].0, ranges[0].1), format) + docs_of_ranges(
            s,
            format,
            ranges.drop_first(),
        )
    }
}

proof fn lemma_one_range(s: Seq<u8>, format: DocFormat, a: int, b: int)
    ensures
        docs_of_ranges(s, format, seq![(a, b)]) == region_docs(s.subrange(a, b), format),
{
    let one = seq![(a, b)];
    assert(one.drop_first() =~= Seq::<(int, int)>::empty());
    assert(docs_of_ranges(s, format, one.drop_first()) =~= Seq::<Seq<u8>>::empty());
    let d = region_docs(s.subrange(a, b), format);
    assert(d + Seq::<Seq<u8>>::empty() =~= d);
}

/// Whether cutting a file changes none of its documents: each of its JSON lines
/// has a text. (A JSON line without one ends the documents of its chunk only.)
pub open spec fn cuts_cleanly(s: Seq<u8>, format: DocFormat) -> bool {
    match format {
        DocFormat::Jsonl { field } => all_texts(s, field@, 0),
        _ => true,
    }
}

proof fn lemma_text_ranges(s: Seq<u8>, format: DocFormat, target: int, start: int)
    requires
        format is Text,
        format.sep().len() > 0,
        0 <= target,
        0 <= start <= s.len(),
    ensures
        docs_of_ranges(s, format, ranges_from(s, format.sep(), false, target, start)) == docs_from(
            s,
            format.sep(),
            start,
        ),
    decreases s.len() - start,
{
    let sep = format.sep();
    let all = ranges_from(s, sep, false, target, start);
    if start < s.len() {
        let cut = if start + target < s.len() {
            scan_at(s, sep, start, start + target)
        } else {
            None
        };
        lemma_scan_at(s, sep, start, start + target);
        match cut {
            Some(at) => {
                let next = at + sep.len();
                let rest = ranges_from(s, sep, false, target, next);
                assert(all.drop_first() =~= rest);
                assert(all[0] == (start, at));
                lemma_text_ranges(s, format, target, next);
                assert(s.take(at).skip(start) =~= s.subrange(start, at));
                lemma_docs_shift(s.take(at), sep, start, 0);
                lemma_docs_closed(s, sep, start, at);
                lemma_docs_cut(s, sep, start, at);
            },
            None => {
                assert(all =~= seq![(start, s.len() as int)]);
                lemma_one_range(s, format, start, s.len() as int);
                assert(s.subrange(start, s.len() as int) =~= s.skip(start));
                lemma_docs_shift(s, sep, start, 0);
            },
        }
    }
}

proof fn lemma_jsonl_ranges(s: Seq<u8>, format: DocFormat, target: int, start: int)
    requires
        format is Jsonl,
        0 <= target,
        0 <= start <= s.len(),
        all_texts(s, format->field@, start),
    ensures
        docs_of_ranges(s, format, ranges_from(s, seq![0x0Au8], true, target, start)) == jsonl_docs(
            s,
            format->field@,
            start,
        ),
    decreases s.len() - start,
{
    let field = format->field@;
    let sep = seq![0x0Au8];
    let all = ranges_from(s, sep, true, target, start);
    if start < s.len() {
        let cut = if start + target < s.len() {
            scan_at(s, sep, start, start + target)
        } else {
            None
        };
        lemma_scan_at(s, sep, start, start + target);
        match cut {
            Some(at) => {
                let next = at + 1;
                assert(s.subrange(at, at + 1)[0] == s[at]);
                assert(all.drop_first() =~= ranges_from(s, sep, true, target, next));
                assert(all[0] == (start, next));
                lemma_jsonl_cut(s, field, start, next);
                lemma_jsonl_ranges(s, format, target, next);
                assert(s.take(next).skip(start) =~= s.subrange(start, next));
                lemma_jsonl_shift(s.take(next), field, start, 0);
            },
            None => {
                assert(all =~= seq![(start, s.len() as int)]);
                lemma_one_range(s, format, start, s.len() as int);
                assert(s.subrange(start, s.len() as int) =~= s.skip(start));
                lemma_jsonl_shift(s, field, start, 0);
            },
        }
    } else {
        lemma_line_start(s, start);
        assert(jsonl_docs(s, field, start) =~= Seq::<Seq<u8>>::empty());
    }
}

/// Cutting a file into ranges changes none of its documents: those of the
/// ranges, one after the other, are those of the whole.
pub proof fn lemma_ranges_keep_docs(s: Seq<u8>, format: DocFormat, target: int)
    requires
        !(format is Parquet),
        0 <= target,
        cuts_cleanly(s, format),
    ensures
        docs_of_ranges(s, format, file_ranges(s, format, target)) == region_docs(s, format),
{
    let ranges = file_ranges(s, format, target);
    if s.len() == 0 || (format is Text && format.sep().len() == 0) {
        assert(ranges =~= seq![(0int, s.len() as int)]);
        lemma_one_range(s, format, 0, s.len() as int);
        assert(s.subrange(0, s.len() as int) =~= s);
    } else if format is Jsonl {
        lemma_jsonl_ranges(s, format, target, 0);
    } else {
        lemma_text_ranges(s, format, target, 0);
    }
}

} // verus!
