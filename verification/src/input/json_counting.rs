//! Counting the pretokens of JSON lines.

use vstd::prelude::*;

use crate::bpe::tiktoken::total_len;
use crate::byte_map::ByteMap;
use crate::input::counting::{
    lemma_adds_both, lemma_counts_fit, lemma_pretokens_bound, lemma_pretokens_of_concat,
    lemma_total_concat, pretokens_of,
};
use crate::input::documents::{deduped, int_views};
use crate::input::file_source::{jsonl_chunk_boundaries, newline_bounds};
use crate::input::jsonl::{all_texts, jsonl_docs, lemma_jsonl_cut, lemma_line_start, JsonLinesSlice};
use crate::input::laws::lemma_jsonl_shift;
use crate::pretokenize::counts::{
    adds_list, count_pretokens, counted, lemma_counts_in_parts, merge_counts,
};
use crate::pretokenize::gpt2::pretokens;
use crate::search::{first_byte, lemma_first_byte};

verus! {

/// The documents of the lines between consecutive boundaries.
pub open spec fn lines_between(s: Seq<u8>, field: Seq<char>, bounds: Seq<int>) -> Seq<Seq<u8>>
    decreases bounds.len(),
{
    if bounds.len() <= 1 {
        Seq::empty()
    } else {
        lines_between(s, field, bounds.drop_last()) + jsonl_docs(
            s.subrange(bounds[bounds.len() - 2], bounds.last()),
            field,
            0,
        )
    }
}

/// The boundaries of `n` chunks of lines.
pub open spec fn line_bounds(s: Seq<u8>, n: int) -> Seq<int> {
    deduped(seq![0int] + newline_bounds(s, n, 1) + seq![s.len() as int])
}

/// Whether numbers ascend from 0 up to a bound at most.
spec fn ascends(v: Seq<int>, hi: int) -> bool {
    &&& forall|i: int| 0 <= i < v.len() ==> 0 <= #[trigger] v[i] <= hi
    &&& forall|i: int, j: int| 0 <= i <= j < v.len() ==> #[trigger] v[i] <= #[trigger] v[j]
}

proof fn lemma_deduped_ascends(v: Seq<int>, hi: int)
    requires
        ascends(v, hi),
        v.len() > 0,
    ensures
        ascends(deduped(v), hi),
        deduped(v).len() > 0,
        deduped(v).last() == v.last(),
    decreases v.len(),
{
    if v.len() > 1 {
        let init = v.drop_last();
        assert forall|i: int| 0 <= i < init.len() implies 0 <= #[trigger] init[i] <= hi by {
            assert(init[i] == v[i]);
        }
        assert forall|i: int, j: int| 0 <= i <= j < init.len() implies #[trigger] init[i]
            <= #[trigger] init[j] by {
            assert(v[i] <= v[j]);
        }
        lemma_deduped_ascends(init, hi);
        let d = deduped(init);
        assert(init.last() == v[v.len() - 2]);
        assert(v[v.len() - 2] <= v.last());
        if v.last() != v[v.len() - 2] {
            let u = deduped(v);
            assert forall|i: int| 0 <= i < u.len() implies 0 <= #[trigger] u[i] <= hi by {
                if i < d.len() {
                    assert(u[i] == d[i]);
                }
            }
            assert forall|i: int, j: int| 0 <= i <= j < u.len() implies #[trigger] u[i]
                <= #[trigger] u[j] by {
                if j < d.len() {
                    assert(u[i] == d[i] && u[j] == d[j]);
                } else if i < d.len() {
                    assert(u[i] == d[i]);
                    assert(d[i] <= d[d.len() - 1]);
                }
            }
        }
    }
}

/// A repeated boundary encloses no lines.
proof fn lemma_lines_deduped(s: Seq<u8>, field: Seq<char>, v: Seq<int>)
    requires
        ascends(v, s.len() as int),
    ensures
        lines_between(s, field, deduped(v)) == lines_between(s, field, v),
    decreases v.len(),
{
    if v.len() > 1 {
        let init = v.drop_last();
        assert forall|i: int| 0 <= i < init.len() implies 0 <= #[trigger] init[i] <= s.len() by {
            assert(init[i] == v[i]);
        }
        assert forall|i: int, j: int| 0 <= i <= j < init.len() implies #[trigger] init[i]
            <= #[trigger] init[j] by {
            assert(v[i] <= v[j]);
        }
        lemma_lines_deduped(s, field, init);
        lemma_deduped_ascends(init, s.len() as int);
        let last = v.last();
        let prev = v[v.len() - 2];
        assert(init.last() == prev);
        if last == prev {
            let none = s.subrange(prev, last);
            lemma_line_start(none, 0);
            assert(jsonl_docs(none, field, 0) =~= Seq::<Seq<u8>>::empty());
            assert(lines_between(s, field, v) =~= lines_between(s, field, init));
        } else {
            let d = deduped(v);
            assert(d.drop_last() =~= deduped(init));
            assert(d[d.len() - 2] == deduped(init).last());
        }
    }
}

/// The places behind line feeds ascend.
proof fn lemma_newline_bounds(s: Seq<u8>, n: int, i: int)
    requires
        1 <= i,
        0 < n,
    ensures
        forall|j: int|
            0 <= j < newline_bounds(s, n, i).len() ==> {
                let b = #[trigger] newline_bounds(s, n, i)[j];
                &&& i * (s.len() as int / n) < b <= s.len()
                &&& s[b - 1] == 0x0A
            },
        forall|j: int, k: int|
            0 <= j <= k < newline_bounds(s, n, i).len() ==> #[trigger] newline_bounds(s, n, i)[j]
                <= #[trigger] newline_bounds(s, n, i)[k],
    decreases n - i,
{
    let c = s.len() as int / n;
    if i < n {
        assert(0 <= i * c <= s.len() && i * c <= (i + 1) * c) by (nonlinear_arith)
            requires
                c == (s.len() as int) / n,
                0 <= s.len(),
                1 <= i < n,
        ;
        lemma_first_byte(s, 0x0A, i * c);
        if let Some(at) = first_byte(s, 0x0A, i * c) {
            lemma_newline_bounds(s, n, i + 1);
            let all = newline_bounds(s, n, i);
            let rest = newline_bounds(s, n, i + 1);
            assert forall|j: int| 0 <= j < all.len() implies {
                let b = #[trigger] all[j];
                &&& i * c < b <= s.len()
                &&& s[b - 1] == 0x0A
            } by {
                if j > 0 {
                    assert(all[j] == rest[j - 1]);
                }
            }
            assert forall|j: int, k: int| 0 <= j <= k < all.len() implies #[trigger] all[j]
                <= #[trigger] all[k] by {
                if k > 0 {
                    assert(all[k] == rest[k - 1]);
                    if j > 0 {
                        assert(all[j] == rest[j - 1]);
                    } else {
                        let b = rest[k - 1] - 1;
                        assert(s[b] == 0x0A);
                        assert(b >= i * c);
                    }
                }
            }
        }
    }
}

/// Boundaries of lines: each but the first and the last comes behind a line feed.
spec fn at_lines(s: Seq<u8>, v: Seq<int>) -> bool {
    &&& v.len() >= 2
    &&& ascends(v, s.len() as int)
    &&& v[0] == 0
    &&& v.last() == s.len()
    &&& forall|i: int| 0 < i < v.len() - 1 ==> #[trigger] v[i] > 0 && s[v[i] - 1] == 0x0A
}

proof fn lemma_raw_line_bounds(s: Seq<u8>, n: int)
    requires
        0 < n,
    ensures
        at_lines(s, seq![0int] + newline_bounds(s, n, 1) + seq![s.len() as int]),
{
    lemma_newline_bounds(s, n, 1);
    let inner = newline_bounds(s, n, 1);
    let v = seq![0int] + inner + seq![s.len() as int];
    let c = s.len() as int / n;
    assert(c >= 0) by (nonlinear_arith)
        requires
            c == s.len() as int / n,
            0 < n,
            0 <= s.len(),
    ;
    assert forall|i: int| 0 <= i < v.len() implies 0 <= #[trigger] v[i] <= s.len() by {
        if 0 < i < v.len() - 1 {
            assert(v[i] == inner[i - 1]);
        }
    }
    assert forall|i: int| 0 < i < v.len() - 1 implies #[trigger] v[i] > 0 && s[v[i] - 1]
        == 0x0A by {
        assert(v[i] == inner[i - 1]);
    }
    assert forall|i: int, j: int| 0 <= i <= j < v.len() implies #[trigger] v[i]
        <= #[trigger] v[j] by {
        if 0 < i && j < v.len() - 1 {
            assert(v[i] == inner[i - 1] && v[j] == inner[j - 1]);
        }
    }
}

/// The lines up to a boundary, and those from there on, are all lines.
proof fn lemma_lines_upto(s: Seq<u8>, field: Seq<char>, v: Seq<int>, k: int)
    requires
        at_lines(s, v),
        all_texts(s, field, 0),
        0 <= k < v.len(),
    ensures
        lines_between(s, field, v.take(k + 1)) + jsonl_docs(s, field, v[k]) == jsonl_docs(
            s,
            field,
            0,
        ),
        k < v.len() - 1 ==> all_texts(s, field, v[k]),
    decreases k,
{
    let t = v.take(k + 1);
    if k == 0 {
        assert(lines_between(s, field, t) + jsonl_docs(s, field, 0) =~= jsonl_docs(s, field, 0));
    } else {
        lemma_lines_upto(s, field, v, k - 1);
        let a = v[k - 1];
        let b = v[k];
        assert(a <= b);
        let init = t.drop_last();
        assert(init =~= v.take(k));
        let before = lines_between(s, field, init);
        let part = jsonl_docs(s.subrange(a, b), field, 0);
        if k < v.len() - 1 {
            lemma_jsonl_cut(s, field, a, b);
            assert(s.take(b).skip(a) =~= s.subrange(a, b));
            lemma_jsonl_shift(s.take(b), field, a, 0);
        } else {
            assert(s.skip(a) =~= s.subrange(a, b));
            lemma_jsonl_shift(s, field, a, 0);
            lemma_line_start(s, b);
            assert(jsonl_docs(s, field, b) =~= Seq::<Seq<u8>>::empty());
            assert(part + jsonl_docs(s, field, b) =~= part);
        }
        assert(before + part + jsonl_docs(s, field, b) =~= before + (part + jsonl_docs(
            s,
            field,
            b,
        )));
    }
}

/// Cutting JSON lines into chunks at line feeds changes none of their documents,
/// where every line has a text.
pub proof fn lemma_line_chunks_keep_docs(s: Seq<u8>, field: Seq<char>, n: int)
    requires
        0 < n,
        all_texts(s, field, 0),
    ensures
        lines_between(s, field, line_bounds(s, n)) == jsonl_docs(s, field, 0),
{
    let v = seq![0int] + newline_bounds(s, n, 1) + seq![s.len() as int];
    lemma_raw_line_bounds(s, n);
    lemma_lines_deduped(s, field, v);
    let k = v.len() - 1;
    lemma_lines_upto(s, field, v, k);
    assert(v.take(k + 1) =~= v);
    lemma_line_start(s, s.len() as int);
    let none = jsonl_docs(s, field, s.len() as int);
    assert(none =~= Seq::<Seq<u8>>::empty());
    assert(lines_between(s, field, v) + none =~= lines_between(s, field, v));
}

/// Count the pretokens of the documents of JSON lines; also how many bytes the
/// documents hold. None where the bytes are too many to count.
pub fn count_json_lines(slice: &[u8], field: &str) -> (r: Option<(ByteMap<usize>, usize)>)
    ensures
        ({
            let docs = jsonl_docs(slice@, field@, 0);
            match r {
                Some((counts, total)) => {
                    &&& counts.wf()
                    &&& total == total_len(docs)
                    &&& adds_list(Map::empty(), counts@, pretokens_of(docs))
                },
                None => total_len(docs) > usize::MAX,
            }
        }),
{
    let ghost all = jsonl_docs(slice@, field@, 0);
    let ghost none = Map::<Seq<u8>, usize>::empty();
    let mut it = JsonLinesSlice::new(slice, field);
    let mut counts: ByteMap<usize> = ByteMap::new();
    let mut total: usize = 0;
    let ghost mut done: Seq<Seq<u8>> = Seq::empty();
    let mut more: bool = true;
    assert(done + all =~= all);
    while more
        invariant
            it.wf(),
            counts.wf(),
            none == Map::<Seq<u8>, usize>::empty(),
            all == jsonl_docs(slice@, field@, 0),
            more ==> done + it.rest() == all,
            !more ==> done == all,
            total == total_len(done),
            adds_list(none, counts@, pretokens_of(done)),
        decreases if more {
            it.rest().len() + 1
        } else {
            0
        },
    {
        let ghost rest = it.rest();
        match it.next() {
            None => {
                more = false;
                assert(done + rest =~= done);
            },
            Some(doc) => {
                let ghost before = counts@;
                let ghost next = done.push(doc@);
                proof {
                    assert(next.drop_last() =~= done);
                    assert(done + rest =~= next + it.rest());
                    lemma_total_concat(next, it.rest());
                }
                match total.checked_add(doc.len()) {
                    None => {
                        return None;
                    },
                    Some(sum) => {
                        total = sum;
                    },
                }
                proof {
                    lemma_pretokens_bound(next);
                    lemma_counts_fit(none, before, pretokens_of(done));
                    assert forall|p: Seq<u8>| #[trigger] counted(before, p) + pretokens(doc@).len()
                        <= usize::MAX by {
                        assert(counted(before, p) <= pretokens_of(done).len());
                    }
                }
                count_pretokens(doc.as_slice(), &mut counts);
                proof {
                    lemma_adds_both(none, before, counts@, pretokens_of(done), pretokens(doc@));
                    done = next;
                }
            },
        }
    }
    Some((counts, total))
}

/// Count the pretokens of JSON lines in `n` chunks, cut at line feeds, and add
/// the counts up. None where the documents hold too many bytes to count.
pub fn pretokenize_jsonl_par(bytes: &[u8], field: &str, n: usize) -> (r: Option<ByteMap<usize>>)
    requires
        n > 0,
    ensures
        ({
            let docs = lines_between(bytes@, field@, line_bounds(bytes@, n as int));
            &&& match r {
                Some(counts) => {
                    &&& counts.wf()
                    &&& adds_list(Map::empty(), counts@, pretokens_of(docs))
                },
                None => total_len(docs) > usize::MAX,
            }
            &&& all_texts(bytes@, field@, 0) ==> docs == jsonl_docs(bytes@, field@, 0)
        }),
{
    let ghost s = bytes@;
    let ghost none = Map::<Seq<u8>, usize>::empty();
    let ghost want = line_bounds(s, n as int);
    let bounds: Vec<usize> = jsonl_chunk_boundaries(bytes, n);
    proof {
        lemma_raw_line_bounds(s, n as int);
        let v = seq![0int] + newline_bounds(s, n as int, 1) + seq![s.len() as int];
        lemma_deduped_ascends(v, s.len() as int);
        if all_texts(s, field@, 0) {
            lemma_line_chunks_keep_docs(s, field@, n as int);
        }
    }
    let mut counts: ByteMap<usize> = ByteMap::new();
    let mut total: usize = 0;
    assert(int_views(bounds@).len() == bounds@.len());
    for k in 1..bounds.len()
        invariant
            s == bytes@,
            none == Map::<Seq<u8>, usize>::empty(),
            want == int_views(bounds@),
            ascends(want, s.len() as int),
            counts.wf(),
            total == total_len(lines_between(s, field@, want.take(k as int))),
            adds_list(
                none,
                counts@,
                pretokens_of(lines_between(s, field@, want.take(k as int))),
            ),
            want == line_bounds(s, n as int),
            all_texts(s, field@, 0) ==> lines_between(s, field@, want) == jsonl_docs(s, field@, 0),
    {
        let ghost before = counts@;
        let ghost done = lines_between(s, field@, want.take(k as int));
        assert(want[k - 1] <= want[k as int]);
        assert(want[k - 1] == bounds@[k - 1] && want[k as int] == bounds@[k as int]);
        let chunk: &[u8] = &bytes[bounds[k - 1]..bounds[k]];
        let ghost found = jsonl_docs(chunk@, field@, 0);
        proof {
            assert(chunk@ =~= s.subrange(want[k - 1], want[k as int]));
            let t = want.take(k as int + 1);
            assert(t.drop_last() =~= want.take(k as int));
            assert(t[t.len() - 2] == want[k - 1]);
            assert(t.last() == want[k as int]);
            assert(lines_between(s, field@, t) == done + found);
            lemma_total_concat(done, found);
            lemma_lines_total(s, field@, want, k as int + 1);
            lemma_pretokens_of_concat(done, found);
        }
        let (part, held): (ByteMap<usize>, usize) = match count_json_lines(chunk, field) {
            None => {
                return None;
            },
            Some(found) => found,
        };
        match total.checked_add(held) {
            None => {
                return None;
            },
            Some(sum) => {
                total = sum;
            },
        }
        proof {
            lemma_counts_fit(none, before, pretokens_of(done));
            lemma_counts_fit(none, part@, pretokens_of(found));
            lemma_pretokens_bound(done);
            lemma_pretokens_bound(found);
            assert forall|p: Seq<u8>| #[trigger] counted(before, p) + counted(part@, p)
                <= usize::MAX by {
                assert(counted(before, p) <= pretokens_of(done).len());
                assert(counted(part@, p) <= pretokens_of(found).len());
            }
        }
        merge_counts(&mut counts, &part);
        proof {
            lemma_counts_in_parts(
                none,
                before,
                part@,
                counts@,
                pretokens_of(done),
                pretokens_of(found),
            );
        }
    }
    assert(want.take(want.len() as int) =~= want);
    Some(counts)
}

/// The lines of the first chunks hold no more than those of all.
proof fn lemma_lines_total(s: Seq<u8>, field: Seq<char>, v: Seq<int>, k: int)
    requires
        0 <= k <= v.len(),
    ensures
        total_len(lines_between(s, field, v.take(k))) <= total_len(lines_between(s, field, v)),
    decreases v.len() - k,
{
    if k == v.len() {
        assert(v.take(k) =~= v);
    } else {
        lemma_lines_total(s, field, v, k + 1);
        let t = v.take(k + 1);
        assert(t.drop_last() =~= v.take(k));
        if k >= 1 {
            lemma_total_concat(
                lines_between(s, field, v.take(k)),
                jsonl_docs(s.subrange(t[t.len() - 2], t.last()), field, 0),
            );
        }
    }
}

} // verus!
