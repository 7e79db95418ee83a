//! Pretoken-safe document splitting.

use std::ops::Range;
use vstd::prelude::*;
use vstd::utf8::valid_utf8;

use crate::pretokenize::cuts::{
    lemma_safe_cut, lemma_suffix_pretokens, lemma_walks_between_cuts, safe_cut,
};
use crate::pretokenize::gpt2::{pretokens, pretokens_from};
use crate::pretokenize::pretoken::slice_views;
use crate::pretokenize::scan::{is_digit, is_letter};
use crate::search::{find_bytes, lemma_occurs_in_part};
use crate::seqs::occurs_at;

verus! {

/// Whether an occurrence of `t` spans the cut between `p - 1` and `p`.
pub open spec fn straddles(s: Seq<u8>, t: Seq<u8>, p: int) -> bool {
    exists|a: int| a < p && p < a + t.len() && #[trigger] occurs_at(s, t, a)
}

/// Whether an occurrence of an added token spans the cut at `p`.
pub open spec fn cuts_added(s: Seq<u8>, added: Seq<Seq<u8>>, p: int) -> bool {
    exists|i: int| 0 <= i < added.len() && straddles(s, #[trigger] added[i], p)
}

/// Whether the document may be cut at `p`.
pub open spec fn split_point(s: Seq<u8>, added: Seq<Seq<u8>>, p: int) -> bool {
    safe_cut(s, p) && !cuts_added(s, added, p)
}

/// The first split point at or after `from`, or the end of the document.
pub open spec fn next_split(s: Seq<u8>, added: Seq<Seq<u8>>, from: int) -> int
    decreases s.len() - from,
{
    if from >= s.len() {
        s.len() as int
    } else if split_point(s, added, from) {
        from
    } else {
        next_split(s, added, from + 1)
    }
}

/// The ends of the ranges from `start` on: each the first split point at least
/// `target` bytes after its start, the last the end of the document.
pub open spec fn split_ends(s: Seq<u8>, added: Seq<Seq<u8>>, target: int, start: int) -> Seq<int>
    decreases s.len() - start,
{
    if start >= s.len() || target < 1 {
        Seq::empty()
    } else {
        let end = next_split(s, added, start + target);
        if end <= start || end > s.len() {
            Seq::empty()
        } else {
            seq![end] + split_ends(s, added, target, end)
        }
    }
}

/// The ranges between consecutive ends, the first from `start` on.
pub open spec fn ranges_of(start: int, ends: Seq<int>) -> Seq<(int, int)> {
    Seq::new(
        ends.len(),
        |i: int|
            (
                if i == 0 {
                    start
                } else {
                    ends[i - 1]
                },
                ends[i],
            ),
    )
}

/// Ranges of a document.
pub open spec fn range_views(v: Seq<Range<usize>>) -> Seq<(int, int)> {
    v.map_values(|r: Range<usize>| (r.start as int, r.end as int))
}

/// [`next_split`] is the first split point, where there is one before the end.
pub proof fn lemma_next_split(s: Seq<u8>, added: Seq<Seq<u8>>, from: int)
    requires
        0 <= from,
    ensures
        next_split(s, added, from) <= s.len(),
        from <= s.len() ==> from <= next_split(s, added, from),
        next_split(s, added, from) < s.len() ==> split_point(s, added, next_split(s, added, from)),
        forall|q: int|
            from <= q < next_split(s, added, from) && q < s.len() ==> !#[trigger] split_point(
                s,
                added,
                q,
            ),
    decreases s.len() - from,
{
    if from < s.len() && !split_point(s, added, from) {
        lemma_next_split(s, added, from + 1);
    }
}

/// Whether an occurrence of `t` spans the cut between `p - 1` and `p`.
fn token_straddles(bytes: &[u8], t: &[u8], p: usize) -> (r: bool)
    requires
        0 < p < bytes@.len(),
    ensures
        r == straddles(bytes@, t@, p as int),
{
    let n: usize = t.len();
    if n < 2 {
        return false;
    }
    let lo: usize = if p < n - 1 {
        0
    } else {
        p - (n - 1)
    };
    let hi: usize = if bytes.len() - p < n - 1 {
        bytes.len()
    } else {
        p + (n - 1)
    };
    let window: &[u8] = &bytes[lo..hi];
    let found: Option<usize> = find_bytes(window, t);
    proof {
        match found {
            Some(at) => {
                lemma_occurs_in_part(bytes@, t@, lo as int, hi as int, at as int);
                assert(occurs_at(bytes@, t@, lo + at));
            },
            None => {
                assert forall|a: int| a < p && p < a + n implies !#[trigger] occurs_at(
                    bytes@,
                    t@,
                    a,
                ) by {
                    if occurs_at(bytes@, t@, a) {
                        lemma_occurs_in_part(bytes@, t@, lo as int, hi as int, a - lo);
                        assert(!occurs_at(window@, t@, a - lo));
                    }
                }
            },
        }
    }
    found.is_some()
}

/// Whether an occurrence of an added token spans the cut at `p`.
fn cuts_added_token(bytes: &[u8], added_tokens: &[&[u8]], p: usize) -> (r: bool)
    requires
        0 < p < bytes@.len(),
    ensures
        r == cuts_added(bytes@, slice_views(added_tokens@), p as int),
{
    for i in 0..added_tokens.len()
        invariant
            0 < p < bytes@.len(),
            forall|k: int| 0 <= k < i ==> !straddles(
                bytes@,
                #[trigger] slice_views(added_tokens@)[k],
                p as int,
            ),
    {
        if token_straddles(bytes, added_tokens[i], p) {
            assert(straddles(bytes@, slice_views(added_tokens@)[i as int], p as int));
            return true;
        }
    }
    false
}

/// Split `bytes` into ranges of roughly `target` bytes whose boundaries are
/// pretoken boundaries, so encoding the ranges independently and concatenating
/// the token streams is identical to encoding `bytes` in one pass.
///
/// A boundary sits on a space that is preceded by an ASCII alphanumeric and
/// followed by an ASCII letter. No pretoken can cross such a point: whitespace
/// only attaches to adjacent pretokens as a single *leading* space of a
/// following word, and letter and digit runs cannot contain a space.
///
/// `added_tokens` are the byte sequences matched atomically *before*
/// pretokenization; a candidate boundary is rejected when an occurrence of one
/// straddles it, since the halves would otherwise be encoded as plain text.
pub fn safe_split_ranges(
    bytes: &[u8],
    target: usize,
    added_tokens: &[&[u8]],
) -> (out: Vec<Range<usize>>)
    ensures
        bytes@.len() == 0 ==> range_views(out@) == seq![(0int, 0int)],
        bytes@.len() > 0 ==> range_views(out@) == ranges_of(
            0,
            split_ends(
                bytes@,
                slice_views(added_tokens@),
                if target < 1 {
                    1
                } else {
                    target as int
                },
                0,
            ),
        ),
{
    let ghost s = bytes@;
    let ghost added = slice_views(added_tokens@);
    let len: usize = bytes.len();
    let target: usize = if target < 1 {
        1
    } else {
        target
    };
    let mut out: Vec<Range<usize>> = Vec::new();
    if len == 0 {
        out.push(0..0);
        assert(range_views(out@) =~= seq![(0int, 0int)]);
        return out;
    }
    let mut start: usize = 0;
    let ghost mut ends: Seq<int> = Seq::empty();
    assert(range_views(out@) =~= ranges_of(0, ends));
    assert(ends + split_ends(s, added, target as int, 0) =~= split_ends(s, added, target as int, 0));
    while start < len
        invariant
            s == bytes@,
            len == s.len(),
            added == slice_views(added_tokens@),
            1 <= target,
            start <= len,
            start == (if ends.len() == 0 {
                0
            } else {
                ends.last()
            }),
            range_views(out@) == ranges_of(0, ends),
            ends + split_ends(s, added, target as int, start as int) == split_ends(
                s,
                added,
                target as int,
                0,
            ),
        decreases len - start,
    {
        let mut probe: usize = if len - start <= target {
            len
        } else {
            start + target
        };
        proof {
            lemma_next_split(s, added, start + target);
        }
        while probe < len
            invariant
                s == bytes@,
                len == s.len(),
                added == slice_views(added_tokens@),
                start < probe <= len,
                next_split(s, added, probe as int) == next_split(s, added, start + target),
            ensures
                start < probe <= len,
                probe == next_split(s, added, start + target),
            decreases len - probe,
        {
            if probe + 1 < len && bytes[probe] == 0x20 && (is_letter(bytes[probe - 1]) || is_digit(
                bytes[probe - 1],
            )) && is_letter(bytes[probe + 1]) && !cuts_added_token(bytes, added_tokens, probe) {
                assert(split_point(s, added, probe as int));
                break;
            }
            assert(!split_point(s, added, probe as int));
            probe = probe + 1;
        }
        let ghost before = out@;
        let ghost ends0 = ends;
        out.push(start..probe);
        proof {
            let rest = split_ends(s, added, target as int, probe as int);
            assert(split_ends(s, added, target as int, start as int) == seq![probe as int] + rest);
            ends = ends.push(probe as int);
            assert(ends0 + (seq![probe as int] + rest) =~= ends + rest);
            assert(range_views(out@) =~= range_views(before).push((start as int, probe as int)));
            assert(ranges_of(0, ends) =~= ranges_of(0, ends0).push((start as int, probe as int)));
        }
        start = probe;
    }
    proof {
        assert(split_ends(s, added, target as int, len as int) =~= Seq::empty());
        assert(ends + Seq::<int>::empty() =~= ends);
    }
    out
}

/// The parts of a document.
pub open spec fn parts(s: Seq<u8>, ranges: Seq<(int, int)>) -> Seq<Seq<u8>> {
    ranges.map_values(|r: (int, int)| s.subrange(r.0, r.1))
}

/// The ranges cover the document: they are contiguous from its start to its end,
/// none is empty, and every inner boundary is a split point.
pub proof fn lemma_split_ends(s: Seq<u8>, added: Seq<Seq<u8>>, target: int, start: int)
    requires
        0 <= start < s.len(),
        1 <= target,
    ensures
        split_ends(s, added, target, start).len() > 0,
        split_ends(s, added, target, start).last() == s.len(),
        forall|i: int|
            0 <= i < split_ends(s, added, target, start).len() - 1 ==> split_point(
                s,
                added,
                #[trigger] split_ends(s, added, target, start)[i],
            ),
        forall|i: int, j: int|
            0 <= i < j < split_ends(s, added, target, start).len()
                ==> #[trigger] split_ends(s, added, target, start)[i] < #[trigger] split_ends(
                s,
                added,
                target,
                start,
            )[j],
        forall|i: int|
            0 <= i < split_ends(s, added, target, start).len() ==> start < #[trigger] split_ends(
                s,
                added,
                target,
                start,
            )[i],
    decreases s.len() - start,
{
    let all = split_ends(s, added, target, start);
    let end = next_split(s, added, start + target);
    lemma_next_split(s, added, start + target);
    if start + target >= s.len() {
        assert(end == s.len());
    }
    let rest = split_ends(s, added, target, end);
    assert(all == seq![end] + rest);
    if end < s.len() {
        lemma_split_ends(s, added, target, end);
        assert(all.last() == rest.last());
        assert forall|i: int| 0 <= i < all.len() - 1 implies split_point(s, added, #[trigger] all[i]) by {
            if i > 0 {
                assert(all[i] == rest[i - 1]);
            }
        }
        assert forall|i: int, j: int| 0 <= i < j < all.len() implies #[trigger] all[i]
            < #[trigger] all[j] by {
            assert(all[j] == rest[j - 1]);
            if i > 0 {
                assert(all[i] == rest[i - 1]);
            }
        }
        assert forall|i: int| 0 <= i < all.len() implies start < #[trigger] all[i] by {
            if i > 0 {
                assert(all[i] == rest[i - 1]);
            }
        }
    } else {
        assert(rest =~= Seq::empty());
    }
}

/// The pretokens of each part, one part after the other.
pub open spec fn pretokens_of_parts(docs: Seq<Seq<u8>>) -> Seq<Seq<u8>>
    decreases docs.len(),
{
    if docs.len() == 0 {
        Seq::empty()
    } else {
        pretokens(docs[0]) + pretokens_of_parts(docs.drop_first())
    }
}

/// Splitting keeps the pretokens of valid UTF-8: pretokenizing the parts
/// independently and concatenating is pretokenizing the document in one pass.
pub proof fn lemma_split_keeps_pretokens(s: Seq<u8>, added: Seq<Seq<u8>>, target: int)
    requires
        valid_utf8(s),
        s.len() > 0,
        1 <= target,
    ensures
        pretokens_of_parts(parts(s, ranges_of(0, split_ends(s, added, target, 0)))) == pretokens(s),
{
    lemma_split_keeps_pretokens_from(s, added, target, 0);
    assert(s.skip(0) =~= s);
}

proof fn lemma_split_keeps_pretokens_from(s: Seq<u8>, added: Seq<Seq<u8>>, target: int, start: int)
    requires
        valid_utf8(s),
        0 <= start <= s.len(),
        start == 0 || start == s.len() || safe_cut(s, start),
        1 <= target,
    ensures
        pretokens_of_parts(parts(s, ranges_of(start, split_ends(s, added, target, start))))
            == pretokens_from(s, start),
    decreases s.len() - start,
{
    let ends = split_ends(s, added, target, start);
    if start < s.len() {
        lemma_split_ends(s, added, target, start);
        let end = next_split(s, added, start + target);
        lemma_next_split(s, added, start + target);
        let rest = split_ends(s, added, target, end);
        let all = parts(s, ranges_of(start, ends));
        assert(ends == seq![end] + rest);
        assert(all[0] == s.subrange(start, end));
        assert(all.drop_first() =~= parts(s, ranges_of(end, rest)));
        lemma_split_keeps_pretokens_from(s, added, target, end);
        let u = s.skip(start);
        lemma_suffix_pretokens(s, start, 0);
        assert(pretokens(u) == pretokens_from(s, start));
        if end < s.len() {
            lemma_walks_between_cuts(s, start, end);
            assert(safe_cut(u, end - start));
            lemma_safe_cut(u, end - start);
            assert(u.take(end - start) =~= s.subrange(start, end));
            assert(u.skip(end - start) =~= s.skip(end));
            lemma_suffix_pretokens(s, end, 0);
        } else {
            assert(u =~= s.subrange(start, end));
            assert(rest =~= Seq::empty());
            assert(pretokens_from(s, end) =~= Seq::empty());
            assert(pretokens(u) + Seq::<Seq<u8>>::empty() =~= pretokens(u));
        }
    } else {
        assert(ends =~= Seq::empty());
        assert(parts(s, ranges_of(start, ends)) =~= Seq::empty());
    }
}

/// No occurrence of an added token spans an inner boundary.
pub proof fn lemma_split_keeps_added_tokens(
    s: Seq<u8>,
    added: Seq<Seq<u8>>,
    target: int,
    i: int,
    k: int,
)
    requires
        s.len() > 0,
        1 <= target,
        0 <= i < split_ends(s, added, target, 0).len() - 1,
        0 <= k < added.len(),
    ensures
        !straddles(s, added[k], split_ends(s, added, target, 0)[i]),
{
    lemma_split_ends(s, added, target, 0);
    let p = split_ends(s, added, target, 0)[i];
    assert(split_point(s, added, p));
}

} // verus!
