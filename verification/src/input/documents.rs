//! Contiguous byte resources and zero-copy document splitting.

use vstd::prelude::*;

use crate::input::laws::{docs_between, lemma_par_chunks_keep_docs};
use crate::search::{find_from, first_at, lemma_first_at};
use crate::seqs::occurs_at;

verus! {

/// The documents of `s` from `pos` on: the pieces between occurrences of the
/// separator, without the empty ones. An empty separator leaves one document.
pub open spec fn docs_from(s: Seq<u8>, sep: Seq<u8>, pos: int) -> Seq<Seq<u8>>
    decreases s.len() - pos,
{
    if pos < 0 || pos >= s.len() {
        Seq::empty()
    } else if sep.len() == 0 {
        seq![s.skip(pos)]
    } else {
        match first_at(s, sep, pos) {
            Some(at) => if pos <= at && at + sep.len() <= s.len() {
                (if pos < at {
                    seq![s.subrange(pos, at)]
                } else {
                    Seq::empty()
                }) + docs_from(s, sep, at + sep.len())
            } else {
                Seq::empty()
            },
            None => seq![s.skip(pos)],
        }
    }
}

/// The documents of a byte string.
pub open spec fn docs(s: Seq<u8>, sep: Seq<u8>) -> Seq<Seq<u8>> {
    docs_from(s, sep, 0)
}

/// A contiguous byte buffer that can be split into documents and parallel
/// chunks.
pub trait Resource {
    /// The bytes.
    spec fn content(&self) -> Seq<u8>;

    fn as_bytes(&self) -> (r: &[u8])
        ensures
            r@ == self.content(),
    ;

    /// Iterate documents by splitting on `separator`. If the separator is empty,
    /// the entire buffer is one document.
    fn documents<'a>(&'a self, separator: &'a [u8]) -> (r: DocumentIter<'a>)
        ensures
            r.wf(),
            r.rest() == docs(self.content(), separator@),
    {
        DocumentIter::new(self.as_bytes(), separator)
    }

    /// Split into `n` chunk iterators, each yielding documents. Chunk boundaries
    /// are aligned to separator positions so that no document is split across
    /// chunks.
    fn par_document_chunks<'a>(&'a self, separator: &'a [u8], n: usize) -> (r: Vec<
        DocumentIter<'a>,
    >)
        ensures
            iters_over(r@, self.content(), separator@, chunk_bounds(self.content(), separator@, n as int)),
            docs_between(
                self.content(),
                separator@,
                chunk_bounds(self.content(), separator@, n as int),
            ) == docs(self.content(), separator@),
    {
        par_document_chunks(self.as_bytes(), separator, n)
    }
}

impl Resource for Vec<u8> {
    open spec fn content(&self) -> Seq<u8> {
        self@
    }

    fn as_bytes(&self) -> (r: &[u8]) {
        self.as_slice()
    }
}

impl Resource for [u8] {
    open spec fn content(&self) -> Seq<u8> {
        self@
    }

    fn as_bytes(&self) -> (r: &[u8]) {
        self
    }
}

/// Zero-copy iterator that splits a byte slice on a separator, yielding
/// documents. Empty documents (consecutive separators) are skipped.
pub struct DocumentIter<'a> {
    bytes: &'a [u8],
    separator: &'a [u8],
    position: usize,
    end: usize,
}

impl<'a> DocumentIter<'a> {
    /// The range lies in the bytes.
    pub closed spec fn wf(self) -> bool {
        self.end <= self.bytes@.len()
    }

    /// The documents that are left.
    pub closed spec fn rest(self) -> Seq<Seq<u8>> {
        docs_from(self.bytes@.take(self.end as int), self.separator@, self.position as int)
    }

    pub fn new(bytes: &'a [u8], separator: &'a [u8]) -> (r: Self)
        ensures
            r.wf(),
            r.rest() == docs(bytes@, separator@),
    {
        assert(bytes@.take(bytes@.len() as int) =~= bytes@);
        Self::new_range(bytes, separator, 0, bytes.len())
    }

    fn new_range(bytes: &'a [u8], separator: &'a [u8], start: usize, end: usize) -> (r: Self)
        requires
            end <= bytes@.len(),
        ensures
            r.wf(),
            r.rest() == docs_from(bytes@.take(end as int), separator@, start as int),
    {
        DocumentIter { bytes, separator, position: start, end }
    }

    /// The next document.
    pub fn next(&mut self) -> (r: Option<&'a [u8]>)
        requires
            old(self).wf(),
        ensures
            final(self).wf(),
            match r {
                Some(doc) => old(self).rest() == seq![doc@] + final(self).rest(),
                None => old(self).rest() == Seq::<Seq<u8>>::empty() && final(self).rest()
                    == old(self).rest(),
            },
    {
        let ghost s = self.bytes@.take(self.end as int);
        let ghost sep = self.separator@;
        let ghost want = self.rest();
        let range: &'a [u8] = &self.bytes[0..self.end];
        assert(range@ =~= s);
        let sep_len: usize = self.separator.len();
        while self.position < self.end
            invariant
                self.wf(),
                s == self.bytes@.take(self.end as int),
                sep == self.separator@,
                sep_len == sep.len(),
                range@ == s,
                want == old(self).rest(),
                self.rest() == want,
            decreases self.end - self.position,
        {
            let start: usize = self.position;
            if sep_len == 0 {
                self.position = self.end;
                let doc: &'a [u8] = &range[start..self.end];
                assert(doc@ =~= s.skip(start as int));
                assert(self.rest() =~= Seq::<Seq<u8>>::empty());
                assert(want =~= seq![doc@] + self.rest());
                return Some(doc);
            }
            proof {
                lemma_first_at(s, sep, start as int);
            }
            match find_from(range, self.separator, start) {
                Some(at) => {
                    let doc: &'a [u8] = &range[start..at];
                    self.position = at + sep_len;
                    // Skip empty documents
                    if at > start {
                        assert(doc@ =~= s.subrange(start as int, at as int));
                        return Some(doc);
                    }
                    assert(Seq::<Seq<u8>>::empty() + self.rest() =~= self.rest());
                },
                None => {
                    self.position = self.end;
                    let doc: &'a [u8] = &range[start..self.end];
                    assert(doc@ =~= s.skip(start as int));
                    assert(self.rest() =~= Seq::<Seq<u8>>::empty());
                    assert(want =~= seq![doc@] + self.rest());
                    return Some(doc);
                },
            }
        }
        None
    }

    /// The documents that are left, as a list.
    pub fn collect(self) -> (r: Vec<&'a [u8]>)
        requires
            self.wf(),
        ensures
            doc_views(r@) == self.rest(),
    {
        let ghost want = self.rest();
        let mut it = self;
        let mut r: Vec<&'a [u8]> = Vec::new();
        let mut more: bool = true;
        assert(doc_views(r@) + it.rest() =~= want);
        while more
            invariant
                it.wf(),
                doc_views(r@) + it.rest() == want,
                !more ==> it.rest() == Seq::<Seq<u8>>::empty(),
            decreases it.rest().len() + if more {
                1int
            } else {
                0
            },
        {
            let ghost before = r@;
            let ghost left = it.rest();
            match it.next() {
                Some(doc) => {
                    r.push(doc);
                    assert(doc_views(r@) =~= doc_views(before).push(doc@));
                    assert(doc_views(before) + left =~= doc_views(r@) + it.rest());
                },
                None => {
                    more = false;
                },
            }
        }
        assert(doc_views(r@) + Seq::<Seq<u8>>::empty() =~= doc_views(r@));
        r
    }
}

/// The contents of a list of documents.
pub open spec fn doc_views(v: Seq<&[u8]>) -> Seq<Seq<u8>> {
    v.map_values(|d: &[u8]| d@)
}

/// The first separator at or after `from` of those that a scan takes which goes
/// from `pos` to the front of each separator and on behind it.
pub open spec fn scan_at(s: Seq<u8>, sep: Seq<u8>, pos: int, from: int) -> Option<int>
    decreases s.len() - pos,
{
    match first_at(s, sep, pos) {
        None => None,
        Some(at) => if at >= from {
            Some(at)
        } else if pos < at + sep.len() <= s.len() {
            scan_at(s, sep, at + sep.len(), from)
        } else {
            None
        },
    }
}

/// What [`scan_at`] gives is a separator at or after `from`, that the scan also
/// takes when it is asked for it.
pub proof fn lemma_scan_at(s: Seq<u8>, sep: Seq<u8>, pos: int, from: int)
    requires
        0 <= pos <= s.len(),
        sep.len() > 0,
    ensures
        match scan_at(s, sep, pos, from) {
            Some(at) => {
                &&& from <= at
                &&& pos <= at
                &&& occurs_at(s, sep, at)
                &&& scan_at(s, sep, pos, at) == Some(at)
            },
            None => true,
        },
    decreases s.len() - pos,
{
    lemma_first_at(s, sep, pos);
    if let Some(at) = first_at(s, sep, pos) {
        if at < from {
            lemma_scan_at(s, sep, at + sep.len(), from);
        }
    }
}

/// A scan that took a separator for `a` goes on from there for what is later.
pub proof fn lemma_scan_on(s: Seq<u8>, sep: Seq<u8>, pos: int, a: int, b: int)
    requires
        0 <= pos <= s.len(),
        sep.len() > 0,
        a <= b,
    ensures
        match scan_at(s, sep, pos, a) {
            Some(at) => scan_at(s, sep, pos, b) == scan_at(s, sep, at, b),
            None => scan_at(s, sep, pos, b) is None,
        },
    decreases s.len() - pos,
{
    lemma_first_at(s, sep, pos);
    if let Some(at) = first_at(s, sep, pos) {
        if at < a {
            lemma_scan_on(s, sep, at + sep.len(), a, b);
        } else {
            lemma_first_at(s, sep, at);
            assert(first_at(s, sep, at) == Some(at));
        }
    }
}

/// The first separator at or after `from` of those that a scan from `pos` takes.
pub fn scan_from(bytes: &[u8], separator: &[u8], pos: usize, from: usize) -> (r: Option<usize>)
    requires
        pos <= bytes@.len(),
        separator@.len() > 0,
    ensures
        match r {
            Some(at) => {
                &&& scan_at(bytes@, separator@, pos as int, from as int) == Some(at as int)
                &&& from <= at
                &&& at + separator@.len() <= bytes@.len()
            },
            None => scan_at(bytes@, separator@, pos as int, from as int) is None,
        },
{
    let len: usize = bytes.len();
    let sep_len: usize = separator.len();
    let mut at: usize = pos;
    loop
        invariant
            len == bytes@.len(),
            sep_len == separator@.len(),
            sep_len > 0,
            at <= bytes@.len(),
            scan_at(bytes@, separator@, at as int, from as int) == scan_at(
                bytes@,
                separator@,
                pos as int,
                from as int,
            ),
        decreases bytes@.len() - at,
    {
        proof {
            lemma_first_at(bytes@, separator@, at as int);
        }
        match find_from(bytes, separator, at) {
            None => {
                return None;
            },
            Some(found) => {
                if found >= from {
                    return Some(found);
                }
                assert(occurs_at(bytes@, separator@, found as int));
                at = found + sep_len;
            },
        }
    }
}

/// The ends of the first separators at or after each of the `n` places that
/// divide the bytes evenly, from the `i`th on, as long as there are any. Only
/// those count that a scan from the front takes.
pub open spec fn inner_bounds(s: Seq<u8>, sep: Seq<u8>, n: int, i: int) -> Seq<int>
    decreases n - i,
{
    if i >= n || n <= 0 {
        Seq::empty()
    } else {
        match scan_at(s, sep, 0, i * (s.len() as int / n)) {
            Some(at) => seq![at + sep.len()] + inner_bounds(s, sep, n, i + 1),
            None => Seq::empty(),
        }
    }
}

/// A list without repeats of the element before.
pub open spec fn deduped(v: Seq<int>) -> Seq<int>
    decreases v.len(),
{
    if v.len() <= 1 {
        v
    } else if v.last() == v[v.len() - 2] {
        deduped(v.drop_last())
    } else {
        deduped(v.drop_last()).push(v.last())
    }
}

/// The boundaries of chunks: aligned to the ends of separators that a scan from
/// the front takes.
pub open spec fn chunk_bounds(s: Seq<u8>, sep: Seq<u8>, n: int) -> Seq<int> {
    if n <= 1 || s.len() == 0 || sep.len() == 0 {
        seq![0, s.len() as int]
    } else {
        deduped(seq![0int] + inner_bounds(s, sep, n, 1) + seq![s.len() as int])
    }
}

/// Whether iterators yield the documents between consecutive boundaries.
pub open spec fn iters_over(iters: Seq<DocumentIter>, s: Seq<u8>, sep: Seq<u8>, bounds: Seq<int>) -> bool {
    &&& iters.len() == bounds.len() - 1
    &&& forall|i: int|
        0 <= i < iters.len() ==> (#[trigger] iters[i]).wf() && iters[i].rest() == docs_from(
            s.take(bounds[i + 1]),
            sep,
            bounds[i],
        )
}

/// Where chunks start and end, for a separator and more than one chunk.
fn chunk_boundaries(bytes: &[u8], separator: &[u8], n: usize) -> (boundaries: Vec<usize>)
    requires
        n > 1,
        bytes@.len() > 0,
        separator@.len() > 0,
    ensures
        int_views(boundaries@) == chunk_bounds(bytes@, separator@, n as int),
        forall|j: int| 0 <= j < boundaries@.len() ==> #[trigger] boundaries@[j] <= bytes@.len(),
        boundaries@.len() >= 1,
{
    let ghost s = bytes@;
    let ghost sep = separator@;
    let len: usize = bytes.len();
    let sep_len: usize = separator.len();
    let chunk_size: usize = len / n;
    let mut boundaries: Vec<usize> = Vec::new();
    boundaries.push(0);
    let mut i: usize = 1;
    // A separator that the scan took, or the front.
    let mut scanned: usize = 0;
    let mut more: bool = true;
    let ghost all = inner_bounds(s, sep, n as int, 1);
    assert(int_views(boundaries@) =~= seq![0int]);
    assert(seq![0int] + all =~= int_views(boundaries@) + all);
    while more && i < n
        invariant
            s == bytes@,
            sep == separator@,
            len == s.len(),
            sep_len == sep.len(),
            sep_len > 0,
            1 <= i <= n,
            1 < n,
            chunk_size == len / n,
            scanned <= len,
            forall|f: int|
                i * chunk_size <= f ==> #[trigger] scan_at(s, sep, 0, f) == scan_at(
                    s,
                    sep,
                    scanned as int,
                    f,
                ),
            boundaries@.len() >= 1,
            boundaries@[0] == 0,
            all == inner_bounds(s, sep, n as int, 1),
            more ==> seq![0int] + all == int_views(boundaries@) + inner_bounds(
                s,
                sep,
                n as int,
                i as int,
            ),
            !more ==> seq![0int] + all == int_views(boundaries@),
            forall|k: int| 0 <= k < boundaries@.len() ==> #[trigger] boundaries@[k] <= len,
        decreases n - i + if more {
            1int
        } else {
            0
        },
    {
        proof {
            lemma_share(len as int, n as int, i as int);
        }
        let target: usize = i * chunk_size;
        let ghost before = boundaries@;
        // Scan forward from target to find the next separator
        match scan_from(bytes, separator, scanned, target) {
            Some(at) => {
                boundaries.push(at + sep_len);
                proof {
                    let rest = inner_bounds(s, sep, n as int, i as int + 1);
                    assert(scan_at(s, sep, 0, target as int) == Some(at as int));
                    assert(int_views(boundaries@) =~= int_views(before).push(at + sep_len));
                    assert(int_views(before) + (seq![at + sep_len as int] + rest) =~= int_views(
                        boundaries@,
                    ) + rest);
                    assert((i + 1) * chunk_size == i * chunk_size + chunk_size) by (nonlinear_arith);
                    assert forall|f: int| (i + 1) * chunk_size <= f implies #[trigger] scan_at(
                        s,
                        sep,
                        0,
                        f,
                    ) == scan_at(s, sep, at as int, f) by {
                        lemma_scan_on(s, sep, 0, target as int, f);
                    }
                }
                scanned = at;
                i = i + 1;
            },
            None => {
                // No separator found; remaining data goes in the last chunk
                more = false;
                assert(scan_at(s, sep, 0, target as int) is None);
                assert(int_views(before) + Seq::<int>::empty() =~= int_views(before));
            },
        }
    }
    assert(int_views(boundaries@) + Seq::<int>::empty() =~= int_views(boundaries@));
    let ghost before = boundaries@;
    boundaries.push(len);
    assert(int_views(boundaries@) =~= int_views(before) + seq![len as int]);
    let ghost full = boundaries@;
    dedup(&mut boundaries);
    proof {
        assert forall|j: int| 0 <= j < boundaries@.len() implies #[trigger] boundaries@[j]
            <= len by {
            let x = boundaries@[j];
            assert(boundaries@.contains(x));
            let k = choose|k: int| 0 <= k < full.len() && full[k] == x;
            if k < before.len() {
                assert(before[k] == x);
            }
        }
    }
    boundaries
}

/// Split `bytes` into `n` document iterators with chunk boundaries aligned to
/// separator positions. Each iterator covers a disjoint range. The separators
/// are those that a scan from the front takes, so that no document is split even
/// where a separator overlaps itself.
#[verifier::rlimit(40)]
pub fn par_document_chunks<'a>(bytes: &'a [u8], separator: &'a [u8], n: usize) -> (r: Vec<
    DocumentIter<'a>,
>)
    ensures
        iters_over(r@, bytes@, separator@, chunk_bounds(bytes@, separator@, n as int)),
        docs_between(bytes@, separator@, chunk_bounds(bytes@, separator@, n as int)) == docs(
            bytes@,
            separator@,
        ),
{
    let ghost s = bytes@;
    let ghost sep = separator@;
    let len: usize = bytes.len();
    let mut out: Vec<DocumentIter<'a>> = Vec::new();
    assert(docs_between(s, sep, chunk_bounds(s, sep, n as int)) == docs(s, sep)) by {
        lemma_par_chunks_keep_docs(s, sep, n as int);
    }
    if n <= 1 || len == 0 || separator.len() == 0 {
        out.push(DocumentIter::new(bytes, separator));
        assert(s.take(s.len() as int) =~= s);
        return out;
    }
    let boundaries: Vec<usize> = chunk_boundaries(bytes, separator, n);
    let ghost bounds = chunk_bounds(s, sep, n as int);
    assert(int_views(boundaries@) == bounds);
    for k in 1..boundaries.len()
        invariant
            s == bytes@,
            sep == separator@,
            len == s.len(),
            int_views(boundaries@) == bounds,
            forall|j: int| 0 <= j < boundaries@.len() ==> #[trigger] boundaries@[j] <= len,
            out@.len() == k - 1,
            forall|j: int|
                0 <= j < k - 1 ==> (#[trigger] out@[j]).wf() && out@[j].rest() == docs_from(
                    s.take(bounds[j + 1]),
                    sep,
                    bounds[j],
                ),
    {
        assert(bounds[k - 1] == boundaries@[k - 1] && bounds[k as int] == boundaries@[k as int]);
        out.push(DocumentIter::new_range(bytes, separator, boundaries[k - 1], boundaries[k]));
    }
    out
}

/// Places as integers.
pub open spec fn int_views(v: Seq<usize>) -> Seq<int> {
    v.map_values(|x: usize| x as int)
}

/// The places that divide a length evenly lie in it.
pub proof fn lemma_share(len: int, n: int, i: int)
    requires
        0 <= len,
        1 <= i < n,
    ensures
        0 <= i * (len / n) <= len,
{
    assert(0 <= i * (len / n) <= len) by (nonlinear_arith)
        requires
            0 <= len,
            1 <= i < n,
    ;
}

/// Remove each place that repeats the one before it.
pub fn dedup(v: &mut Vec<usize>)
    requires
        old(v)@.len() >= 1,
    ensures
        int_views(final(v)@) == deduped(int_views(old(v)@)),
        final(v)@.len() >= 1,
        forall|x: usize| #[trigger] final(v)@.contains(x) ==> old(v)@.contains(x),
{
    let ghost before = v@;
    let mut out: Vec<usize> = Vec::new();
    out.push(v[0]);
    assert(int_views(out@) =~= deduped(int_views(before).take(1)));
    for i in 1..v.len()
        invariant
            v@ == before,
            out@.len() >= 1,
            out@.last() == before[i - 1],
            int_views(out@) == deduped(int_views(before).take(i as int)),
            forall|x: usize| #[trigger] out@.contains(x) ==> before.contains(x),
    {
        let ghost prior = out@;
        proof {
            let t = int_views(before).take(i as int + 1);
            assert(t.drop_last() =~= int_views(before).take(i as int));
            assert(t.last() == before[i as int]);
            assert(t[t.len() - 2] == before[i - 1]);
        }
        if v[i] != v[i - 1] {
            out.push(v[i]);
            proof {
                assert(int_views(out@) =~= int_views(prior).push(before[i as int] as int));
                assert forall|x: usize| #[trigger] out@.contains(x) implies before.contains(x) by {
                    let j = choose|j: int| 0 <= j < out@.len() && out@[j] == x;
                    if j < prior.len() {
                        assert(prior[j] == x);
                        assert(prior.contains(x));
                    } else {
                        assert(before[i as int] == x);
                    }
                }
            }
        }
    }
    assert(int_views(before).take(before.len() as int) =~= int_views(before));
    *v = out;
}

} // verus!
