//! Work units for parallel encoding.

use std::ops::Range;
use vstd::prelude::*;

use crate::bpe::tiktoken::total_len;
use crate::input::file_source::{region_docs, DocFormat};
use crate::pretokenize::pretoken::slice_views;
use crate::pretokenize::split::{
    lemma_split_ends, parts, range_views, ranges_of, safe_split_ranges, split_ends,
};

verus! {

/// Parallel chunks must hold at least this many bytes: a chunk this size encodes
/// for tens of milliseconds, so that scheduling overhead is noise. An input that
/// does not fill more than one chunk is encoded serially.
pub const MIN_CHUNK_BYTES: usize = 0x10_0000;

/// The larger of a size and the least size of a chunk.
pub open spec fn at_least_min(n: int) -> int {
    if n < MIN_CHUNK_BYTES {
        MIN_CHUNK_BYTES as int
    } else {
        n
    }
}

/// Target bytes per parallel chunk: about 16 chunks per thread for load
/// balancing, floored so that chunks stay coarse.
pub fn chunk_target_bytes(total_bytes: usize, threads: usize) -> (r: usize)
    requires
        0 < threads <= usize::MAX / 16,
    ensures
        r == at_least_min(total_bytes as int / (16 * threads)),
{
    let share: usize = total_bytes / (16 * threads);
    if share < MIN_CHUNK_BYTES {
        MIN_CHUNK_BYTES
    } else {
        share
    }
}

/// Work unit for parallel encoding.
pub enum EncodeChunk<'a> {
    /// A run of whole documents, one output row each.
    Docs(Vec<&'a [u8]>),
    /// A byte region holding many documents, split during encoding (JSONL lines
    /// or separator-delimited text).
    Region { bytes: &'a [u8], format: &'a DocFormat },
    /// A pretoken-safe fragment of one oversized document. Fragments of a
    /// document are consecutive chunks; `first` marks the document's first
    /// fragment.
    Fragment { bytes: &'a [u8], first: bool },
}

/// What a chunk is.
#[verifier::ext_equal]
pub enum ChunkView {
    Docs(Seq<Seq<u8>>),
    Region { bytes: Seq<u8>, format: DocFormat },
    Fragment { bytes: Seq<u8>, first: bool },
}

impl<'a> View for EncodeChunk<'a> {
    type V = ChunkView;

    open spec fn view(&self) -> ChunkView {
        match *self {
            EncodeChunk::Docs(docs) => ChunkView::Docs(slice_views(docs@)),
            EncodeChunk::Region { bytes, format } => ChunkView::Region {
                bytes: bytes@,
                format: *format,
            },
            EncodeChunk::Fragment { bytes, first } => ChunkView::Fragment { bytes: bytes@, first },
        }
    }
}

/// What chunks are.
pub open spec fn chunk_views(v: Seq<EncodeChunk>) -> Seq<ChunkView> {
    v.map_values(|c: EncodeChunk| c@)
}

impl ChunkView {
    /// The texts that a chunk's rows are encoded from.
    pub open spec fn texts(self) -> Seq<Seq<u8>> {
        match self {
            ChunkView::Docs(docs) => docs,
            ChunkView::Region { bytes, format } => region_docs(bytes, format),
            ChunkView::Fragment { bytes, first } => seq![bytes],
        }
    }

    /// Whether a chunk's first row goes on with the one before.
    pub open spec fn continues(self) -> bool {
        self matches ChunkView::Fragment { bytes, first } && !first
    }
}

/// The parts of an oversized document from range `i` on: a range that starts in
/// the first `head_len` bytes, or is no longer than `tail_target`, is one part;
/// another is split into parts of about `tail_target`.
pub open spec fn parts_from(
    doc: Seq<u8>,
    ranges: Seq<(int, int)>,
    i: int,
    head_len: int,
    tail_target: int,
    added: Seq<Seq<u8>>,
) -> Seq<Seq<u8>>
    decreases ranges.len() - i,
{
    if i < 0 || i >= ranges.len() {
        Seq::empty()
    } else {
        let (a, b) = ranges[i];
        let part = doc.subrange(a, b);
        (if a < head_len || b - a <= tail_target {
            seq![part]
        } else {
            parts(part, ranges_of(0, split_ends(part, added, at_least_one(tail_target), 0)))
        }) + parts_from(doc, ranges, i + 1, head_len, tail_target, added)
    }
}

pub open spec fn at_least_one(n: int) -> int {
    if n < 1 {
        1
    } else {
        n
    }
}

/// The parts of an oversized document.
pub open spec fn fragment_parts(
    doc: Seq<u8>,
    head_len: int,
    big: int,
    tail_target: int,
    added: Seq<Seq<u8>>,
) -> Seq<Seq<u8>> {
    parts_from(
        doc,
        ranges_of(0, split_ends(doc, added, at_least_one(big), 0)),
        0,
        head_len,
        tail_target,
        added,
    )
}

/// The fragments that parts of a document become; the first is marked where
/// `first`.
pub open spec fn fragments(ps: Seq<Seq<u8>>, first: bool) -> Seq<ChunkView> {
    Seq::new(ps.len(), |i: int| ChunkView::Fragment { bytes: ps[i], first: first && i == 0 })
}

/// How chunks are sized.
pub struct Sizes {
    /// Bytes that go into big chunks.
    pub head_bytes: int,
    pub group_big: int,
    pub frag_big: int,
    pub tail_target: int,
    pub lpt: bool,
}

/// The sizes for a total and a target: descending where `lpt`, else uniform.
pub open spec fn sizes(total: int, target: int, lpt: bool) -> Sizes {
    if lpt {
        Sizes {
            head_bytes: total - total / 5,
            group_big: 2 * target,
            frag_big: 2 * target,
            tail_target: at_least_min(target / 4),
            lpt,
        }
    } else {
        Sizes { head_bytes: 0, group_big: target, frag_big: target, tail_target: target, lpt }
    }
}

impl Sizes {
    /// How many bytes of a document that starts behind `emitted` bytes go into
    /// big fragments.
    pub open spec fn head_len(self, emitted: int) -> int {
        if !self.lpt {
            usize::MAX as int
        } else if emitted < self.head_bytes {
            self.head_bytes - emitted
        } else {
            0
        }
    }

    /// The size of a group that starts behind `emitted` bytes.
    pub open spec fn group_target(self, emitted: int) -> int {
        if emitted < self.head_bytes {
            self.group_big
        } else {
            self.tail_target
        }
    }
}

/// A group as a chunk, where it holds anything.
pub open spec fn group_chunk(group: Seq<Seq<u8>>) -> Seq<ChunkView> {
    if group.len() > 0 {
        seq![ChunkView::Docs(group)]
    } else {
        Seq::empty()
    }
}

/// The chunks of documents from document `i` on, where `group` of `acc` bytes is
/// open and `emitted` bytes are in chunks.
pub open spec fn chunks_from(
    docs: Seq<Seq<u8>>,
    i: int,
    group: Seq<Seq<u8>>,
    emitted: int,
    acc: int,
    z: Sizes,
    target: int,
    added: Seq<Seq<u8>>,
) -> Seq<ChunkView>
    decreases docs.len() - i,
{
    if i < 0 || i >= docs.len() {
        group_chunk(group)
    } else {
        let doc = docs[i];
        if doc.len() > 2 * target {
            let out = emitted + acc;
            group_chunk(group) + fragments(
                fragment_parts(doc, z.head_len(out), z.frag_big, z.tail_target, added),
                true,
            ) + chunks_from(docs, i + 1, Seq::empty(), out + doc.len(), 0, z, target, added)
        } else {
            let g = group.push(doc);
            let a = acc + doc.len();
            if a >= z.group_target(emitted) {
                seq![ChunkView::Docs(g)] + chunks_from(
                    docs,
                    i + 1,
                    Seq::empty(),
                    emitted + a,
                    0,
                    z,
                    target,
                    added,
                )
            } else {
                chunks_from(docs, i + 1, g, emitted, a, z, target, added)
            }
        }
    }
}

/// The chunks of documents.
pub open spec fn doc_chunks(docs: Seq<Seq<u8>>, target: int, added: Seq<Seq<u8>>, lpt: bool) -> Seq<
    ChunkView,
> {
    chunks_from(
        docs,
        0,
        Seq::empty(),
        0,
        0,
        sizes(total_len(docs) as int, target, lpt),
        target,
        added,
    )
}

/// Append a fragment, the first of its document where `*first`.
fn push_fragment<'a>(chunks: &mut Vec<EncodeChunk<'a>>, bytes: &'a [u8], first: &mut bool)
    ensures
        chunk_views(final(chunks)@) == chunk_views(old(chunks)@) + seq![
            ChunkView::Fragment { bytes: bytes@, first: *old(first) },
        ],
        !*final(first),
{
    let ghost before = chunks@;
    chunks.push(EncodeChunk::Fragment { bytes, first: *first });
    *first = false;
    assert(chunk_views(chunks@) =~= chunk_views(before) + seq![
        ChunkView::Fragment { bytes: bytes@, first: *old(first) },
    ]);
}

/// One more part, or more of them, at the end of a list of fragments.
proof fn lemma_fragments_concat(a: Seq<Seq<u8>>, b: Seq<Seq<u8>>, first: bool)
    ensures
        fragments(a + b, first) == fragments(a, first) + fragments(b, first && a.len() == 0),
{
    assert(fragments(a + b, first) =~= fragments(a, first) + fragments(b, first && a.len() == 0));
}

/// Split one oversized document into consecutive Fragment chunks: `big`-sized
/// fragments over the first `head_len` bytes, `tail_target`-sized fragments
/// after.
fn push_fragment_chunks<'a>(
    chunks: &mut Vec<EncodeChunk<'a>>,
    doc: &'a [u8],
    head_len: usize,
    big: usize,
    tail_target: usize,
    added_tokens: &[&[u8]],
)
    requires
        doc@.len() > 0,
    ensures
        chunk_views(final(chunks)@) == chunk_views(old(chunks)@) + fragments(
            fragment_parts(
                doc@,
                head_len as int,
                big as int,
                tail_target as int,
                slice_views(added_tokens@),
            ),
            true,
        ),
{
    let ghost before = chunk_views(chunks@);
    let ghost added = slice_views(added_tokens@);
    let ghost s = doc@;
    let mut first: bool = true;
    let ranges: Vec<Range<usize>> = safe_split_ranges(doc, big, added_tokens);
    let ghost all = range_views(ranges@);
    let ghost want = fragment_parts(s, head_len as int, big as int, tail_target as int, added);
    let ghost mut done: Seq<Seq<u8>> = Seq::empty();
    proof {
        lemma_split_ends(s, added, at_least_one(big as int), 0);
        assert(before + fragments(done, true) =~= before);
        assert(done + want =~= want);
        lemma_ranges_in(s, added, at_least_one(big as int));
    }
    for i in 0..ranges.len()
        invariant
            s == doc@,
            added == slice_views(added_tokens@),
            all == range_views(ranges@),
            forall|k: int| 0 <= k < all.len() ==> 0 <= (#[trigger] all[k]).0 < all[k].1 <= s.len(),
            done + parts_from(s, all, i as int, head_len as int, tail_target as int, added) == want,
            first == (done.len() == 0),
            chunk_views(chunks@) == before + fragments(done, true),
    {
        let ghost tail = parts_from(
            s,
            all,
            i as int + 1,
            head_len as int,
            tail_target as int,
            added,
        );
        let a: usize = ranges[i].start;
        let b: usize = ranges[i].end;
        assert(all[i as int] == (a as int, b as int));
        let part: &'a [u8] = &doc[a..b];
        let ghost p = part@;
        let ghost prior = done;
        if a < head_len || b - a <= tail_target {
            push_fragment(chunks, part, &mut first);
            proof {
                let one = seq![p];
                lemma_fragments_concat(prior, one, true);
                assert(fragments(one, prior.len() == 0) =~= seq![
                    ChunkView::Fragment { bytes: p, first: prior.len() == 0 },
                ]);
                assert(before + fragments(prior, true) + fragments(one, prior.len() == 0) =~= before
                    + fragments(prior + one, true));
                assert(prior + (one + tail) =~= prior + one + tail);
                done = prior + one;
            }
        } else {
            let subs: Vec<Range<usize>> = safe_split_ranges(part, tail_target, added_tokens);
            let ghost inner = range_views(subs@);
            let ghost sub = parts(p, inner);
            proof {
                lemma_split_ends(p, added, at_least_one(tail_target as int), 0);
                lemma_ranges_in(p, added, at_least_one(tail_target as int));
                assert(prior + sub.take(0) =~= prior);
            }
            for j in 0..subs.len()
                invariant
                    part@ == p,
                    inner == range_views(subs@),
                    sub == parts(p, inner),
                    forall|k: int|
                        0 <= k < inner.len() ==> 0 <= (#[trigger] inner[k]).0 < inner[k].1
                            <= p.len(),
                    first == ((prior + sub.take(j as int)).len() == 0),
                    chunk_views(chunks@) == before + fragments(prior + sub.take(j as int), true),
            {
                let c: usize = subs[j].start;
                let d: usize = subs[j].end;
                assert(inner[j as int] == (c as int, d as int));
                let piece: &'a [u8] = &part[c..d];
                push_fragment(chunks, piece, &mut first);
                proof {
                    let x = prior + sub.take(j as int);
                    let one = seq![piece@];
                    assert(piece@ == sub[j as int]);
                    lemma_fragments_concat(x, one, true);
                    assert(fragments(one, x.len() == 0) =~= seq![
                        ChunkView::Fragment { bytes: piece@, first: x.len() == 0 },
                    ]);
                    assert(x + one =~= prior + sub.take(j as int + 1));
                    assert(before + fragments(x, true) + fragments(one, x.len() == 0) =~= before
                        + fragments(x + one, true));
                }
            }
            proof {
                assert(sub.take(sub.len() as int) =~= sub);
                assert(prior + (sub + tail) =~= prior + sub + tail);
                done = prior + sub;
                assert(sub.len() > 0);
            }
        }
    }
    assert(done + Seq::<Seq<u8>>::empty() =~= done);
}

/// The ranges of a document lie in it, and none is empty.
proof fn lemma_ranges_in(s: Seq<u8>, added: Seq<Seq<u8>>, target: int)
    requires
        s.len() > 0,
        1 <= target,
    ensures
        forall|k: int|
            0 <= k < split_ends(s, added, target, 0).len() ==> 0 <= (#[trigger] ranges_of(
                0,
                split_ends(s, added, target, 0),
            )[k]).0 < ranges_of(0, split_ends(s, added, target, 0))[k].1 <= s.len(),
{
    let ends = split_ends(s, added, target, 0);
    lemma_split_ends(s, added, target, 0);
    assert forall|k: int| 0 <= k < ends.len() implies 0 <= (#[trigger] ranges_of(0, ends)[k]).0
        < ranges_of(0, ends)[k].1 <= s.len() by {
        assert(0 < ends[k]);
        if k > 0 {
            assert(0 < ends[k - 1]);
            assert(ends[k - 1] < ends[k]);
        }
        if k < ends.len() - 1 {
            assert(ends[k] < ends[ends.len() - 1]);
        }
    }
}

/// Group documents into parallel chunks of descending sizes: chunks of about
/// twice the target over the first 80% of bytes, a quarter of it over the rest.
/// Chunks are handed out in order, so that whoever draws the last one strands the
/// others behind a short tail instead of a full-size one, while the big early
/// chunks amortize per-chunk overhead. A document larger than twice the target
/// is split into consecutive Fragment chunks at pretoken-safe boundaries that no
/// added-token occurrence straddles. Without `lpt` sizes are uniform.
pub fn build_doc_chunks<'a>(
    docs: &[&'a [u8]],
    total: usize,
    target: usize,
    added_tokens: &[&[u8]],
    lpt: bool,
) -> (chunks: Vec<EncodeChunk<'a>>)
    requires
        total == total_len(slice_views(docs@)),
        target <= usize::MAX / 2,
    ensures
        chunk_views(chunks@) == doc_chunks(
            slice_views(docs@),
            target as int,
            slice_views(added_tokens@),
            lpt,
        ),
{
    let ghost views = slice_views(docs@);
    let ghost added = slice_views(added_tokens@);
    let ghost z = sizes(total as int, target as int, lpt);
    let head_bytes: usize;
    let group_big: usize;
    let tail_target: usize;
    if lpt {
        head_bytes = total - total / 5;
        group_big = 2 * target;
        tail_target = if target / 4 < MIN_CHUNK_BYTES {
            MIN_CHUNK_BYTES
        } else {
            target / 4
        };
    } else {
        head_bytes = 0;
        group_big = target;
        tail_target = target;
    }
    let mut chunks: Vec<EncodeChunk<'a>> = Vec::new();
    let mut group: Vec<&'a [u8]> = Vec::new();
    // Bytes already assigned to chunks: positions below `head_bytes` take the
    // big target, the rest the small one.
    let mut emitted: usize = 0;
    let mut acc: usize = 0;
    let ghost want = doc_chunks(views, target as int, added, lpt);
    proof {
        assert(chunk_views(chunks@) =~= Seq::<ChunkView>::empty());
        assert(slice_views(group@) =~= Seq::<Seq<u8>>::empty());
        assert(chunk_views(chunks@) + want =~= want);
        assert(views.take(0) =~= Seq::<Seq<u8>>::empty());
    }
    for i in 0..docs.len()
        invariant
            views == slice_views(docs@),
            added == slice_views(added_tokens@),
            z == sizes(total as int, target as int, lpt),
            z.head_bytes == head_bytes,
            z.group_big == group_big,
            z.frag_big == group_big,
            z.tail_target == tail_target,
            total == total_len(views),
            target <= usize::MAX / 2,
            emitted + acc == total_len(views.take(i as int)),
            chunk_views(chunks@) + chunks_from(
                views,
                i as int,
                slice_views(group@),
                emitted as int,
                acc as int,
                z,
                target as int,
                added,
            ) == want,
    {
        let doc: &'a [u8] = docs[i];
        let ghost before = chunk_views(chunks@);
        let ghost g0 = slice_views(group@);
        proof {
            let t = views.take(i as int + 1);
            assert(t.drop_last() =~= views.take(i as int));
            assert(t.last() == views[i as int]);
            lemma_total_grows(views, i as int + 1);
            assert(views[i as int] == doc@);
        }
        if doc.len() > 2 * target {
            let out: usize = emitted + acc;
            if group.len() > 0 {
                let full: Vec<&'a [u8]> = group;
                let ghost prior = chunks@;
                chunks.push(EncodeChunk::Docs(full));
                group = Vec::new();
                assert(chunk_views(chunks@) =~= chunk_views(prior).push(ChunkView::Docs(g0)));
            }
            assert(chunk_views(chunks@) =~= before + group_chunk(g0));
            let head_len: usize = if !lpt {
                usize::MAX
            } else if out < head_bytes {
                head_bytes - out
            } else {
                0
            };
            push_fragment_chunks(
                &mut chunks,
                doc,
                head_len,
                group_big,
                tail_target,
                added_tokens,
            );
            emitted = out + doc.len();
            acc = 0;
            proof {
                assert(slice_views(group@) =~= Seq::<Seq<u8>>::empty());
                let frags = fragments(
                    fragment_parts(doc@, z.head_len(out as int), z.frag_big, z.tail_target, added),
                    true,
                );
                let rest = chunks_from(
                    views,
                    i as int + 1,
                    Seq::empty(),
                    emitted as int,
                    0,
                    z,
                    target as int,
                    added,
                );
                assert(before + (group_chunk(g0) + frags + rest) =~= before + group_chunk(g0)
                    + frags + rest);
            }
        } else {
            group.push(doc);
            acc = acc + doc.len();
            let ghost g = slice_views(group@);
            assert(g =~= g0.push(doc@));
            let group_target: usize = if emitted < head_bytes {
                group_big
            } else {
                tail_target
            };
            if acc >= group_target {
                let full: Vec<&'a [u8]> = group;
                let ghost prior = chunks@;
                chunks.push(EncodeChunk::Docs(full));
                group = Vec::new();
                emitted = emitted + acc;
                acc = 0;
                proof {
                    assert(chunk_views(chunks@) =~= chunk_views(prior).push(ChunkView::Docs(g)));
                    assert(slice_views(group@) =~= Seq::<Seq<u8>>::empty());
                    let rest = chunks_from(
                        views,
                        i as int + 1,
                        Seq::empty(),
                        emitted as int,
                        0,
                        z,
                        target as int,
                        added,
                    );
                    assert(before + (seq![ChunkView::Docs(g)] + rest) =~= chunk_views(chunks@)
                        + rest);
                }
            }
        }
    }
    let ghost before = chunk_views(chunks@);
    let ghost g0 = slice_views(group@);
    if group.len() > 0 {
        let ghost prior = chunks@;
        chunks.push(EncodeChunk::Docs(group));
        assert(chunk_views(chunks@) =~= chunk_views(prior).push(ChunkView::Docs(g0)));
    }
    assert(chunk_views(chunks@) =~= before + group_chunk(g0));
    chunks
}

/// The total length of some of a list is at most that of all of it.
pub proof fn lemma_total_grows(list: Seq<Seq<u8>>, k: int)
    requires
        0 <= k <= list.len(),
    ensures
        total_len(list.take(k)) <= total_len(list),
    decreases list.len() - k,
{
    if k < list.len() {
        lemma_total_grows(list, k + 1);
        let t = list.take(k + 1);
        assert(t.drop_last() =~= list.take(k));
    } else {
        assert(list.take(k) =~= list);
    }
}

} // verus!
