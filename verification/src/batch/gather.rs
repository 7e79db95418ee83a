//! Gathering chunk outputs while the rest is still being encoded.

use vstd::prelude::*;

use crate::batch::rows::{append_u32, flat_ids, gather_flat, ChunkTokens};

verus! {

/// Chunks committed per [`Committer::advance`] call. Bounds how long one worker
/// is away from encoding; anything left over is drained by later completions or
/// by [`Committer::finish`].
pub const MAX_DRAIN: usize = 8;

/// The in-flight state of the overlapped gather: a flat id buffer bounded before
/// chunk sizes are known, plus a cursor over the longest fully-encoded prefix of
/// the chunk sequence.
///
/// The upper bound: a token consumes at least one input byte, so the number of
/// input bytes bounds the output. The bound can be overrun only where NFC
/// normalization expands bytes: committing then stops for good, and `finish`
/// gives nothing.
pub struct Committer {
    flat: Vec<u32>,
    /// Capacity in tokens; commits never go past it.
    cap: usize,
    /// Index of the first uncommitted chunk.
    next: usize,
    /// A chunk did not fit under `cap`; committing has stopped for good.
    overflowed: bool,
}

/// The ids of the chunks that are done, from the first on, up to `n` of them.
pub open spec fn done_ids(outs: Seq<Option<ChunkTokens>>, n: int) -> Seq<u32>
    decreases n,
{
    if n <= 0 {
        Seq::empty()
    } else {
        done_ids(outs, n - 1) + match outs[n - 1] {
            Some(chunk) => chunk.ids@,
            None => Seq::empty(),
        }
    }
}

/// Whether the first `n` chunks are done.
pub open spec fn done_upto(outs: Seq<Option<ChunkTokens>>, n: int) -> bool {
    n <= outs.len() && forall|i: int| 0 <= i < n ==> #[trigger] outs[i] is Some
}

impl Committer {
    /// How many chunks are committed.
    pub closed spec fn committed(self) -> int {
        self.next as int
    }

    /// The ids of the committed chunks.
    pub closed spec fn ids(self) -> Seq<u32> {
        self.flat@
    }

    /// The bound.
    pub closed spec fn bound(self) -> int {
        self.cap as int
    }

    /// Whether committing has stopped for good.
    pub closed spec fn stopped(self) -> bool {
        self.overflowed
    }

    /// The committed ids fit under the bound.
    pub open spec fn wf(self) -> bool {
        self.ids().len() <= self.bound()
    }

    /// A committer for up to `cap` tokens; none for no tokens.
    pub fn try_new(cap: usize) -> (r: Option<Self>)
        ensures
            cap == 0 <==> r is None,
            r matches Some(c) ==> c.wf() && c.bound() == cap && c.committed() == 0 && c.ids()
                == Seq::<u32>::empty() && !c.stopped(),
    {
        if cap == 0 {
            return None;
        }
        Some(Committer { flat: Vec::new(), cap, next: 0, overflowed: false })
    }

    /// Copy any freshly completed prefix chunks into the flat buffer: up to
    /// [`MAX_DRAIN`] of those that are done next, unless one does not fit.
    pub fn advance(&mut self, outs: &[Option<ChunkTokens>])
        requires
            old(self).wf(),
            done_upto(outs@, old(self).committed()),
            old(self).ids() == done_ids(outs@, old(self).committed()),
        ensures
            final(self).wf(),
            final(self).bound() == old(self).bound(),
            old(self).committed() <= final(self).committed() <= old(self).committed() + MAX_DRAIN,
            done_upto(outs@, final(self).committed()),
            final(self).ids() == done_ids(outs@, final(self).committed()),
            old(self).stopped() ==> final(self).committed() == old(self).committed(),
            old(self).stopped() ==> final(self).stopped(),
            // Where it stops short of the limit, it has reason to: the next
            // chunk is not done, or does not fit.
            final(self).committed() < old(self).committed() + MAX_DRAIN ==> {
                ||| final(self).stopped()
                ||| final(self).committed() == outs@.len()
                ||| outs@[final(self).committed()] is None
            },
            final(self).stopped() && !old(self).stopped() ==> {
                &&& final(self).committed() < outs@.len()
                &&& outs@[final(self).committed()] matches Some(chunk) && final(self).ids().len()
                    + chunk.ids@.len() > final(self).bound()
            },
    {
        let ghost start = self.next as int;
        let mut left: usize = MAX_DRAIN;
        while left > 0
            invariant
                self.wf(),
                self.bound() == old(self).bound(),
                left <= MAX_DRAIN,
                start == old(self).committed(),
                self.committed() == start + MAX_DRAIN - left,
                done_upto(outs@, self.committed()),
                self.ids() == done_ids(outs@, self.committed()),
                self.stopped() == old(self).stopped(),
                old(self).stopped() ==> self.committed() == start,
            decreases left,
        {
            if self.overflowed {
                return;
            }
            if self.next >= outs.len() {
                return;
            }
            let chunk: &ChunkTokens = match &outs[self.next] {
                Some(chunk) => chunk,
                None => return,
            };
            let len: usize = chunk.ids.len();
            if self.cap - self.flat.len() < len {
                self.overflowed = true;
                return;
            }
            append_u32(&mut self.flat, chunk.ids.as_slice());
            self.next = self.next + 1;
            left = left - 1;
        }
    }

    /// After all chunks are encoded: copy the uncommitted suffix. None means that
    /// the bound was overrun; the chunk buffers are still intact.
    pub fn finish(self, chunks: &[ChunkTokens], total: usize) -> (r: Option<Vec<u32>>)
        requires
            self.wf(),
            self.committed() <= chunks@.len(),
            self.ids() == flat_ids(chunks@.take(self.committed())),
            total == flat_ids(chunks@).len(),
        ensures
            match r {
                Some(flat) => !self.stopped() && total <= self.bound() && flat@ == flat_ids(
                    chunks@,
                ),
                None => self.stopped() || total > self.bound(),
            },
    {
        if self.overflowed || total > self.cap {
            return None;
        }
        let mut flat: Vec<u32> = self.flat;
        let mut i: usize = self.next;
        while i < chunks.len()
            invariant
                i <= chunks@.len(),
                flat@ == flat_ids(chunks@.take(i as int)),
            decreases chunks@.len() - i,
        {
            append_u32(&mut flat, chunks[i].ids.as_slice());
            proof {
                let t = chunks@.take(i as int + 1);
                assert(t.drop_last() =~= chunks@.take(i as int));
                assert(t.last() == chunks@[i as int]);
            }
            i = i + 1;
        }
        assert(chunks@.take(chunks@.len() as int) =~= chunks@);
        Some(flat)
    }
}

/// The ids of chunks that are all done.
pub proof fn lemma_done_ids(outs: Seq<Option<ChunkTokens>>, chunks: Seq<ChunkTokens>, n: int)
    requires
        0 <= n <= outs.len(),
        outs.len() == chunks.len(),
        forall|i: int| 0 <= i < outs.len() ==> #[trigger] outs[i] == Some(chunks[i]),
    ensures
        done_ids(outs, n) == flat_ids(chunks.take(n)),
    decreases n,
{
    if n > 0 {
        lemma_done_ids(outs, chunks, n - 1);
        let t = chunks.take(n);
        assert(t.drop_last() =~= chunks.take(n - 1));
        assert(t.last() == chunks[n - 1]);
        assert(outs[n - 1] == Some(chunks[n - 1]));
    } else {
        assert(chunks.take(0) =~= Seq::<ChunkTokens>::empty());
    }
}

/// The ids of the first chunks stay as more of them are done.
pub proof fn lemma_done_stays(
    before: Seq<Option<ChunkTokens>>,
    after: Seq<Option<ChunkTokens>>,
    n: int,
)
    requires
        0 <= n <= before.len(),
        n <= after.len(),
        forall|i: int| 0 <= i < n ==> #[trigger] after[i] == before[i],
    ensures
        done_ids(after, n) == done_ids(before, n),
    decreases n,
{
    if n > 0 {
        lemma_done_stays(before, after, n - 1);
        assert(after[n - 1] == before[n - 1]);
    }
}

/// Gather all chunks with what a committer has of them, if there is one, or from
/// the chunk buffers: the result is the same.
pub fn gather(committer: Option<Committer>, chunks: &[ChunkTokens]) -> (flat: Vec<u32>)
    requires
        committer matches Some(c) ==> c.wf() && c.committed() <= chunks@.len() && c.ids()
            == flat_ids(chunks@.take(c.committed())),
    ensures
        flat@ == flat_ids(chunks@),
{
    match (committer, total_ids(chunks)) {
        (Some(c), Some(total)) => match c.finish(chunks, total) {
            Some(flat) => flat,
            None => gather_flat(chunks),
        },
        _ => gather_flat(chunks),
    }
}

/// How many ids chunks hold together, where the number fits.
fn total_ids(chunks: &[ChunkTokens]) -> (r: Option<usize>)
    ensures
        match r {
            Some(n) => n == flat_ids(chunks@).len(),
            None => flat_ids(chunks@).len() > usize::MAX,
        },
{
    let mut total: usize = 0;
    assert(chunks@.take(0) =~= Seq::<ChunkTokens>::empty());
    for i in 0..chunks.len()
        invariant
            total == flat_ids(chunks@.take(i as int)).len(),
    {
        proof {
            let t = chunks@.take(i as int + 1);
            assert(t.drop_last() =~= chunks@.take(i as int));
            assert(t.last() == chunks@[i as int]);
            lemma_flat_grows(chunks@, i as int + 1);
        }
        match total.checked_add(chunks[i].ids.len()) {
            Some(n) => {
                total = n;
            },
            None => return None,
        }
    }
    assert(chunks@.take(chunks@.len() as int) =~= chunks@);
    Some(total)
}

proof fn lemma_flat_grows(chunks: Seq<ChunkTokens>, k: int)
    requires
        0 <= k <= chunks.len(),
    ensures
        flat_ids(chunks.take(k)).len() <= flat_ids(chunks).len(),
    decreases chunks.len() - k,
{
    if k < chunks.len() {
        lemma_flat_grows(chunks, k + 1);
        let t = chunks.take(k + 1);
        assert(t.drop_last() =~= chunks.take(k));
    } else {
        assert(chunks.take(k) =~= chunks);
    }
}

} // verus!
