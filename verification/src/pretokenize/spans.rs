//! Batched pretoken pulling: spans with their cache keys.

use vstd::prelude::*;

use crate::pretokenize::keys::{key_hash, pack_pretoken_key, pretoken_key, pretoken_key_hash};
use crate::pretokenize::pretoken::{pretoken_views, slice_views, Pretoken};
use crate::pretokenize::r50k::FastR50kPretokenizer;

verus! {

/// Chunk size of [`PretokenSpans::fill_spans_keyed`].
pub const PRETOKEN_CHUNK: usize = 256;

/// The cache key of a pretoken, 0 where it has none: for a pretoken that is
/// empty or longer than 15 bytes.
pub open spec fn span_key(s: Seq<u8>) -> u128 {
    if s.len() <= 15 {
        pretoken_key(s)
    } else {
        0
    }
}

/// The hash of a pretoken's key, 0 for a pretoken longer than 15 bytes.
pub open spec fn span_hash(s: Seq<u8>) -> u64 {
    if s.len() <= 15 {
        key_hash(pretoken_key(s))
    } else {
        0
    }
}

/// A chunk of spans with their packed keys and key hashes.
pub struct SpanBatch<'a> {
    pub spans: Vec<&'a [u8]>,
    pub keys: Vec<u128>,
    pub hashes: Vec<u64>,
}

impl<'a> SpanBatch<'a> {
    /// The spans, each with its key and its hash.
    pub open spec fn holds(self, spans: Seq<Seq<u8>>) -> bool {
        &&& slice_views(self.spans@) == spans
        &&& self.keys@.len() == spans.len()
        &&& self.hashes@.len() == spans.len()
        &&& forall|i: int|
            0 <= i < spans.len() ==> #[trigger] self.keys@[i] == span_key(spans[i])
                && self.hashes@[i] == span_hash(spans[i])
    }

    /// An empty batch.
    pub fn new() -> (b: Self)
        ensures
            b.holds(Seq::<Seq<u8>>::empty()),
    {
        let b = SpanBatch { spans: Vec::new(), keys: Vec::new(), hashes: Vec::new() };
        assert(slice_views(b.spans@) =~= Seq::<Seq<u8>>::empty());
        b
    }

    /// Drop every span.
    pub fn clear(&mut self)
        ensures
            final(self).holds(Seq::<Seq<u8>>::empty()),
    {
        self.spans.clear();
        self.keys.clear();
        self.hashes.clear();
        assert(slice_views(self.spans@) =~= Seq::<Seq<u8>>::empty());
    }

    /// Append a span, deriving its key and hash.
    pub fn push(&mut self, span: &'a [u8], before: Ghost<Seq<Seq<u8>>>)
        requires
            old(self).holds(before@),
        ensures
            final(self).holds(before@.push(span@)),
    {
        let (key, h): (u128, u64) = match pack_pretoken_key(span) {
            Some(key) => (key, pretoken_key_hash(key)),
            None => (0, 0),
        };
        self.spans.push(span);
        self.keys.push(key);
        self.hashes.push(h);
        assert(slice_views(self.spans@) =~= before@.push(span@));
    }
}

/// A source of pretoken spans, pulled a chunk at a time with their cache
/// keys derived on the way out.
pub trait PretokenSpans<'a>: Sized {
    /// The pretokens that are left.
    spec fn rest(&self) -> Seq<Seq<u8>>;

    /// The next span, `None` where none is left.
    fn next_span(&mut self) -> (r: Option<&'a [u8]>)
        ensures
            match r {
                Some(b) => old(self).rest() == seq![b@] + final(self).rest(),
                None => old(self).rest().len() == 0 && final(self).rest().len() == 0,
            },
    ;

    /// Fill the batch with the next pretoken spans, their packed keys (0 for
    /// pretokens that are empty or longer than 15 bytes) and key hashes.
    /// Returns how many were written; a short count (0 too) means that the
    /// input is exhausted.
    fn fill_spans_keyed(&mut self, batch: &mut SpanBatch<'a>) -> (n: usize)
        ensures
            n == if old(self).rest().len() < PRETOKEN_CHUNK {
                old(self).rest().len() as int
            } else {
                PRETOKEN_CHUNK as int
            },
            final(batch).holds(old(self).rest().take(n as int)),
            final(self).rest() == old(self).rest().skip(n as int),
    {
        let ghost all = self.rest();
        batch.clear();
        let mut n: usize = 0;
        proof {
            assert(all.take(0) =~= Seq::<Seq<u8>>::empty());
            assert(all.skip(0) =~= all);
        }
        while n < PRETOKEN_CHUNK
            invariant
                n <= PRETOKEN_CHUNK,
                n <= all.len(),
                batch.holds(all.take(n as int)),
                self.rest() == all.skip(n as int),
            ensures
                n == if all.len() < PRETOKEN_CHUNK {
                    all.len() as int
                } else {
                    PRETOKEN_CHUNK as int
                },
                batch.holds(all.take(n as int)),
                self.rest() == all.skip(n as int),
            decreases PRETOKEN_CHUNK - n,
        {
            let ghost left = self.rest();
            match self.next_span() {
                None => {
                    assert(all.skip(n as int).len() == 0);
                    assert(self.rest() =~= all.skip(n as int));
                    break;
                },
                Some(span) => {
                    proof {
                        assert(left[0] == span@);
                        assert(left.len() > 0);
                        assert(all[n as int] == span@);
                        assert(all.take(n as int + 1) =~= all.take(n as int).push(span@));
                        assert(self.rest() =~= left.skip(1));
                        assert(left.skip(1) =~= all.skip(n as int + 1));
                    }
                    batch.push(span, Ghost(all.take(n as int)));
                    n = n + 1;
                },
            }
        }
        n
    }
}

impl<'a> PretokenSpans<'a> for FastR50kPretokenizer<'a> {
    open spec fn rest(&self) -> Seq<Seq<u8>> {
        self.remaining()
    }

    fn next_span(&mut self) -> (r: Option<&'a [u8]>) {
        match self.next() {
            Some(p) => Some(p.0),
            None => None,
        }
    }
}

/// A list of pretokens as a source of spans.
pub struct SpanIter<'a> {
    pretokens: Vec<Pretoken<'a>>,
    pos: usize,
}

impl<'a> SpanIter<'a> {
    /// The pretokens of the list.
    pub fn new(pretokens: Vec<Pretoken<'a>>) -> (r: Self)
        ensures
            r.rest() == pretoken_views(pretokens@),
    {
        let r = SpanIter { pretokens, pos: 0 };
        assert(r.rest() =~= pretoken_views(pretokens@));
        r
    }
}

impl<'a> PretokenSpans<'a> for SpanIter<'a> {
    closed spec fn rest(&self) -> Seq<Seq<u8>> {
        if self.pos < self.pretokens@.len() {
            pretoken_views(self.pretokens@).skip(self.pos as int)
        } else {
            Seq::empty()
        }
    }

    fn next_span(&mut self) -> (r: Option<&'a [u8]>) {
        let ghost all = pretoken_views(self.pretokens@);
        if self.pos < self.pretokens.len() {
            let p: Pretoken<'a> = self.pretokens[self.pos];
            proof {
                assert(all.skip(self.pos as int) =~= seq![p@] + all.skip(self.pos as int + 1));
            }
            self.pos = self.pos + 1;
            assert(self.rest() =~= all.skip(self.pos as int));
            Some(p.0)
        } else {
            None
        }
    }
}

} // verus!
