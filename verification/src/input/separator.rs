//! Streaming document splitter for plain text.

use vstd::prelude::*;

use crate::input::documents::docs;
use crate::input::laws::lemma_docs_shift;
use crate::search::{find_from, first_at, lemma_first_at};
use crate::seqs::{append_bytes, copy_bytes, occurs_at};

verus! {

/// Takes the bytes of a stream piece by piece, and gives its documents: the bytes
/// between two separators, without the empty ones. Buffers only what no document
/// has been given of yet, not the entire input.
pub struct SeparatorReader {
    separator: Vec<u8>,
    buf: Vec<u8>,
    /// No separator starts before this place of the buffer.
    searched: usize,
}

impl View for SeparatorReader {
    type V = Seq<u8>;

    /// The bytes that are left.
    closed spec fn view(&self) -> Seq<u8> {
        self.buf@
    }
}

/// The first occurrence in a byte string stays the first as it grows.
proof fn lemma_first_stays(s: Seq<u8>, more: Seq<u8>, sep: Seq<u8>, pos: int)
    requires
        0 <= pos <= s.len(),
        first_at(s, sep, pos) is Some,
    ensures
        first_at(s + more, sep, pos) == first_at(s, sep, pos),
{
    let t = s + more;
    lemma_first_at(s, sep, pos);
    lemma_first_at(t, sep, pos);
    let at = first_at(s, sep, pos)->0;
    assert(t.subrange(at, at + sep.len()) =~= s.subrange(at, at + sep.len()));
    assert(occurs_at(t, sep, at));
    let b = first_at(t, sep, pos)->0;
    if b < at {
        assert(t.subrange(b, b + sep.len()) =~= s.subrange(b, b + sep.len()));
        assert(occurs_at(s, sep, b));
    }
}

/// What follows the first separator of a stream.
proof fn lemma_docs_step(s: Seq<u8>, more: Seq<u8>, sep: Seq<u8>)
    requires
        sep.len() > 0,
        first_at(s, sep, 0) is Some,
    ensures
        ({
            let at = first_at(s, sep, 0)->0;
            &&& 0 <= at
            &&& at + sep.len() <= s.len()
            &&& docs(s + more, sep) == (if at > 0 {
                seq![s.take(at)]
            } else {
                Seq::empty()
            }) + docs(s.skip(at + sep.len()) + more, sep)
        }),
{
    let t = s + more;
    lemma_first_at(s, sep, 0);
    lemma_first_stays(s, more, sep, 0);
    let at = first_at(s, sep, 0)->0;
    let next = at + sep.len();
    assert(t.subrange(0, at) =~= s.take(at));
    assert(t.skip(next) =~= s.skip(next) + more);
    lemma_docs_shift(t, sep, next, 0);
}

impl SeparatorReader {
    /// The separator.
    pub closed spec fn sep(self) -> Seq<u8> {
        self.separator@
    }

    /// What was searched holds no separator.
    pub closed spec fn wf(self) -> bool {
        &&& self.searched <= self.buf@.len()
        &&& forall|i: int| 0 <= i < self.searched ==> !#[trigger] occurs_at(
            self.buf@,
            self.separator@,
            i,
        )
    }

    /// Whether a document is waiting: the bytes that are left hold a separator.
    pub open spec fn ready(self) -> bool {
        self.sep().len() > 0 && first_at(self@, self.sep(), 0) is Some
    }

    pub fn new(separator: &[u8]) -> (r: Self)
        ensures
            r.wf(),
            r@ == Seq::<u8>::empty(),
            r.sep() == separator@,
    {
        SeparatorReader { separator: copy_bytes(separator), buf: Vec::new(), searched: 0 }
    }

    /// Take the next bytes of the stream.
    pub fn push(&mut self, data: &[u8])
        requires
            old(self).wf(),
        ensures
            final(self).wf(),
            final(self)@ == old(self)@ + data@,
            final(self).sep() == old(self).sep(),
    {
        let ghost before = self.buf@;
        // A separator may span what was searched and the new data.
        let overlap: usize = if self.separator.len() == 0 {
            0
        } else {
            self.separator.len() - 1
        };
        let safe: usize = if self.buf.len() > overlap {
            self.buf.len() - overlap
        } else {
            0
        };
        if self.searched > safe {
            self.searched = safe;
        }
        append_bytes(&mut self.buf, data);
        proof {
            let sep = self.separator@;
            assert forall|i: int| 0 <= i < self.searched implies !#[trigger] occurs_at(
                self.buf@,
                sep,
                i,
            ) by {
                if occurs_at(self.buf@, sep, i) {
                    assert(self.buf@.subrange(i, i + sep.len()) =~= before.subrange(
                        i,
                        i + sep.len(),
                    ));
                    assert(occurs_at(before, sep, i));
                }
            }
        }
    }

    /// The next document that is complete, or `None` where more bytes are
    /// needed. Whatever follows in the stream, the document is its next, and
    /// the rest of its documents are those of what is left.
    pub fn next_doc(&mut self) -> (r: Option<Vec<u8>>)
        requires
            old(self).wf(),
        ensures
            final(self).wf(),
            final(self).sep() == old(self).sep(),
            match r {
                Some(doc) => forall|more: Seq<u8>| #[trigger]
                    docs(old(self)@ + more, old(self).sep()) == seq![doc@] + docs(
                        final(self)@ + more,
                        old(self).sep(),
                    ),
                None => !final(self).ready() && forall|more: Seq<u8>| #[trigger]
                    docs(old(self)@ + more, old(self).sep()) == docs(
                        final(self)@ + more,
                        old(self).sep(),
                    ),
            },
    {
        let ghost start = self.buf@;
        let ghost sep = self.separator@;
        let sep_len: usize = self.separator.len();
        if sep_len == 0 {
            return None;
        }
        let mut more_docs: bool = true;
        while more_docs
            invariant
                self.wf(),
                self.separator@ == sep,
                start == old(self)@,
                sep == old(self).sep(),
                sep_len == sep.len(),
                sep_len > 0,
                !more_docs ==> !self.ready(),
                forall|more: Seq<u8>| #[trigger]
                    docs(start + more, sep) == docs(self.buf@ + more, sep),
            decreases self.buf@.len() + if more_docs {
                1int
            } else {
                0
            },
        {
            let ghost cur = self.buf@;
            proof {
                lemma_first_at(cur, sep, 0);
                lemma_first_at(cur, sep, self.searched as int);
            }
            match find_from(self.buf.as_slice(), self.separator.as_slice(), self.searched) {
                Some(at) => {
                    assert(first_at(cur, sep, 0) == Some(at as int)) by {
                        let b = first_at(cur, sep, 0);
                        assert(occurs_at(cur, sep, at as int));
                        assert(b is Some);
                        if b->0 < self.searched {
                            assert(!occurs_at(cur, sep, b->0));
                        }
                    }
                    let n: usize = self.buf.len();
                    let doc: Vec<u8> = copy_bytes(&self.buf[0..at]);
                    // Keep everything after the separator for the next call
                    let rest: Vec<u8> = copy_bytes(&self.buf[at + sep_len..n]);
                    proof {
                        assert(doc@ =~= cur.take(at as int));
                        assert(rest@ =~= cur.skip(at + sep_len));
                        assert forall|more: Seq<u8>| #[trigger] docs(cur + more, sep) == (if at
                            > 0 {
                            seq![doc@]
                        } else {
                            Seq::empty()
                        }) + docs(rest@ + more, sep) by {
                            lemma_docs_step(cur, more, sep);
                        }
                    }
                    self.buf = rest;
                    self.searched = 0;
                    // Skip empty documents
                    if at > 0 {
                        assert forall|more: Seq<u8>| #[trigger] docs(start + more, sep) == seq![
                            doc@,
                        ] + docs(self.buf@ + more, sep) by {
                            assert(docs(start + more, sep) == docs(cur + more, sep));
                        }
                        return Some(doc);
                    }
                    assert forall|more: Seq<u8>| #[trigger] docs(start + more, sep) == docs(
                        self.buf@ + more,
                        sep,
                    ) by {
                        assert(docs(start + more, sep) == docs(cur + more, sep));
                        assert(Seq::<Seq<u8>>::empty() + docs(self.buf@ + more, sep) =~= docs(
                            self.buf@ + more,
                            sep,
                        ));
                    }
                },
                None => {
                    proof {
                        assert forall|i: int| 0 <= i < cur.len() implies !#[trigger] occurs_at(
                            cur,
                            sep,
                            i,
                        ) by {}
                        assert(first_at(cur, sep, 0) is None) by {
                            if let Some(b) = first_at(cur, sep, 0) {
                                assert(occurs_at(cur, sep, b));
                            }
                        }
                    }
                    self.searched = self.buf.len();
                    more_docs = false;
                },
            }
        }
        None
    }

    /// The last document, at the end of the stream.
    pub fn finish(self) -> (r: Option<Vec<u8>>)
        requires
            !self.ready(),
        ensures
            docs(self@, self.sep()) == match r {
                Some(doc) => seq![doc@],
                None => Seq::empty(),
            },
    {
        assert(self.buf@.skip(0) =~= self.buf@);
        if self.buf.len() == 0 {
            assert(docs(self@, self.sep()) =~= Seq::<Seq<u8>>::empty());
            None
        } else {
            Some(self.buf)
        }
    }
}

} // verus!
