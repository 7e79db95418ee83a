//! The production pretokenizer for the GPT-2 (r50k_base) regex.

use vstd::prelude::*;

use crate::pretokenize::gpt2::{advance_pos, pretoken_end, pretokens, pretokens_from};
use crate::pretokenize::pretoken::{pretoken_views, Pretoken};

verus! {

/// Splits a document into pretokens, one at a time.
pub struct FastR50kPretokenizer<'a> {
    bytes: &'a [u8],
    pos: usize,
}

impl<'a> FastR50kPretokenizer<'a> {
    /// The document.
    pub closed spec fn doc(self) -> Seq<u8> {
        self.bytes@
    }

    /// The offset of the next pretoken.
    pub closed spec fn at(self) -> usize {
        self.pos
    }

    /// The pretokens that are left.
    pub open spec fn remaining(self) -> Seq<Seq<u8>> {
        pretokens_from(self.doc(), self.at() as int)
    }

    /// Start at the front of `bytes`.
    #[inline]
    pub fn new(bytes: &'a [u8]) -> (r: Self)
        ensures
            r.doc() == bytes@,
            r.at() == 0,
    {
        Self { bytes, pos: 0 }
    }

    /// Resume iteration at a byte offset previously returned by [`Self::pos`].
    #[inline]
    pub fn with_pos(bytes: &'a [u8], pos: usize) -> (r: Self)
        ensures
            r.doc() == bytes@,
            r.at() == pos,
    {
        Self { bytes, pos }
    }

    /// Current position as a byte offset into the input.
    #[inline]
    pub fn pos(&self) -> (r: usize)
        ensures
            r == self.at(),
    {
        self.pos
    }

    /// The next pretoken, `None` at the end of the document.
    #[inline]
    pub fn next(&mut self) -> (r: Option<Pretoken<'a>>)
        ensures
            final(self).doc() == old(self).doc(),
            match r {
                Some(p) => {
                    &&& old(self).at() < old(self).doc().len()
                    &&& final(self).at() == pretoken_end(old(self).doc(), old(self).at() as int)
                    &&& old(self).at() < final(self).at() <= old(self).doc().len()
                    &&& p@ == old(self).doc().subrange(
                        old(self).at() as int,
                        final(self).at() as int,
                    )
                    &&& old(self).remaining() == seq![p@] + final(self).remaining()
                },
                None => {
                    &&& old(self).at() >= old(self).doc().len()
                    &&& final(self).at() == old(self).at()
                    &&& old(self).remaining() == Seq::<Seq<u8>>::empty()
                },
            },
    {
        let start: usize = self.pos;
        if start >= self.bytes.len() {
            return None;
        }
        let end: usize = advance_pos(self.bytes, start);
        self.pos = end;
        Some(Pretoken(&self.bytes[start..end]))
    }

    /// The pretokens that are left, as a list.
    pub fn collect(self) -> (v: Vec<Pretoken<'a>>)
        ensures
            pretoken_views(v@) == self.remaining(),
    {
        let mut it: FastR50kPretokenizer<'a> = self;
        let mut v: Vec<Pretoken<'a>> = Vec::new();
        assert(pretoken_views(v@) + it.remaining() =~= self.remaining());
        loop
            invariant
                it.doc() == self.doc(),
                pretoken_views(v@) + it.remaining() == self.remaining(),
            ensures
                pretoken_views(v@) == self.remaining(),
            decreases it.doc().len() - it.at(),
        {
            let ghost before = it.remaining();
            match it.next() {
                None => {
                    assert(pretoken_views(v@) + it.remaining() =~= pretoken_views(v@));
                    break;
                },
                Some(p) => {
                    let ghost head = pretoken_views(v@);
                    v.push(p);
                    assert(pretoken_views(v@) =~= head + seq![p@]);
                    assert(head + (seq![p@] + it.remaining()) =~= head + seq![p@] + it.remaining());
                },
            }
        }
        v
    }
}

/// Iterate the pretokens of `bytes` using the production (r50k) pretokenizer.
#[inline]
pub fn pretokenize_as_iter<'a>(bytes: &'a [u8]) -> (r: FastR50kPretokenizer<'a>)
    ensures
        r.doc() == bytes@,
        r.at() == 0,
        r.remaining() == pretokens(bytes@),
{
    FastR50kPretokenizer::new(bytes)
}

/// Anything that can be split into a stream of pretokens.
pub trait Pretokenize {
    /// The bytes to split.
    spec fn document(&self) -> Seq<u8>;

    /// The pretokens of the document.
    fn pretokens<'a>(&'a self) -> (r: FastR50kPretokenizer<'a>)
        ensures
            r.doc() == self.document(),
            r.at() == 0,
    ;
}

impl Pretokenize for [u8] {
    open spec fn document(&self) -> Seq<u8> {
        self@
    }

    fn pretokens<'a>(&'a self) -> (r: FastR50kPretokenizer<'a>) {
        pretokenize_as_iter(self)
    }
}

} // verus!
