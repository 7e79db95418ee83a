//! A pretoken: a span of the document.

use vstd::prelude::*;

verus! {

/// One pretoken, borrowed from its document.
#[derive(Debug, Clone, Copy)]
pub struct Pretoken<'a>(pub &'a [u8]);

impl<'a> View for Pretoken<'a> {
    type V = Seq<u8>;

    open spec fn view(&self) -> Seq<u8> {
        self.0@
    }
}

/// The contents of a list of pretokens.
pub open spec fn pretoken_views(v: Seq<Pretoken>) -> Seq<Seq<u8>> {
    v.map_values(|p: Pretoken| p@)
}

/// The contents of a list of byte slices.
pub open spec fn slice_views(v: Seq<&[u8]>) -> Seq<Seq<u8>> {
    v.map_values(|p: &[u8]| p@)
}

} // verus!
