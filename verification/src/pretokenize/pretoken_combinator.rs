//! The alternatives of the regex
//! `'(?:[sdmt]|ll|ve|re)| ?\p{L}+| ?\p{N}+| ?[^\s\p{L}\p{N}]+|\s+(?!\S)|\s+`
//! as one parser each, and a pretoken as the first of them that matches.

use vstd::prelude::*;

use crate::pretokenize::gpt2::{
    after_space, contraction_len, contraction_len_at, last_ws_char, lemma_pretoken_progress,
    pretoken_end, pretokens, pretokens_from, ws_end,
};
use crate::pretokenize::pretoken::slice_views;
use crate::pretokenize::scan::{
    char_at, class_at, run_end, scan_digits_from, scan_letters_from, scan_other_from, width_at,
};
use crate::pretokenize::unicode::CharClass;

verus! {

/// What ` ?` and a run of one class match at `pos`.
pub open spec fn run_match(s: Seq<u8>, pos: int, class: CharClass) -> Option<int> {
    let body = after_space(s, pos);
    if class_at(s, body) == class {
        Some(run_end(s, body, class))
    } else {
        None
    }
}

/// The end of a match.
pub open spec fn ends_at(r: Option<usize>, end: Option<int>) -> bool {
    match (r, end) {
        (Some(a), Some(b)) => a == b,
        (None, None) => true,
        _ => false,
    }
}

/// A contraction: where it ends.
pub fn contraction(bytes: &[u8], pos: usize) -> (r: Option<usize>)
    requires
        pos < bytes@.len(),
    ensures
        ends_at(
            r,
            if contraction_len(bytes@, pos as int) > 0 {
                Some(pos + contraction_len(bytes@, pos as int))
            } else {
                None
            },
        ),
{
    let len: usize = bytes.len();
    let n: usize = contraction_len_at(bytes, pos);
    if n > 0 {
        Some(pos + n)
    } else {
        None
    }
}

/// Where the optional space before a run ends, and the class there.
fn skip_space(bytes: &[u8], pos: usize) -> (r: (usize, CharClass))
    requires
        pos < bytes@.len(),
    ensures
        r.0 == after_space(bytes@, pos as int),
        r.0 < bytes@.len(),
        r.1 == class_at(bytes@, r.0 as int),
{
    let body: usize = if bytes[pos] == 0x20 && pos + 1 < bytes.len() {
        pos + 1
    } else {
        pos
    };
    let (class, _): (CharClass, usize) = char_at(bytes, body);
    (body, class)
}

/// A letter run: where it ends.
pub fn letter_run(bytes: &[u8], pos: usize) -> (r: Option<usize>)
    requires
        pos < bytes@.len(),
    ensures
        ends_at(r, run_match(bytes@, pos as int, CharClass::Letter)),
{
    let (body, class): (usize, CharClass) = skip_space(bytes, pos);
    if class == CharClass::Letter {
        Some(scan_letters_from(bytes, body))
    } else {
        None
    }
}

/// A number run: where it ends.
pub fn number_run(bytes: &[u8], pos: usize) -> (r: Option<usize>)
    requires
        pos < bytes@.len(),
    ensures
        ends_at(r, run_match(bytes@, pos as int, CharClass::Number)),
{
    let (body, class): (usize, CharClass) = skip_space(bytes, pos);
    if class == CharClass::Number {
        Some(scan_digits_from(bytes, body))
    } else {
        None
    }
}

/// A run of other characters: where it ends.
pub fn other_run(bytes: &[u8], pos: usize) -> (r: Option<usize>)
    requires
        pos < bytes@.len(),
    ensures
        ends_at(r, run_match(bytes@, pos as int, CharClass::Other)),
{
    let (body, class): (usize, CharClass) = skip_space(bytes, pos);
    if class == CharClass::Other {
        Some(scan_other_from(bytes, body))
    } else {
        None
    }
}

/// A whitespace run: where it ends. Before other text a run of two or more
/// characters leaves its last one out.
pub fn whitespace_run(bytes: &[u8], pos: usize) -> (r: Option<usize>)
    requires
        pos < bytes@.len(),
    ensures
        ends_at(
            r,
            if class_at(bytes@, pos as int) == CharClass::Whitespace {
                Some(ws_end(bytes@, pos as int))
            } else {
                None
            },
        ),
{
    let ghost s = bytes@;
    let len: usize = bytes.len();
    let mut last: usize = pos;
    let mut p: usize = pos;
    while p < len
        invariant
            s == bytes@,
            len == s.len(),
            pos < len,
            pos <= last <= p <= len,
            p == pos ==> last == pos,
            p > pos ==> {
                &&& class_at(s, pos as int) == CharClass::Whitespace
                &&& class_at(s, last as int) == CharClass::Whitespace
                &&& p == last + width_at(s, last as int)
                &&& last_ws_char(s, last as int) == last_ws_char(s, pos as int)
            },
            run_end(s, p as int, CharClass::Whitespace) == run_end(
                s,
                pos as int,
                CharClass::Whitespace,
            ),
        ensures
            p == pos ==> class_at(s, pos as int) != CharClass::Whitespace,
            p > pos ==> {
                &&& class_at(s, pos as int) == CharClass::Whitespace
                &&& last == last_ws_char(s, pos as int)
                &&& p == run_end(s, pos as int, CharClass::Whitespace)
            },
            pos <= last <= p <= len,
        decreases len - p,
    {
        let (c, w): (CharClass, usize) = char_at(bytes, p);
        if c != CharClass::Whitespace {
            break;
        }
        last = p;
        p = p + w;
    }
    if p == pos {
        None
    } else if p < len && last > pos {
        Some(last)
    } else {
        Some(p)
    }
}

/// A pretoken: the first alternative that matches.
pub fn pretoken(bytes: &[u8], pos: usize) -> (end: usize)
    requires
        pos < bytes@.len(),
    ensures
        end == pretoken_end(bytes@, pos as int),
        pos < end <= bytes@.len(),
{
    proof {
        lemma_pretoken_progress(bytes@, pos as int);
    }
    match contraction(bytes, pos) {
        Some(end) => return end,
        None => {},
    }
    match letter_run(bytes, pos) {
        Some(end) => return end,
        None => {},
    }
    match number_run(bytes, pos) {
        Some(end) => return end,
        None => {},
    }
    match other_run(bytes, pos) {
        Some(end) => return end,
        None => {},
    }
    match whitespace_run(bytes, pos) {
        Some(end) => end,
        None => {
            assert(false);
            pos + 1
        },
    }
}

/// The pretokens of a text; none where the text is empty, as one at least is
/// expected.
pub fn parse_pretokens(input: &[u8]) -> (r: Option<Vec<&[u8]>>)
    ensures
        r is None <==> input@.len() == 0,
        r matches Some(v) ==> slice_views(v@) == pretokens(input@),
{
    if input.len() == 0 {
        return None;
    }
    let ghost s = input@;
    let mut v: Vec<&[u8]> = Vec::new();
    let mut pos: usize = 0;
    assert(slice_views(v@) + pretokens(s) =~= pretokens(s));
    while pos < input.len()
        invariant
            s == input@,
            pos <= s.len(),
            slice_views(v@) + pretokens_from(s, pos as int) == pretokens(s),
        decreases s.len() - pos,
    {
        let end: usize = pretoken(input, pos);
        let ghost before = slice_views(v@);
        v.push(&input[pos..end]);
        proof {
            let one = seq![s.subrange(pos as int, end as int)];
            assert(slice_views(v@) =~= before + one);
            assert(before + (one + pretokens_from(s, end as int)) =~= before + one
                + pretokens_from(s, end as int));
        }
        pos = end;
    }
    assert(slice_views(v@) + Seq::<Seq<u8>>::empty() =~= slice_views(v@));
    Some(v)
}

/// Iterator over the pretokens of a text.
pub struct PretokenIterator<'a> {
    input: &'a [u8],
    pos: usize,
}

impl<'a> PretokenIterator<'a> {
    /// The position lies in the text.
    pub closed spec fn wf(self) -> bool {
        self.pos <= self.input@.len()
    }

    /// The pretokens that are left.
    pub closed spec fn rest(self) -> Seq<Seq<u8>> {
        pretokens_from(self.input@, self.pos as int)
    }

    /// The next pretoken.
    pub fn next(&mut self) -> (r: Option<&'a [u8]>)
        requires
            old(self).wf(),
        ensures
            final(self).wf(),
            match r {
                Some(p) => old(self).rest() == seq![p@] + final(self).rest(),
                None => old(self).rest() == Seq::<Seq<u8>>::empty() && final(self).rest()
                    == Seq::<Seq<u8>>::empty(),
            },
    {
        if self.pos >= self.input.len() {
            return None;
        }
        let start: usize = self.pos;
        let end: usize = pretoken(self.input, start);
        self.pos = end;
        Some(&self.input[start..end])
    }
}

/// The pretokens of a text, one at a time.
pub fn pretokens_iterator<'a>(input: &'a [u8]) -> (r: PretokenIterator<'a>)
    ensures
        r.wf(),
        r.rest() == pretokens(input@),
{
    PretokenIterator { input, pos: 0 }
}

} // verus!
