//! Masks of the words that any scheme splits alike, and pretokenizers on top of
//! them.

use vstd::prelude::*;
use vstd::utf8::valid_utf8;

use crate::pretokenize::bits::{bit, lemma_bit_one, lemma_bit_ops};
use crate::pretokenize::cuts::{
    lemma_pretoken_stops_at_cut, lemma_valid_utf8_walks, safe_cut, walks, word_end,
};
use crate::pretokenize::gpt2::{advance_pos, lemma_pretoken_progress, pretoken_end};
use crate::pretokenize::mask_state::{
    advancing, lemma_reaches_linear, reaches, trusted, MaskScheme, MaskState,
};
use crate::pretokenize::pretoken::{pretoken_views, Pretoken};
use crate::pretokenize::scan::{
    is_digit, is_letter, lemma_run_end_bounds, letter_byte, run_end, width_at,
};
use crate::pretokenize::unicode::CharClass;

verus! {

/// Whether a word starts with the space at `p` and goes on to `q`: ASCII letters,
/// and where `lower` lower-case ones behind the first.
pub open spec fn word_to(s: Seq<u8>, p: int, q: int, lower: bool) -> bool {
    &&& safe_cut(s, p)
    &&& p <= q < s.len()
    &&& forall|j: int|
        p < j <= q ==> {
            &&& letter_byte(#[trigger] s[j])
            &&& lower && j > p + 1 ==> 0x61 <= s[j]
        }
}

/// Whether a place is in a word.
pub open spec fn in_word(s: Seq<u8>, q: int, lower: bool) -> bool {
    exists|p: int| #[trigger] word_to(s, p, q, lower)
}

/// Whether neither of two masks has a bit set.
spec fn unset(a: u64, b: u64, k: int) -> bool {
    !bit(a, k) && !bit(b, k)
}

/// The words of a batch: where one starts, and what belongs to none.
pub fn word_masks(bytes: &[u8], scan: usize, lower: bool) -> (r: (u64, u64))
    requires
        scan + 64 <= bytes@.len(),
    ensures
        forall|k: int|
            0 <= k < 64 ==> {
                &&& (#[trigger] bit(r.0, k)) <==> safe_cut(bytes@, scan + k)
                &&& !(bit(r.0, k) && bit(r.1, k))
                &&& !bit(r.1, k) ==> in_word(bytes@, scan + k, lower)
            },
{
    let ghost s = bytes@;
    let len: usize = bytes.len();
    let mut usable: u64 = 0;
    let mut bad: u64 = 0;
    // Where the word that is open starts.
    let mut word: Option<usize> = None;
    proof {
        assert forall|k: int| 0 <= k < 64 implies #[trigger] unset(0, 0, k) by {
            lemma_bit_one(0, k);
        }
    }
    for i in 0..64usize
        invariant
            s == bytes@,
            len == s.len(),
            scan + 64 <= len,
            word matches Some(p) ==> word_to(s, p as int, scan + i - 1, lower),
            forall|k: int|
                0 <= k < i ==> {
                    &&& (#[trigger] bit(usable, k)) <==> safe_cut(s, scan + k)
                    &&& !(bit(usable, k) && bit(bad, k))
                    &&& !bit(bad, k) ==> in_word(s, scan + k, lower)
                },
            forall|k: int| i <= k < 64 ==> #[trigger] unset(usable, bad, k),
    {
        let at: usize = scan + i;
        let b: u8 = bytes[at];
        let one: u64 = 1u64 << i;
        let ghost u0 = usable;
        let ghost b0 = bad;
        let cut: bool = b == 0x20 && at > 0 && at + 1 < len && (is_letter(bytes[at - 1]) || is_digit(
            bytes[at - 1],
        )) && is_letter(bytes[at + 1]);
        assert(cut == safe_cut(s, at as int));
        if cut {
            usable = usable | one;
            word = Some(at);
            assert(word_to(s, at as int, at as int, lower));
        } else {
            let goes_on: bool = match word {
                Some(p) => is_letter(b) && (!lower || at == p + 1 || 0x61 <= b),
                None => false,
            };
            if !goes_on {
                bad = bad | one;
                word = None;
            }
        }
        proof {
            assert forall|k: int| 0 <= k < 64 implies #[trigger] bit(usable, k) == (bit(u0, k) || (
            cut && k == i)) by {
                lemma_bit_ops(u0, one, k);
                lemma_bit_one(i as u64, k);
            }
            assert forall|k: int| 0 <= k < 64 implies #[trigger] bit(bad, k) == (bit(b0, k) || (word
                is None && k == i)) by {
                lemma_bit_ops(b0, one, k);
                lemma_bit_one(i as u64, k);
            }
            assert(unset(u0, b0, i as int));
            if let Some(p) = word {
                assert(word_to(s, p as int, scan + i, lower));
                assert(in_word(s, scan + i, lower));
            }
            assert forall|k: int| 0 <= k < i + 1 implies {
                &&& (#[trigger] bit(usable, k)) <==> safe_cut(s, scan + k)
                &&& !(bit(usable, k) && bit(bad, k))
                &&& !bit(bad, k) ==> in_word(s, scan + k, lower)
            } by {
                assert(bit(bad, k) == (bit(b0, k) || (word is None && k == i)));
                if k < i {
                    assert(bit(u0, k) <==> safe_cut(s, scan + k));
                }
            }
            assert forall|k: int| i + 1 <= k < 64 implies #[trigger] unset(usable, bad, k) by {
                assert(unset(u0, b0, k));
                assert(bit(usable, k) == (bit(u0, k) || (cut && k == i)));
                assert(bit(bad, k) == (bit(b0, k) || (word is None && k == i)));
            }
        }
    }
    (usable, bad)
}

/// The masks of words can be trusted in a scheme whose tokens reach every safe cut
/// and hold what follows of the word.
pub proof fn lemma_words_trusted(
    end: spec_fn(int) -> int,
    s: Seq<u8>,
    scan: int,
    r: (u64, u64),
    lower: bool,
)
    requires
        advancing(end, s.len() as int),
        forall|p: int| #[trigger] safe_cut(s, p) ==> reaches(end, s.len() as int, 0, p),
        forall|p: int, q: int| #[trigger] word_to(s, p, q, lower) ==> q < end(p),
        forall|k: int|
            0 <= k < 64 ==> {
                &&& (#[trigger] bit(r.0, k)) <==> safe_cut(s, scan + k)
                &&& !(bit(r.0, k) && bit(r.1, k))
                &&& !bit(r.1, k) ==> in_word(s, scan + k, lower)
            },
    ensures
        trusted(end, s.len() as int, scan, r.0, r.1),
{
    let len = s.len() as int;
    assert forall|k: int| 0 <= k < 64 implies {
        &&& (#[trigger] bit(r.0, k)) ==> reaches(end, len, 0, scan + k)
        &&& !bit(r.1, k) && reaches(end, len, 0, scan + k) ==> bit(r.0, k)
        &&& !(bit(r.0, k) && bit(r.1, k))
    } by {
        if !bit(r.1, k) && reaches(end, len, 0, scan + k) {
            let q = scan + k;
            assert(bit(r.0, k) <==> safe_cut(s, q));
            assert(in_word(s, q, lower));
            let p = choose|p: int| #[trigger] word_to(s, p, q, lower);
            assert(safe_cut(s, p));
            if p < q {
                lemma_reaches_linear(end, len, 0, p, q);
            }
        }
    }
}

/// The GPT-2 scheme.
pub struct R50kScheme;

/// Letters go on to the end of a word.
proof fn lemma_letters_go_on(s: Seq<u8>, a: int, q: int)
    requires
        0 <= a <= q < s.len(),
        forall|j: int| a <= j <= q ==> letter_byte(#[trigger] s[j]),
    ensures
        run_end(s, a, CharClass::Letter) > q,
    decreases q - a,
{
    assert(letter_byte(s[a]));
    assert(width_at(s, a) == 1);
    if a < q {
        lemma_letters_go_on(s, a + 1, q);
    } else {
        lemma_run_end_bounds(s, a + 1, CharClass::Letter);
    }
}

/// The pretokens reach the end of a word.
proof fn lemma_pretokens_reach(s: Seq<u8>, pos: int, p: int)
    requires
        word_end(s, p),
        0 <= pos < p,
        walks(s, pos, p - 1),
    ensures
        reaches(R50kScheme::ends(s), s.len() as int, pos, p),
    decreases p - pos,
{
    let end = R50kScheme::ends(s);
    lemma_pretoken_stops_at_cut(s, pos, p);
    let e = pretoken_end(s, pos);
    assert(end(pos) == e);
    if e < p {
        lemma_pretokens_reach(s, e, p);
    }
    assert(reaches(end, s.len() as int, e, p));
}

impl MaskScheme for R50kScheme {
    open spec fn ends(s: Seq<u8>) -> spec_fn(int) -> int {
        |pos: int| pretoken_end(s, pos)
    }

    proof fn lemma_advancing(s: Seq<u8>) {
        let end = Self::ends(s);
        assert forall|p: int| 0 <= p < s.len() implies p < #[trigger] end(p) <= s.len() by {
            lemma_pretoken_progress(s, p);
        }
    }

    fn advance(bytes: &[u8], pos: usize) -> (end: usize) {
        advance_pos(bytes, pos)
    }

    fn batch_masks(bytes: &[u8], scan: usize) -> (r: (u64, u64)) {
        let r: (u64, u64) = word_masks(bytes, scan, false);
        proof {
            let s = bytes@;
            let end = Self::ends(s);
            Self::lemma_advancing(s);
            assert forall|p: int| #[trigger] safe_cut(s, p) implies reaches(
                end,
                s.len() as int,
                0,
                p,
            ) by {
                lemma_valid_utf8_walks(s, p - 1);
                lemma_pretokens_reach(s, 0, p);
            }
            assert forall|p: int, q: int| #[trigger] word_to(s, p, q, false) implies q < end(p) by {
                assert(letter_byte(s[p + 1]));
                if p < q {
                    lemma_letters_go_on(s, p + 1, q);
                } else {
                    lemma_pretoken_progress(s, p);
                }
                assert(end(p) == pretoken_end(s, p));
            }
            lemma_words_trusted(end, s, scan as int, r, false);
        }
        r
    }
}

/// A pretokenizer on top of a mask scheme.
pub struct MaskPretokenizer<'a, S: MaskScheme> {
    bytes: &'a [u8],
    state: MaskState,
    scheme: S,
}

impl<'a, S: MaskScheme> MaskPretokenizer<'a, S> {
    /// The document.
    pub closed spec fn doc(self) -> Seq<u8> {
        self.bytes@
    }

    /// Where the next pretoken starts.
    pub closed spec fn at(self) -> int {
        self.state.at()
    }

    /// The document is text, and the next pretoken is one of its.
    pub closed spec fn wf(self) -> bool {
        valid_utf8(self.bytes@) && self.state.wf(S::ends(self.bytes@), self.bytes@.len() as int)
    }

    /// A pretokenizer for a document; without `batches` it is a scalar one.
    pub fn new(bytes: &'a [u8], scheme: S, batches: bool) -> (r: Self)
        requires
            valid_utf8(bytes@),
        ensures
            r.wf(),
            r.doc() == bytes@,
            r.at() == 0,
    {
        Self::with_pos(bytes, scheme, 0, batches)
    }

    /// Resume iteration at a byte offset previously returned by `pos`.
    pub fn with_pos(bytes: &'a [u8], scheme: S, pos: usize, batches: bool) -> (r: Self)
        requires
            valid_utf8(bytes@),
            pos <= bytes@.len(),
            reaches(S::ends(bytes@), bytes@.len() as int, 0, pos as int),
        ensures
            r.wf(),
            r.doc() == bytes@,
            r.at() == pos,
    {
        let state = MaskState::new(pos, batches);
        assert(state.wf(S::ends(bytes@), bytes@.len() as int));
        MaskPretokenizer { bytes, state, scheme }
    }

    /// Current position as a byte offset into the input.
    pub fn pos(&self) -> (p: usize)
        ensures
            p == self.at(),
    {
        self.state.pos()
    }

    /// The next pretoken, or None at the end of the document.
    pub fn next(&mut self) -> (r: Option<Pretoken<'a>>)
        requires
            old(self).wf(),
        ensures
            final(self).wf(),
            final(self).doc() == old(self).doc(),
            match r {
                Some(pretoken) => {
                    let start = old(self).at();
                    let end = (S::ends(old(self).doc()))(start);
                    &&& start < end <= old(self).doc().len()
                    &&& pretoken@ == old(self).doc().subrange(start, end)
                    &&& final(self).at() == end
                },
                None => old(self).at() == old(self).doc().len() && final(self).at()
                    == old(self).at(),
            },
    {
        match self.state.next_span::<S>(self.bytes) {
            Some((start, end)) => Some(Pretoken(&self.bytes[start..end])),
            None => None,
        }
    }

    /// The pretokens that are left, as a list: each starts where the one before
    /// ends.
    pub fn collect(self) -> (v: Vec<Pretoken<'a>>)
        requires
            self.wf(),
        ensures
            pretoken_views(v@) == tokens_from(
                S::ends(self.doc()),
                self.doc(),
                self.at(),
            ),
    {
        let ghost s = self.doc();
        let ghost end = S::ends(s);
        let ghost want = tokens_from(end, s, self.at());
        let mut it = self;
        let mut v: Vec<Pretoken<'a>> = Vec::new();
        proof {
            S::lemma_advancing(s);
            assert(pretoken_views(v@) + want =~= want);
        }
        loop
            invariant
                it.wf(),
                it.doc() == s,
                end == S::ends(s),
                pretoken_views(v@) + tokens_from(end, s, it.at())
                    == want,
            ensures
                pretoken_views(v@) == want,
            decreases s.len() - it.at(),
        {
            let from: usize = it.pos();
            let ghost at = from as int;
            match it.next() {
                None => {
                    proof {
                        let all = pretoken_views(v@);
                        assert(all + tokens_from(end, s, at) =~= all);
                    }
                    break;
                },
                Some(p) => {
                    let ghost head = pretoken_views(v@);
                    v.push(p);
                    proof {
                        let rest = tokens_from(end, s, it.at());
                        assert(pretoken_views(v@) =~= head + seq![p@]);
                        assert(tokens_from(end, s, at) == seq![p@] + rest);
                        assert(head + (seq![p@] + rest) =~= head + seq![p@] + rest);
                    }
                },
            }
        }
        v
    }
}

/// The tokens of a scheme from `pos` on.
pub open spec fn tokens_from(end: spec_fn(int) -> int, s: Seq<u8>, pos: int) -> Seq<Seq<u8>>
    decreases s.len() - pos,
{
    if 0 <= pos < s.len() && pos < end(pos) <= s.len() {
        seq![s.subrange(pos, end(pos))] + tokens_from(end, s, end(pos))
    } else {
        Seq::empty()
    }
}

} // verus!
