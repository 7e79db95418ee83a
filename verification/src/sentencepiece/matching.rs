//! Added tokens with whitespace stripping.

use vstd::prelude::*;

use crate::bpe::added::{
    added_views, first_added, lemma_by_descending_len, lemma_by_descending_len_from,
    lemma_first_added, lemma_winner, next_added, winner, Added, AddedTokens,
};
use crate::sentencepiece::model::{first_empty, match_list, next_found, TokenSpec};
use crate::seqs::copy_bytes;
use crate::token::TokenId;

verus! {

/// An added token as it is matched.
pub struct SpecBytes {
    pub content: Vec<u8>,
    pub id: TokenId,
    pub lstrip: bool,
    pub rstrip: bool,
}

impl View for SpecBytes {
    type V = TokenSpec;

    open spec fn view(&self) -> TokenSpec {
        TokenSpec {
            content: self.content@,
            id: self.id,
            lstrip: self.lstrip,
            rstrip: self.rstrip,
        }
    }
}

/// The contents of a list of added tokens.
pub open spec fn spec_views(v: Seq<SpecBytes>) -> Seq<TokenSpec> {
    v.map_values(|s: SpecBytes| s@)
}

/// Added tokens, and what finds them: leftmost, then longest.
pub struct TokenSpecs {
    specs: Vec<SpecBytes>,
    /// Finds the tokens with content.
    matcher: AddedTokens,
    /// The place of the first token without content.
    empty: Option<usize>,
}

impl View for TokenSpecs {
    type V = Seq<TokenSpec>;

    closed spec fn view(&self) -> Seq<TokenSpec> {
        spec_views(self.specs@)
    }
}

impl TokenSpecs {
    /// The matcher finds the tokens.
    pub closed spec fn wf(self) -> bool {
        &&& self.specs@.len() <= u32::MAX
        &&& self.matcher.wf()
        &&& self.matcher@ == match_list(self@)
        &&& first_empty(self@, 0) == match self.empty {
            Some(k) => Some(k as int),
            None => None,
        }
    }

    /// Added tokens from a list. One without content is found wherever no other is.
    pub fn new(specs: Vec<SpecBytes>) -> (r: Self)
        requires
            specs@.len() <= u32::MAX,
        ensures
            r.wf(),
            r@ == spec_views(specs@),
    {
        let mut list: Vec<(Vec<u8>, TokenId)> = Vec::with_capacity(specs.len());
        for i in 0..specs.len()
            invariant
                specs@.len() <= u32::MAX,
                list@.len() == i,
                forall|j: int|
                    0 <= j < i ==> (#[trigger] list@[j]).0@ == specs@[j].content@ && list@[j].1
                        == TokenId(j as u32),
        {
            list.push((copy_bytes(specs[i].content.as_slice()), TokenId(i as u32)));
        }
        let ghost views = spec_views(specs@);
        assert(added_views(list@) =~= Seq::new(
            views.len(),
            |i: int| (views[i].content, TokenId(i as u32)),
        ));
        let matcher: AddedTokens = AddedTokens::from_list(list);
        let mut k: usize = 0;
        while k < specs.len() && specs[k].content.len() > 0
            invariant
                k <= specs@.len(),
                views == spec_views(specs@),
                first_empty(views, 0) == first_empty(views, k as int),
            decreases specs@.len() - k,
        {
            k = k + 1;
        }
        let empty: Option<usize> = if k < specs.len() {
            Some(k)
        } else {
            None
        };
        TokenSpecs { specs, matcher, empty }
    }

    /// The number of tokens.
    pub fn len(&self) -> (n: usize)
        ensures
            n == self@.len(),
    {
        self.specs.len()
    }

    /// The token at `k`.
    pub fn token(&self, k: usize) -> (r: &SpecBytes)
        requires
            k < self@.len(),
        ensures
            r@ == self@[k as int],
    {
        &self.specs[k]
    }

    /// The leftmost added-token occurrence at or after `from`, the longest of
    /// several: its start, its end and the token's place. `behind` says that one
    /// ends at `from`.
    pub fn find(&self, text: &[u8], from: usize, behind: bool) -> (r: Option<
        (usize, usize, usize),
    >)
        requires
            self.wf(),
            from <= text@.len(),
        ensures
            match r {
                Some((start, end, k)) => {
                    &&& next_found(self@, text@, from as int, behind) == Some(
                        (start as int, end as int, TokenId(k as u32)),
                    )
                    &&& from <= start <= end <= text@.len()
                    &&& behind ==> from < end
                    &&& k < self@.len()
                    &&& k <= u32::MAX
                },
                None => next_found(self@, text@, from as int, behind) is None,
            },
    {
        let found: Option<(usize, usize, TokenId)> = self.matcher.find_added_token(text, from);
        proof {
            lemma_found(self@, text@, from as int);
            lemma_first_empty(self@, 0);
        }
        if let Some(k) = self.empty {
            if behind && from == text.len() {
                return match found {
                    Some((start, end, id)) => Some((start, end, id.index())),
                    None => None,
                };
            }
            let at: usize = if behind {
                from + 1
            } else {
                from
            };
            match found {
                Some((start, _, _)) if start <= at => {},
                _ => return Some((at, at, k)),
            }
        }
        match found {
            Some((start, end, id)) => Some((start, end, id.index())),
            None => None,
        }
    }
}

/// A token without content is found at its place.
proof fn lemma_first_empty(specs: Seq<TokenSpec>, k: int)
    requires
        0 <= k,
    ensures
        first_empty(specs, k) matches Some(e) ==> k <= e < specs.len(),
    decreases specs.len() - k,
{
    if k < specs.len() {
        lemma_first_empty(specs, k + 1);
    }
}

/// What is found has the place of a token.
pub proof fn lemma_found(specs: Seq<TokenSpec>, s: Seq<u8>, from: int)
    requires
        specs.len() <= u32::MAX,
        0 <= from,
    ensures
        match next_added(match_list(specs), s, from) {
            Some((start, end, id)) => id.0 < specs.len(),
            None => true,
        },
{
    let plain: Seq<Added> = Seq::new(
        specs.len(),
        |i: int| (specs[i].content, TokenId(i as u32)),
    );
    let list = match_list(specs);
    lemma_by_descending_len(plain);
    lemma_first_added(list, s, from);
    match first_added(list, s, from) {
        Some(at) => {
            lemma_winner(list, s, at);
            lemma_by_descending_len_from(plain, winner(list, s, at));
        },
        None => {},
    }
}

} // verus!
