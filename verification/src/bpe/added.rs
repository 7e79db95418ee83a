//! Added tokens: byte strings matched atomically before pretokenization.

use aho_corasick::AhoCorasick;
use vstd::prelude::*;

use crate::seqs::{byte_seqs, copy_bytes, occurs_at, starts_with_at};
use crate::token::TokenId;

verus! {

/// The `aho_corasick` automaton.
#[verifier::external_type_specification]
#[verifier::external_body]
pub struct ExAhoCorasick(AhoCorasick);

/// The patterns that an automaton was built from.
pub uninterp spec fn matcher_patterns(m: AhoCorasick) -> Seq<Seq<u8>>;

/// Whether an automaton reports leftmost-longest matches.
pub uninterp spec fn matcher_longest(m: AhoCorasick) -> bool;

/// Whether some pattern stands in `s` at `at`.
pub open spec fn any_at(patterns: Seq<Seq<u8>>, s: Seq<u8>, at: int) -> bool {
    exists|k: int| 0 <= k < patterns.len() && occurs_at(s, #[trigger] patterns[k], at)
}

/// `AhoCorasickBuilder::build` with leftmost-longest matching: an automaton
/// over `patterns`, or `None` where the patterns are too many or too long for
/// one.
#[verifier::external_body]
fn build_longest_matcher(patterns: &[Vec<u8>]) -> (r: Option<AhoCorasick>)
    requires
        forall|k: int| 0 <= k < patterns@.len() ==> (#[trigger] patterns@[k])@.len() > 0,
    ensures
        match r {
            Some(m) => matcher_patterns(m) == byte_seqs(patterns@) && matcher_longest(m),
            None => true,
        },
{
    let kind = aho_corasick::MatchKind::LeftmostLongest;
    AhoCorasick::builder().match_kind(kind).build(patterns).ok()
}

/// `AhoCorasick::find`: the span of the leftmost match, the longest of those
/// that start there.
#[verifier::external_body]
fn find_longest_match(m: &AhoCorasick, haystack: &[u8]) -> (r: Option<(usize, usize)>)
    requires
        matcher_longest(*m),
    ensures
        match r {
            Some((start, end)) => {
                &&& any_at(matcher_patterns(*m), haystack@, start as int)
                &&& forall|i: int| i < start ==> !#[trigger] any_at(
                    matcher_patterns(*m),
                    haystack@,
                    i,
                )
                &&& exists|k: int|
                    0 <= k < matcher_patterns(*m).len() && end == start + (
                    #[trigger] matcher_patterns(*m)[k]).len() && occurs_at(
                        haystack@,
                        matcher_patterns(*m)[k],
                        start as int,
                    )
                &&& forall|k: int|
                    0 <= k < matcher_patterns(*m).len() && occurs_at(
                        haystack@,
                        #[trigger] matcher_patterns(*m)[k],
                        start as int,
                    ) ==> start + matcher_patterns(*m)[k].len() <= end
            },
            None => forall|i: int| !#[trigger] any_at(matcher_patterns(*m), haystack@, i),
        },
{
    m.find(haystack).map(|found| (found.start(), found.end()))
}

/// An added token: its content and its id.
pub type Added = (Seq<u8>, TokenId);

/// The contents of a list of added tokens.
pub open spec fn added_views(v: Seq<(Vec<u8>, TokenId)>) -> Seq<Added> {
    v.map_values(|e: (Vec<u8>, TokenId)| (e.0@, e.1))
}

/// Whether some added token stands in `s` at `at`.
pub open spec fn added_at(added: Seq<Added>, s: Seq<u8>, at: int) -> bool {
    exists|k: int| 0 <= k < added.len() && occurs_at(s, (#[trigger] added[k]).0, at)
}

/// The first place at or after `from` where an added token stands.
pub open spec fn first_added(added: Seq<Added>, s: Seq<u8>, from: int) -> Option<int>
    decreases s.len() - from,
{
    if from < 0 || from >= s.len() {
        None
    } else if added_at(added, s, from) {
        Some(from)
    } else {
        first_added(added, s, from + 1)
    }
}

/// The first added token of the list that stands in `s` at `at`.
pub open spec fn winner(added: Seq<Added>, s: Seq<u8>, at: int) -> int
    decreases added.len(),
{
    if added.len() == 0 {
        0
    } else if occurs_at(s, added[0].0, at) {
        0
    } else {
        1 + winner(added.drop_first(), s, at)
    }
}

/// The leftmost added-token occurrence at or after `from`: its start, its end
/// and its id. Of several that start there, the first in the list.
pub open spec fn next_added(added: Seq<Added>, s: Seq<u8>, from: int) -> Option<(int, int, TokenId)> {
    match first_added(added, s, from) {
        Some(at) => {
            let w = added[winner(added, s, at)];
            Some((at, at + w.0.len(), w.1))
        },
        None => None,
    }
}

/// Whether a list is in matching order: no content is empty, and longer ones
/// come first.
pub open spec fn matching_order(added: Seq<Added>) -> bool {
    &&& forall|i: int| 0 <= i < added.len() ==> (#[trigger] added[i]).0.len() > 0
    &&& forall|i: int, j: int|
        0 <= i < j < added.len() ==> (#[trigger] added[i]).0.len() >= (#[trigger] added[j]).0.len()
}

pub proof fn lemma_winner(added: Seq<Added>, s: Seq<u8>, at: int)
    requires
        added_at(added, s, at),
    ensures
        0 <= winner(added, s, at) < added.len(),
        occurs_at(s, added[winner(added, s, at)].0, at),
        forall|k: int|
            0 <= k < winner(added, s, at) ==> !occurs_at(s, (#[trigger] added[k]).0, at),
    decreases added.len(),
{
    let k = choose|k: int| 0 <= k < added.len() && occurs_at(s, (#[trigger] added[k]).0, at);
    if !occurs_at(s, added[0].0, at) {
        let rest = added.drop_first();
        assert(rest[k - 1] == added[k]);
        lemma_winner(rest, s, at);
        assert forall|j: int| 0 <= j < winner(added, s, at) implies !occurs_at(
            s,
            (#[trigger] added[j]).0,
            at,
        ) by {
            if j > 0 {
                assert(rest[j - 1] == added[j]);
            }
        }
    }
}

/// In matching order, the winner is a longest token that stands there.
pub proof fn lemma_winner_longest(added: Seq<Added>, s: Seq<u8>, at: int, k: int)
    requires
        matching_order(added),
        0 <= k < added.len(),
        occurs_at(s, added[k].0, at),
    ensures
        added[winner(added, s, at)].0.len() >= added[k].0.len(),
{
    assert(added_at(added, s, at));
    lemma_winner(added, s, at);
    let w = winner(added, s, at);
    if w < k {
        assert(added[w].0.len() >= added[k].0.len());
    }
}

pub proof fn lemma_first_added(added: Seq<Added>, s: Seq<u8>, from: int)
    requires
        0 <= from,
        matching_order(added),
    ensures
        match first_added(added, s, from) {
            Some(at) => from <= at < s.len() && added_at(added, s, at) && forall|i: int|
                from <= i < at ==> !#[trigger] added_at(added, s, i),
            None => forall|i: int| from <= i ==> !#[trigger] added_at(added, s, i),
        },
    decreases s.len() - from,
{
    if from < s.len() {
        if !added_at(added, s, from) {
            lemma_first_added(added, s, from + 1);
        }
    } else {
        assert forall|i: int| from <= i implies !#[trigger] added_at(added, s, i) by {
            if added_at(added, s, i) {
                let k = choose|k: int|
                    0 <= k < added.len() && occurs_at(s, (#[trigger] added[k]).0, i);
                assert(added[k].0.len() > 0);
            }
        }
    }
}

/// Put `x` into a list in matching order, after the contents of its length.
pub open spec fn insert_by_len(list: Seq<Added>, x: Added) -> Seq<Added>
    decreases list.len(),
{
    if list.len() == 0 || list.last().0.len() >= x.0.len() {
        list.push(x)
    } else {
        insert_by_len(list.drop_last(), x).push(list.last())
    }
}

/// The tokens of a list without the empty ones, by descending length; those of
/// one length stay in the order of the list.
pub open spec fn by_descending_len(list: Seq<Added>) -> Seq<Added>
    decreases list.len(),
{
    if list.len() == 0 {
        Seq::empty()
    } else {
        let init = by_descending_len(list.drop_last());
        if list.last().0.len() == 0 {
            init
        } else {
            insert_by_len(init, list.last())
        }
    }
}

proof fn lemma_insert_by_len(list: Seq<Added>, x: Added)
    requires
        matching_order(list),
        x.0.len() > 0,
    ensures
        matching_order(insert_by_len(list, x)),
        insert_by_len(list, x).len() == list.len() + 1,
        forall|i: int|
            0 <= i < insert_by_len(list, x).len() ==> #[trigger] insert_by_len(list, x)[i] == x
                || list.contains(insert_by_len(list, x)[i]),
    decreases list.len(),
{
    let r = insert_by_len(list, x);
    if list.len() == 0 || list.last().0.len() >= x.0.len() {
        assert forall|i: int| 0 <= i < r.len() implies #[trigger] r[i] == x || list.contains(r[i]) by {
            if i < list.len() {
                assert(r[i] == list[i]);
            }
        }
    } else {
        let init = list.drop_last();
        let ri = insert_by_len(init, x);
        lemma_insert_by_len(init, x);
        assert(r == ri.push(list.last()));
        assert forall|i: int| 0 <= i < r.len() implies #[trigger] r[i] == x || list.contains(r[i]) by {
            if i < ri.len() {
                assert(r[i] == ri[i]);
                if ri[i] != x {
                    assert(init.contains(ri[i]));
                    let k = choose|k: int| 0 <= k < init.len() && init[k] == ri[i];
                    assert(list[k] == ri[i]);
                }
            } else {
                assert(list[list.len() - 1] == r[i]);
            }
        }
        assert forall|i: int, j: int| 0 <= i < j < r.len() implies (#[trigger] r[i]).0.len() >= (
        #[trigger] r[j]).0.len() by {
            if j == r.len() - 1 {
                assert(r[i] == ri[i]);
                if ri[i] != x {
                    assert(init.contains(ri[i]));
                    let k = choose|k: int| 0 <= k < init.len() && init[k] == ri[i];
                    assert(list[k].0.len() >= list[list.len() - 1].0.len());
                }
            } else {
                assert(r[i] == ri[i] && r[j] == ri[j]);
            }
        }
        assert forall|i: int| 0 <= i < r.len() implies (#[trigger] r[i]).0.len() > 0 by {
            if i < ri.len() {
                assert(r[i] == ri[i]);
            } else {
                assert(r[i] == list[list.len() - 1]);
            }
        }
    }
}

/// Sorting puts a list into matching order.
pub proof fn lemma_by_descending_len(list: Seq<Added>)
    ensures
        matching_order(by_descending_len(list)),
    decreases list.len(),
{
    if list.len() > 0 {
        lemma_by_descending_len(list.drop_last());
        if list.last().0.len() > 0 {
            lemma_insert_by_len(by_descending_len(list.drop_last()), list.last());
        }
    }
}

/// The sorted list has no token that the list has not.
pub proof fn lemma_by_descending_len_from(list: Seq<Added>, k: int)
    requires
        0 <= k < by_descending_len(list).len(),
    ensures
        list.contains(by_descending_len(list)[k]),
    decreases list.len(),
{
    let init = list.drop_last();
    let sorted = by_descending_len(init);
    let x = list.last();
    assert(list[list.len() - 1] == x);
    if x.0.len() > 0 {
        lemma_insert_from(sorted, x, k);
        if by_descending_len(list)[k] != x {
            let j = choose|j: int| 0 <= j < sorted.len() && sorted[j] == by_descending_len(list)[k];
            lemma_by_descending_len_from(init, j);
        }
    } else {
        lemma_by_descending_len_from(init, k);
    }
    let e = by_descending_len(list)[k];
    if e != x || x.0.len() == 0 {
        let j = choose|j: int| 0 <= j < init.len() && init[j] == e;
        assert(list[j] == e);
    }
}

proof fn lemma_insert_from(list: Seq<Added>, x: Added, k: int)
    requires
        0 <= k < insert_by_len(list, x).len(),
    ensures
        insert_by_len(list, x)[k] == x || list.contains(insert_by_len(list, x)[k]),
    decreases list.len(),
{
    let e = insert_by_len(list, x)[k];
    if list.len() == 0 || list.last().0.len() >= x.0.len() {
        if k < list.len() {
            assert(list[k] == e);
        }
    } else {
        let init = list.drop_last();
        if k < insert_by_len(init, x).len() {
            lemma_insert_from(init, x, k);
            if e != x {
                let j = choose|j: int| 0 <= j < init.len() && init[j] == e;
                assert(list[j] == e);
            }
        } else {
            assert(list[list.len() - 1] == e);
        }
    }
}

/// The place of `x` in a list in matching order.
proof fn lemma_insert_at(list: Seq<Added>, x: Added, at: int)
    requires
        0 <= at <= list.len(),
        at > 0 ==> list[at - 1].0.len() >= x.0.len(),
        forall|i: int| at <= i < list.len() ==> (#[trigger] list[i]).0.len() < x.0.len(),
    ensures
        insert_by_len(list, x) == list.insert(at, x),
    decreases list.len(),
{
    if at == list.len() {
        assert(list.insert(at, x) =~= list.push(x));
    } else {
        assert(list[list.len() - 1].0.len() < x.0.len());
        lemma_insert_at(list.drop_last(), x, at);
        assert(list.insert(at, x) =~= list.drop_last().insert(at, x).push(list.last()));
    }
}

/// Added tokens in matching order, with an automaton over their contents.
pub struct AddedTokens {
    list: Vec<(Vec<u8>, TokenId)>,
    matcher: Option<AhoCorasick>,
}

impl View for AddedTokens {
    type V = Seq<Added>;

    closed spec fn view(&self) -> Seq<Added> {
        added_views(self.list@)
    }
}

/// The contents of a list of added tokens.
spec fn contents_of(added: Seq<Added>) -> Seq<Seq<u8>> {
    added.map_values(|a: Added| a.0)
}

impl AddedTokens {
    /// The list is in matching order, and the automaton is over its contents.
    pub closed spec fn wf(self) -> bool {
        &&& matching_order(self@)
        &&& match self.matcher {
            Some(m) => matcher_longest(m) && matcher_patterns(m) == contents_of(self@),
            None => true,
        }
    }

    /// A list of added tokens is in matching order.
    pub proof fn lemma_wf(self)
        requires
            self.wf(),
        ensures
            matching_order(self@),
    {
    }

    /// No added tokens.
    pub fn new() -> (a: Self)
        ensures
            a.wf(),
            a@ == Seq::<Added>::empty(),
    {
        let a = AddedTokens { list: Vec::new(), matcher: None };
        assert(a@ =~= Seq::<Added>::empty());
        a
    }

    /// The added tokens of a list. Empty contents are ignored; longer contents
    /// go first.
    pub fn from_list(tokens: Vec<(Vec<u8>, TokenId)>) -> (a: Self)
        ensures
            a.wf(),
            a@ == by_descending_len(added_views(tokens@)),
    {
        let ghost all = added_views(tokens@);
        let mut list: Vec<(Vec<u8>, TokenId)> = Vec::new();
        assert(all.take(0) =~= Seq::<Added>::empty());
        assert(added_views(list@) =~= Seq::<Added>::empty());
        for i in 0..tokens.len()
            invariant
                all == added_views(tokens@),
                added_views(list@) == by_descending_len(all.take(i as int)),
                matching_order(added_views(list@)),
        {
            let (content, id): (Vec<u8>, TokenId) = (
                copy_bytes(tokens[i].0.as_slice()),
                tokens[i].1,
            );
            let ghost sorted = added_views(list@);
            let ghost x = all[i as int];
            proof {
                let t = all.take(i as int + 1);
                assert(t.drop_last() =~= all.take(i as int));
                assert(t.last() == x);
                assert(x == (content@, id));
                lemma_by_descending_len(t);
            }
            if content.len() > 0 {
                let n: usize = content.len();
                let mut at: usize = list.len();
                while at > 0 && list[at - 1].0.len() < n
                    invariant
                        at <= list@.len(),
                        n == x.0.len(),
                        sorted == added_views(list@),
                        forall|k: int|
                            at <= k < sorted.len() ==> (#[trigger] sorted[k]).0.len() < n,
                    decreases at,
                {
                    at = at - 1;
                    assert(sorted[at as int].0 == list@[at as int].0@);
                }
                proof {
                    if at > 0 {
                        assert(sorted[at - 1].0 == list@[at - 1].0@);
                    }
                    lemma_insert_at(sorted, x, at as int);
                }
                list.insert(at, (content, id));
                assert(added_views(list@) =~= sorted.insert(at as int, x));
            }
        }
        assert(all.take(all.len() as int) =~= all);
        Self::from_sorted(list)
    }

    /// Build the automaton of a list in matching order.
    fn from_sorted(list: Vec<(Vec<u8>, TokenId)>) -> (a: Self)
        requires
            matching_order(added_views(list@)),
        ensures
            a.wf(),
            a@ == added_views(list@),
    {
        let mut patterns: Vec<Vec<u8>> = Vec::new();
        for i in 0..list.len()
            invariant
                patterns@.len() == i,
                forall|k: int| 0 <= k < i ==> (#[trigger] patterns@[k])@ == list@[k].0@,
        {
            patterns.push(copy_bytes(list[i].0.as_slice()));
        }
        proof {
            assert forall|k: int| 0 <= k < patterns@.len() implies (#[trigger] patterns@[k])@.len() > 0 by {
                assert(added_views(list@)[k].0.len() > 0);
            }
            assert(byte_seqs(patterns@) =~= contents_of(added_views(list@)));
        }
        let matcher: Option<AhoCorasick> = if list.len() > 0 {
            build_longest_matcher(patterns.as_slice())
        } else {
            None
        };
        AddedTokens { list, matcher }
    }

    /// A copy.
    pub fn copy(&self) -> (a: Self)
        requires
            self.wf(),
        ensures
            a.wf(),
            a@ == self@,
    {
        let list: Vec<(Vec<u8>, TokenId)> = self.to_list();
        Self::from_sorted(list)
    }

    /// The tokens as a list.
    pub fn to_list(&self) -> (list: Vec<(Vec<u8>, TokenId)>)
        ensures
            added_views(list@) == self@,
    {
        let mut list: Vec<(Vec<u8>, TokenId)> = Vec::new();
        for i in 0..self.list.len()
            invariant
                list@.len() == i,
                forall|k: int|
                    0 <= k < i ==> (#[trigger] list@[k]).0@ == self.list@[k].0@ && list@[k].1
                        == self.list@[k].1,
        {
            list.push((copy_bytes(self.list[i].0.as_slice()), self.list[i].1));
        }
        assert(added_views(list@) =~= self@);
        list
    }

    /// The number of tokens.
    pub fn len(&self) -> (n: usize)
        ensures
            n == self@.len(),
    {
        self.list.len()
    }

    /// The content and the id of the token at `i`.
    pub fn get(&self, i: usize) -> (r: (&[u8], TokenId))
        requires
            i < self@.len(),
        ensures
            (r.0@, r.1) == self@[i as int],
    {
        (self.list[i].0.as_slice(), self.list[i].1)
    }

    /// The first token of the list that stands in `bytes` at `at`.
    fn token_at(&self, bytes: &[u8], at: usize) -> (r: Option<usize>)
        ensures
            match r {
                Some(i) => added_at(self@, bytes@, at as int) && i == winner(
                    self@,
                    bytes@,
                    at as int,
                ) && i < self@.len(),
                None => !added_at(self@, bytes@, at as int),
            },
    {
        for i in 0..self.list.len()
            invariant
                forall|k: int|
                    0 <= k < i ==> !occurs_at(bytes@, (#[trigger] self@[k]).0, at as int),
        {
            assert(self@[i as int].0 == self.list@[i as int].0@);
            if starts_with_at(bytes, self.list[i].0.as_slice(), at) {
                proof {
                    assert(added_at(self@, bytes@, at as int));
                    lemma_winner(self@, bytes@, at as int);
                    let w = winner(self@, bytes@, at as int);
                    if w < i {
                        assert(!occurs_at(bytes@, self@[w].0, at as int));
                    } else if i < w {
                        assert(!occurs_at(bytes@, self@[i as int].0, at as int));
                    }
                }
                return Some(i);
            }
        }
        None
    }

    /// Where the next added token stands, at or after `from`.
    fn next_start(&self, bytes: &[u8], from: usize) -> (r: Option<usize>)
        requires
            self.wf(),
            from <= bytes@.len(),
        ensures
            match r {
                Some(at) => first_added(self@, bytes@, from as int) == Some(at as int) && at
                    < bytes@.len(),
                None => first_added(self@, bytes@, from as int) is None,
            },
    {
        let len: usize = bytes.len();
        proof {
            lemma_first_added(self@, bytes@, from as int);
        }
        if self.list.len() == 0 {
            return None;
        }
        match &self.matcher {
            Some(m) => {
                let part: &[u8] = &bytes[from..len];
                let found: Option<(usize, usize)> = find_longest_match(m, part);
                proof {
                    lemma_any_in_part(self@, bytes@, from as int);
                    match (found, first_added(self@, bytes@, from as int)) {
                        (Some((a, e)), Some(b)) => {
                            assert(any_at(contents_of(self@), part@, a as int));
                            assert(any_at(contents_of(self@), part@, b - from) <==> added_at(
                                self@,
                                bytes@,
                                from + (b - from),
                            ));
                            assert(added_at(self@, bytes@, from + a));
                        },
                        (Some((a, e)), None) => {
                            assert(added_at(self@, bytes@, from + a));
                        },
                        (None, Some(b)) => {
                            assert(any_at(contents_of(self@), part@, b - from) <==> added_at(
                                self@,
                                bytes@,
                                from + (b - from),
                            ));
                        },
                        (None, None) => {},
                    }
                }
                match found {
                    Some((a, _)) => Some(from + a),
                    None => None,
                }
            },
            None => {
                let mut at: usize = from;
                while at < len
                    invariant
                        len == bytes@.len(),
                        from <= at <= len,
                        first_added(self@, bytes@, at as int) == first_added(
                            self@,
                            bytes@,
                            from as int,
                        ),
                    decreases len - at,
                {
                    if self.token_at(bytes, at).is_some() {
                        return Some(at);
                    }
                    at = at + 1;
                }
                None
            },
        }
    }

    /// Find the leftmost added-token occurrence at or after `from`, taking
    /// the longest token when several match at the same position. Returns
    /// `(start, end, id)`.
    pub fn find_added_token(&self, bytes: &[u8], from: usize) -> (r: Option<(usize, usize, TokenId)>)
        requires
            self.wf(),
            from <= bytes@.len(),
        ensures
            match r {
                Some((start, end, id)) => {
                    &&& next_added(self@, bytes@, from as int) == Some(
                        (start as int, end as int, id),
                    )
                    &&& from <= start < end <= bytes@.len()
                },
                None => next_added(self@, bytes@, from as int) is None,
            },
    {
        match self.next_start(bytes, from) {
            None => None,
            Some(at) => {
                proof {
                    lemma_first_added(self@, bytes@, from as int);
                    lemma_winner(self@, bytes@, at as int);
                }
                match self.token_at(bytes, at) {
                    None => None,
                    Some(i) => {
                        let n: usize = self.list[i].0.len();
                        let total: usize = bytes.len();
                        proof {
                            assert(self@[i as int].0 == self.list@[i as int].0@);
                            assert(self@[i as int].0.len() > 0);
                            assert(at + n <= total);
                        }
                        Some((at, at + n, self.list[i].1))
                    },
                }
            },
        }
    }
}

proof fn lemma_any_in_part(added: Seq<Added>, s: Seq<u8>, from: int)
    requires
        0 <= from <= s.len(),
    ensures
        forall|i: int|
            0 <= i ==> (#[trigger] any_at(
                contents_of(added),
                s.subrange(from, s.len() as int),
                i,
            ) <==> added_at(added, s, from + i)),
        forall|i: int|
            i < 0 ==> !#[trigger] any_at(contents_of(added), s.subrange(from, s.len() as int), i),
{
    let part = s.subrange(from, s.len() as int);
    let patterns = contents_of(added);
    assert forall|i: int| 0 <= i implies (#[trigger] any_at(patterns, part, i) <==> added_at(
        added,
        s,
        from + i,
    )) by {
        if any_at(patterns, part, i) {
            let k = choose|k: int| 0 <= k < patterns.len() && occurs_at(part, #[trigger] patterns[k], i);
            crate::search::lemma_occurs_in_part(s, added[k].0, from, s.len() as int, i);
            assert(occurs_at(s, added[k].0, from + i));
        }
        if added_at(added, s, from + i) {
            let k = choose|k: int|
                0 <= k < added.len() && occurs_at(s, (#[trigger] added[k]).0, from + i);
            crate::search::lemma_occurs_in_part(s, added[k].0, from, s.len() as int, i);
            assert(occurs_at(part, patterns[k], i));
        }
    }
}

} // verus!
