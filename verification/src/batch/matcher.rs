//! A prebuilt multi-substring matcher, to scan documents for special tokens.

use aho_corasick::AhoCorasick;
use vstd::prelude::*;
use vstd::string::StringSliceAdditionalSpecFns;
use vstd::utf8::encode_utf8;

use crate::bpe::added::matcher_patterns;
use crate::pretokenize::pretoken::slice_views;
use crate::seqs::occurs_at;

verus! {

/// Whether an automaton reports every match at every position.
pub uninterp spec fn matcher_standard(m: AhoCorasick) -> bool;

/// The bytes of strings.
pub open spec fn string_bytes(v: Seq<String>) -> Seq<Seq<u8>> {
    v.map_values(|s: String| encode_utf8(s@))
}

/// Whether an automaton with standard match semantics can be built over patterns.
pub uninterp spec fn matcher_builds(patterns: Seq<Seq<u8>>) -> bool;

/// `AhoCorasick::new`: an automaton over `patterns` with standard match
/// semantics, or `None` where the patterns are too many or too long for one,
/// which the patterns alone decide. Not stated: how many and how long that is.
#[verifier::external_body]
fn build_matcher(patterns: &[String]) -> (r: Option<AhoCorasick>)
    ensures
        match r {
            Some(m) => {
                &&& matcher_builds(string_bytes(patterns@))
                &&& matcher_patterns(m) == string_bytes(patterns@)
                &&& matcher_standard(m)
            },
            None => !matcher_builds(string_bytes(patterns@)),
        },
{
    AhoCorasick::new(patterns).ok()
}

/// Whether a text holds a pattern anywhere.
pub open spec fn holds(s: Seq<u8>, pattern: Seq<u8>) -> bool {
    exists|at: int| #[trigger] occurs_at(s, pattern, at)
}

/// `AhoCorasick::find_overlapping_iter`: the patterns of all matches at every
/// position. Not stated: in which order they come, and how often each does.
#[verifier::external_body]
fn find_overlapping(m: &AhoCorasick, haystack: &[u8]) -> (r: Vec<usize>)
    requires
        matcher_standard(*m),
    ensures
        forall|i: int|
            0 <= i < r@.len() ==> (#[trigger] r@[i]) < matcher_patterns(*m).len() && holds(
                haystack@,
                matcher_patterns(*m)[r@[i] as int],
            ),
        forall|k: usize|
            k < matcher_patterns(*m).len() && holds(
                haystack@,
                #[trigger] matcher_patterns(*m)[k as int],
            ) ==> r@.contains(k),
{
    m.find_overlapping_iter(haystack).map(|found| found.pattern().as_usize()).collect()
}

/// Compiled multi-pattern substring matcher. Build once from a list of patterns,
/// then query which patterns occur in a text: plain substring containment for
/// each pattern.
pub struct SubstringMatcher {
    automaton: AhoCorasick,
    n_patterns: usize,
}

/// The numbers of the flags that are set, up to the first `n`.
pub open spec fn set_flags(seen: Seq<bool>, n: int) -> Seq<usize>
    decreases n,
{
    if n <= 0 {
        Seq::empty()
    } else if seen[n - 1] {
        set_flags(seen, n - 1).push((n - 1) as usize)
    } else {
        set_flags(seen, n - 1)
    }
}

/// The numbers of the flags that are set, in order.
fn flags_set(seen: &[bool]) -> (r: Vec<usize>)
    ensures
        r@ == set_flags(seen@, seen@.len() as int),
{
    let mut r: Vec<usize> = Vec::new();
    for i in 0..seen.len()
        invariant
            r@ == set_flags(seen@, i as int),
    {
        if seen[i] {
            r.push(i);
        }
    }
    r
}

/// So many flags, none of them set.
fn no_flags(n: usize) -> (r: Vec<bool>)
    ensures
        r@.len() == n,
        forall|k: int| 0 <= k < n ==> !(#[trigger] r@[k]),
{
    let mut r: Vec<bool> = Vec::with_capacity(n);
    for i in 0..n
        invariant
            r@.len() == i,
            forall|k: int| 0 <= k < i ==> !(#[trigger] r@[k]),
    {
        r.push(false);
    }
    r
}

impl SubstringMatcher {
    /// The patterns.
    pub closed spec fn patterns(self) -> Seq<Seq<u8>> {
        matcher_patterns(self.automaton)
    }

    /// The automaton reports all matches, and the number of patterns is right.
    pub closed spec fn wf(self) -> bool {
        matcher_standard(self.automaton) && self.n_patterns == matcher_patterns(
            self.automaton,
        ).len()
    }

    /// Which patterns a text holds.
    pub open spec fn flags(self, s: Seq<u8>) -> Seq<bool> {
        Seq::new(self.patterns().len(), |k: int| holds(s, self.patterns()[k]))
    }

    /// Which patterns some of the texts hold.
    pub open spec fn flags_of_any(self, docs: Seq<Seq<u8>>) -> Seq<bool> {
        Seq::new(
            self.patterns().len(),
            |k: int| exists|d: int| 0 <= d < docs.len() && holds(#[trigger] docs[d], self.patterns()[k]),
        )
    }

    /// A matcher of patterns, or None where they are too many or too long for
    /// one.
    pub fn new(patterns: Vec<String>) -> (r: Option<Self>)
        ensures
            match r {
                Some(m) => {
                    &&& matcher_builds(string_bytes(patterns@))
                    &&& m.wf()
                    &&& m.patterns() == string_bytes(patterns@)
                },
                None => !matcher_builds(string_bytes(patterns@)),
            },
    {
        match build_matcher(patterns.as_slice()) {
            Some(automaton) => Some(SubstringMatcher { automaton, n_patterns: patterns.len() }),
            None => None,
        }
    }

    /// Which patterns occur in `haystack`, as flags over pattern indices.
    pub fn scan(&self, haystack: &[u8]) -> (seen: Vec<bool>)
        requires
            self.wf(),
        ensures
            seen@ == self.flags(haystack@),
    {
        let found: Vec<usize> = find_overlapping(&self.automaton, haystack);
        let mut seen: Vec<bool> = no_flags(self.n_patterns);
        let n: usize = self.n_patterns;
        for i in 0..found.len()
            invariant
                self.wf(),
                n == self.patterns().len(),
                seen@.len() == n,
                forall|k: int|
                    0 <= k < found@.len() ==> (#[trigger] found@[k]) < n && holds(
                        haystack@,
                        self.patterns()[found@[k] as int],
                    ),
                forall|k: int|
                    0 <= k < n ==> ((#[trigger] seen@[k]) <==> found@.take(i as int).contains(
                        k as usize,
                    )),
        {
            let at: usize = found[i];
            let ghost before = seen@;
            let ghost t = found@.take(i as int);
            let ghost t2 = found@.take(i as int + 1);
            seen.set(at, true);
            proof {
                assert(t2 =~= t.push(at));
                assert forall|k: int| 0 <= k < n implies ((#[trigger] seen@[k]) <==> t2.contains(
                    k as usize,
                )) by {
                    assert(before[k] <==> t.contains(k as usize));
                    if t.contains(k as usize) {
                        let j = choose|j: int| 0 <= j < t.len() && t[j] == k as usize;
                        assert(t2[j] == k as usize);
                    }
                    if k == at {
                        assert(t2[i as int] == k as usize);
                    }
                    if t2.contains(k as usize) && k != at {
                        let j = choose|j: int| 0 <= j < t2.len() && t2[j] == k as usize;
                        assert(t[j] == k as usize);
                    }
                }
            }
        }
        proof {
            assert(found@.take(found@.len() as int) =~= found@);
            assert forall|k: int| 0 <= k < n implies #[trigger] seen@[k] == holds(
                haystack@,
                self.patterns()[k],
            ) by {
                if found@.contains(k as usize) {
                    let j = choose|j: int| 0 <= j < found@.len() && found@[j] == k as usize;
                    assert(found@[j] < n);
                }
                if holds(haystack@, self.patterns()[k]) {
                    let u = k as usize;
                    assert(matcher_patterns(self.automaton)[u as int] == self.patterns()[k]);
                    assert(found@.contains(u));
                }
            }
            assert(seen@ =~= self.flags(haystack@));
        }
        seen
    }

    /// Scan every document. Ok when no pattern occurs anywhere; otherwise the
    /// sorted indices of every matched pattern.
    pub fn scan_docs(&self, docs: &[&[u8]]) -> (r: Result<(), Vec<usize>>)
        requires
            self.wf(),
        ensures
            ({
                let flags = self.flags_of_any(slice_views(docs@));
                let hits = set_flags(flags, flags.len() as int);
                match r {
                    Ok(_) => hits.len() == 0,
                    Err(found) => found@ == hits && hits.len() > 0,
                }
            }),
    {
        let ghost views = slice_views(docs@);
        let n: usize = self.n_patterns;
        let mut seen: Vec<bool> = no_flags(n);
        assert(seen@ =~= self.flags_of_any(views.take(0)));
        for i in 0..docs.len()
            invariant
                self.wf(),
                n == self.patterns().len(),
                views == slice_views(docs@),
                seen@ == self.flags_of_any(views.take(i as int)),
        {
            let more: Vec<bool> = self.scan(docs[i]);
            let ghost before = seen@;
            for k in 0..n
                invariant
                    n == self.patterns().len(),
                    before.len() == n,
                    seen@.len() == n,
                    more@.len() == n,
                    forall|j: int|
                        0 <= j < n ==> #[trigger] seen@[j] == if j < k {
                            before[j] || more@[j]
                        } else {
                            before[j]
                        },
            {
                if more[k] {
                    seen.set(k, true);
                }
            }
            proof {
                let t = views.take(i as int);
                let t2 = views.take(i as int + 1);
                assert forall|j: int| 0 <= j < n implies #[trigger] seen@[j]
                    == self.flags_of_any(t2)[j] by {
                    let p = self.patterns()[j];
                    assert(before[j] == (exists|d: int|
                        0 <= d < t.len() && holds(#[trigger] t[d], p)));
                    assert(more@[j] == holds(views[i as int], p));
                    if before[j] {
                        let d = choose|d: int| 0 <= d < t.len() && holds(#[trigger] t[d], p);
                        assert(t2[d] == t[d]);
                    }
                    if more@[j] {
                        assert(t2[i as int] == views[i as int]);
                    }
                    if exists|d: int| 0 <= d < t2.len() && holds(#[trigger] t2[d], p) {
                        let d = choose|d: int| 0 <= d < t2.len() && holds(#[trigger] t2[d], p);
                        if d < i {
                            assert(t[d] == t2[d]);
                        }
                    }
                }
                assert(seen@ =~= self.flags_of_any(t2));
            }
        }
        assert(views.take(views.len() as int) =~= views);
        let hits: Vec<usize> = flags_set(seen.as_slice());
        if hits.len() == 0 {
            Ok(())
        } else {
            Err(hits)
        }
    }

    /// Sorted indices of the patterns that occur in `text`.
    pub fn present(&self, text: &str) -> (r: Vec<usize>)
        requires
            self.wf(),
        ensures
            r@ == set_flags(
                self.flags(encode_utf8(text@)),
                self.patterns().len() as int,
            ),
    {
        let seen: Vec<bool> = self.scan(text.as_bytes());
        flags_set(seen.as_slice())
    }

    /// How many patterns there are.
    pub fn len(&self) -> (n: usize)
        requires
            self.wf(),
        ensures
            n == self.patterns().len(),
    {
        self.n_patterns
    }
}

} // verus!
