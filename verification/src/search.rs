//! Substring search.

use vstd::prelude::*;

use crate::seqs::occurs_at;

verus! {

/// `memchr::memmem::find`: the first place in `haystack` where `needle` stands.
#[verifier::external_body]
pub(crate) fn find_bytes(haystack: &[u8], needle: &[u8]) -> (r: Option<usize>)
    ensures
        match r {
            Some(at) => occurs_at(haystack@, needle@, at as int) && forall|i: int|
                0 <= i < at ==> !#[trigger] occurs_at(haystack@, needle@, i),
            None => forall|i: int| !#[trigger] occurs_at(haystack@, needle@, i),
        },
{
    memchr::memmem::find(haystack, needle)
}

/// `memchr::memchr`: the first place in `haystack` that holds `byte`.
#[verifier::external_body]
pub(crate) fn find_byte(byte: u8, haystack: &[u8]) -> (r: Option<usize>)
    ensures
        match r {
            Some(at) => at < haystack@.len() && haystack@[at as int] == byte && forall|i: int|
                0 <= i < at ==> #[trigger] haystack@[i] != byte,
            None => forall|i: int| 0 <= i < haystack@.len() ==> #[trigger] haystack@[i] != byte,
        },
{
    memchr::memchr(byte, haystack)
}

/// The first place at or after `from` where `needle` stands in `hay`.
pub open spec fn first_at(hay: Seq<u8>, needle: Seq<u8>, from: int) -> Option<int>
    decreases hay.len() - from,
{
    if from < 0 || from > hay.len() {
        None
    } else if occurs_at(hay, needle, from) {
        Some(from)
    } else if from == hay.len() {
        None
    } else {
        first_at(hay, needle, from + 1)
    }
}

/// [`first_at`] is the least place, where there is one.
pub proof fn lemma_first_at(hay: Seq<u8>, needle: Seq<u8>, from: int)
    requires
        0 <= from <= hay.len(),
    ensures
        match first_at(hay, needle, from) {
            Some(at) => from <= at && occurs_at(hay, needle, at) && forall|i: int|
                from <= i < at ==> !#[trigger] occurs_at(hay, needle, i),
            None => forall|i: int| from <= i ==> !#[trigger] occurs_at(hay, needle, i),
        },
    decreases hay.len() - from,
{
    if !occurs_at(hay, needle, from) && from < hay.len() {
        lemma_first_at(hay, needle, from + 1);
    }
}

/// Where `needle` stands in a part of `hay` is where it stands in `hay`.
pub proof fn lemma_occurs_in_part(hay: Seq<u8>, needle: Seq<u8>, lo: int, hi: int, at: int)
    requires
        0 <= lo <= hi <= hay.len(),
        0 <= at,
    ensures
        occurs_at(hay.subrange(lo, hi), needle, at) <==> occurs_at(hay, needle, lo + at) && lo + at
            + needle.len() <= hi,
{
    let part = hay.subrange(lo, hi);
    if at + needle.len() <= part.len() {
        assert(part.subrange(at, at + needle.len()) =~= hay.subrange(
            lo + at,
            lo + at + needle.len(),
        ));
    }
}

/// The first place at or after `from` where `needle` stands in `hay`.
pub fn find_from(hay: &[u8], needle: &[u8], from: usize) -> (r: Option<usize>)
    requires
        from <= hay@.len(),
    ensures
        match r {
            Some(at) => first_at(hay@, needle@, from as int) == Some(at as int),
            None => first_at(hay@, needle@, from as int) is None,
        },
{
    let len: usize = hay.len();
    let part: &[u8] = &hay[from..len];
    let found: Option<usize> = find_bytes(part, needle);
    proof {
        lemma_first_at(hay@, needle@, from as int);
        assert forall|i: int| 0 <= i implies (#[trigger] occurs_at(part@, needle@, i) <==> occurs_at(
            hay@,
            needle@,
            from + i,
        )) by {
            lemma_occurs_in_part(hay@, needle@, from as int, len as int, i);
        }
        match (found, first_at(hay@, needle@, from as int)) {
            (Some(a), Some(b)) => {
                assert(occurs_at(part@, needle@, a as int));
                assert(occurs_at(hay@, needle@, from + a));
                assert(occurs_at(part@, needle@, b - from) <==> occurs_at(
                    hay@,
                    needle@,
                    from + (b - from),
                ));
            },
            (Some(a), None) => {
                assert(occurs_at(hay@, needle@, from + a));
            },
            (None, Some(b)) => {
                assert(occurs_at(part@, needle@, b - from) <==> occurs_at(
                    hay@,
                    needle@,
                    from + (b - from),
                ));
            },
            (None, None) => {},
        }
    }
    match found {
        Some(at) => Some(from + at),
        None => None,
    }
}

/// The first place at or after `from` that holds `byte`.
pub open spec fn first_byte(s: Seq<u8>, byte: u8, from: int) -> Option<int>
    decreases s.len() - from,
{
    if from < 0 || from >= s.len() {
        None
    } else if s[from] == byte {
        Some(from)
    } else {
        first_byte(s, byte, from + 1)
    }
}

pub proof fn lemma_first_byte(s: Seq<u8>, byte: u8, from: int)
    requires
        0 <= from,
    ensures
        match first_byte(s, byte, from) {
            Some(at) => from <= at < s.len() && s[at] == byte && forall|i: int|
                from <= i < at ==> #[trigger] s[i] != byte,
            None => forall|i: int| from <= i < s.len() ==> #[trigger] s[i] != byte,
        },
    decreases s.len() - from,
{
    if from < s.len() && s[from] != byte {
        lemma_first_byte(s, byte, from + 1);
    }
}

/// The first place at or after `from` that holds `byte`.
pub fn find_byte_from(s: &[u8], byte: u8, from: usize) -> (r: Option<usize>)
    requires
        from <= s@.len(),
    ensures
        match r {
            Some(at) => first_byte(s@, byte, from as int) == Some(at as int) && from <= at
                < s@.len(),
            None => first_byte(s@, byte, from as int) is None,
        },
{
    let n: usize = s.len();
    let part: &[u8] = &s[from..n];
    let found: Option<usize> = find_byte(byte, part);
    proof {
        lemma_first_byte(s@, byte, from as int);
        assert forall|i: int| 0 <= i < part@.len() implies #[trigger] part@[i] == s@[from + i] by {}
        match (found, first_byte(s@, byte, from as int)) {
            (Some(a), Some(b)) => {
                assert(part@[a as int] == s@[from + a]);
                if from + a < b {
                    assert(s@[from + a] != byte);
                } else if b < from + a {
                    assert(part@[b - from] == s@[b]);
                }
            },
            (Some(a), None) => {
                assert(s@[from + a] == part@[a as int]);
            },
            (None, Some(b)) => {
                assert(part@[b - from] == s@[b]);
            },
            (None, None) => {},
        }
    }
    match found {
        Some(a) => Some(from + a),
        None => None,
    }
}

} // verus!
