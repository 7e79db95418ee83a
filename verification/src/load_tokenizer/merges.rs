//! Merge entries of `tokenizer.json`.

use vstd::prelude::*;
use vstd::string::StringSliceAdditionalSpecFns;
use vstd::utf8::{
    encode_utf8, encode_utf8_valid_utf8, is_char_boundary,
    is_char_boundary_iff_not_is_continuation_byte, length_of_first_scalar, pop_first_scalar,
    valid_first_scalar, valid_utf8,
};

use crate::search::{find_byte_from, first_byte, lemma_first_byte};

verus! {

/// A merge entry: `["a", "b"]` in current files, `"a b"` in older ones.
pub enum MergeEntry {
    Pair(String, String),
    Legacy(String),
}

/// The pair of an entry, as bytes: a legacy entry is cut at its first space.
pub open spec fn entry_pair(m: MergeEntry) -> Option<(Seq<u8>, Seq<u8>)> {
    match m {
        MergeEntry::Pair(a, b) => Some((encode_utf8(a@), encode_utf8(b@))),
        MergeEntry::Legacy(s) => legacy_pair(encode_utf8(s@)),
    }
}

/// The pair of a legacy entry.
pub open spec fn legacy_pair(s: Seq<u8>) -> Option<(Seq<u8>, Seq<u8>)> {
    match first_byte(s, 0x20, 0) {
        Some(at) => Some((s.take(at), s.skip(at + 1))),
        None => None,
    }
}

/// A text that starts with an ASCII character can be cut behind it.
proof fn lemma_after_ascii(t: Seq<u8>)
    requires
        valid_utf8(t),
        t.len() > 0,
        t[0] < 0x80,
    ensures
        is_char_boundary(t, 1),
{
    assert(valid_first_scalar(t));
    assert(length_of_first_scalar(t) == 1);
    let rest = pop_first_scalar(t);
    assert(is_char_boundary(rest, 0));
}

/// Cut a legacy entry at its first space.
pub fn split_merge(s: &str) -> (r: Option<(String, String)>)
    ensures
        match r {
            Some((a, b)) => legacy_pair(encode_utf8(s@)) == Some(
                (encode_utf8(a@), encode_utf8(b@)),
            ),
            None => legacy_pair(encode_utf8(s@)) is None,
        },
{
    let bytes: &[u8] = s.as_bytes();
    match find_byte_from(bytes, 0x20, 0) {
        None => None,
        Some(at) => {
            proof {
                encode_utf8_valid_utf8(s@);
                lemma_first_byte(bytes@, 0x20, 0);
                is_char_boundary_iff_not_is_continuation_byte(bytes@, at as int);
            }
            let (a, rest): (&str, &str) = s.split_at(at);
            proof {
                encode_utf8_valid_utf8(rest@);
                let t = rest.spec_bytes();
                assert(t =~= bytes@.skip(at as int));
                assert(t[0] == 0x20);
                lemma_after_ascii(t);
            }
            let (_, b): (&str, &str) = rest.split_at(1);
            assert(b.spec_bytes() =~= bytes@.skip(at + 1));
            assert(a.spec_bytes() =~= bytes@.take(at as int));
            Some((a.to_owned(), b.to_owned()))
        },
    }
}

/// The pairs of merge entries, or the number of the first that has none.
pub fn merge_pairs(entries: &[MergeEntry]) -> (r: Result<Vec<(String, String)>, usize>)
    ensures
        match r {
            Ok(pairs) => {
                &&& pairs@.len() == entries@.len()
                &&& forall|i: int|
                    0 <= i < entries@.len() ==> entry_pair(#[trigger] entries@[i]) == Some(
                        (encode_utf8(pairs@[i].0@), encode_utf8(pairs@[i].1@)),
                    )
            },
            Err(bad) => {
                &&& bad < entries@.len()
                &&& entry_pair(entries@[bad as int]) is None
                &&& forall|i: int| 0 <= i < bad ==> entry_pair(#[trigger] entries@[i]) is Some
            },
        },
{
    let mut pairs: Vec<(String, String)> = Vec::with_capacity(entries.len());
    for i in 0..entries.len()
        invariant
            pairs@.len() == i,
            forall|k: int|
                0 <= k < i ==> entry_pair(#[trigger] entries@[k]) == Some(
                    (encode_utf8(pairs@[k].0@), encode_utf8(pairs@[k].1@)),
                ),
    {
        match &entries[i] {
            MergeEntry::Pair(a, b) => {
                pairs.push((a.clone(), b.clone()));
            },
            MergeEntry::Legacy(s) => match split_merge(s.as_str()) {
                Some(pair) => {
                    pairs.push(pair);
                },
                None => return Err(i),
            },
        }
    }
    Ok(pairs)
}

} // verus!
