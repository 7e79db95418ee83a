//! Names of the ways to break ties between equally frequent pairs.

use vstd::prelude::*;

use crate::strings::text_is;

verus! {

/// How ties between equally frequent pairs are broken.
#[derive(Debug, Clone, Copy, PartialEq, Eq, Structural)]
pub enum TieBreaking {
    HuggingFace,
    RawTokenIds,
    AssembledBytes,
}

/// The way of a name.
pub open spec fn tie_breaking_of(name: Seq<char>) -> Option<TieBreaking> {
    if name == "huggingface"@ {
        Some(TieBreaking::HuggingFace)
    } else if name == "raw_token_ids"@ {
        Some(TieBreaking::RawTokenIds)
    } else if name == "assembled_bytes"@ {
        Some(TieBreaking::AssembledBytes)
    } else {
        None
    }
}

/// Each way has one name, and no other text is a name.
pub proof fn lemma_tie_names(name: Seq<char>)
    ensures
        tie_breaking_of(name) == Some(TieBreaking::HuggingFace) <==> name == "huggingface"@,
        tie_breaking_of(name) == Some(TieBreaking::RawTokenIds) <==> name == "raw_token_ids"@,
        tie_breaking_of(name) == Some(TieBreaking::AssembledBytes) <==> name
            == "assembled_bytes"@,
        tie_breaking_of(name) is None <==> name != "huggingface"@ && name != "raw_token_ids"@
            && name != "assembled_bytes"@,
{
    reveal_strlit("huggingface");
    reveal_strlit("raw_token_ids");
    reveal_strlit("assembled_bytes");
    assert("huggingface"@.len() == 11 && "raw_token_ids"@.len() == 13);
    assert("assembled_bytes"@.len() == 15);
}

/// The way of a name, or None where it is the name of none.
pub fn parse_tie_breaking(s: &str) -> (r: Option<TieBreaking>)
    ensures
        r == tie_breaking_of(s@),
{
    if text_is(s, "huggingface") {
        Some(TieBreaking::HuggingFace)
    } else if text_is(s, "raw_token_ids") {
        Some(TieBreaking::RawTokenIds)
    } else if text_is(s, "assembled_bytes") {
        Some(TieBreaking::AssembledBytes)
    } else {
        None
    }
}

} // verus!
