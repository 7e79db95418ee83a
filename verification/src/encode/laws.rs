//! Laws: which tokens are whose line's.

use vstd::prelude::*;

use crate::bpe::model::{joined, ModelView};
use crate::bpe::words::lemma_lookup_is_merging;
use crate::encode::tiktoken_radix::{line_tokens, lines_tokens, merged_pieces, merged_tokens};
use crate::pretokenize::gpt2::pretokens;

verus! {

/// The tokens of line `i` stand between its offset and the next, and the last offset is
/// the number of tokens.
pub proof fn lemma_line_between_offsets(m: ModelView, lines: Seq<Seq<u8>>, n: int, i: int)
    requires
        0 <= i < n <= lines.len(),
    ensures
        ({
            let all = lines_tokens(m, lines, n);
            let a = lines_tokens(m, lines, i).len() as int;
            let b = lines_tokens(m, lines, i + 1).len() as int;
            &&& lines_tokens(m, lines, 0).len() == 0
            &&& a <= b <= all.len()
            &&& all.subrange(a, b) == line_tokens(m, lines[i])
        }),
    decreases n,
{
    let all = lines_tokens(m, lines, n);
    let a = lines_tokens(m, lines, i).len() as int;
    let b = lines_tokens(m, lines, i + 1).len() as int;
    if i < n - 1 {
        lemma_line_between_offsets(m, lines, n - 1, i);
        let before = lines_tokens(m, lines, n - 1);
        assert(all.subrange(a, b) =~= before.subrange(a, b));
    } else {
        assert(all.subrange(a, b) =~= line_tokens(m, lines[i]));
    }
}

/// The tokens of a line are those of its pretokens, in order; and where each byte string
/// with a token is what merging its bytes gives, they are those of encoding the
/// pretokens with the lookup of whole words.
pub proof fn lemma_line_of_pretokens(m: ModelView, line: Seq<u8>)
    ensures
        line_tokens(m, line) == joined(
            Seq::new(pretokens(line).len(), |i: int| merged_tokens(m, pretokens(line)[i])),
        ),
        m.words_merge() ==> line_tokens(m, line) == m.tokens_of(pretokens(line)),
{
    let ps = pretokens(line);
    assert(merged_pieces(m, ps) =~= Seq::new(ps.len(), |i: int| merged_tokens(m, ps[i])));
    if m.words_merge() {
        lemma_lookup_is_merging(m, ps);
    }
}

} // verus!
