//! Laws: what a rank file says, line by line.

use vstd::prelude::*;
use vstd::utf8::encode_utf8;

use crate::bpe::encoding_laws::{first_listed, lemma_assigned, lemma_listed_is_matched};
use crate::bpe::remap::{byte_token, lacks_byte, lemma_byte_token};
use crate::bpe::tiktoken::{Encoding, RanksError};
use crate::load_tokenizer::normalizer::base64_bytes;
use crate::load_tokenizer::tiktoken::{
    decimal, entry_error, lemma_decimal_nonnegative, line_token, line_tokens, lines_from, number,
    rank_tokens, ranks_give, with_special, with_specials, TiktokenError,
};
use crate::search::{first_byte, lemma_first_byte};
use crate::strings::{trimmed_end, trimmed_start};
use crate::token::TokenId;

verus! {

proof fn lemma_lines_in_rest(s: Seq<u8>, p: int, from: int)
    requires
        0 <= p <= from <= s.len(),
    ensures
        lines_from(s.skip(p), from - p) == lines_from(s, from),
    decreases s.len() - from,
{
    let t = s.skip(p);
    if from < s.len() {
        lemma_first_byte(s, 0x0A, from);
        lemma_first_byte(t, 0x0A, from - p);
        match first_byte(s, 0x0A, from) {
            Some(at) => {
                assert(t[at - p] == 0x0A);
                let k = first_byte(t, 0x0A, from - p)->0;
                assert(s[k + p] == t[k]);
                if k < at - p {
                    assert(s[k + p] != 0x0A);
                }
                assert(k == at - p);
                assert(t.subrange(from - p, at - p) =~= s.subrange(from, at));
                lemma_lines_in_rest(s, p, at + 1);
            },
            None => {
                match first_byte(t, 0x0A, from - p) {
                    Some(k) => {
                        assert(s[k + p] == t[k]);
                    },
                    None => {},
                }
                assert(t.skip(from - p) =~= s.skip(from));
            },
        }
    }
}

/// The lines of a text: up to its first line feed, without the carriage return that
/// the line feed may follow, and then those of the rest. A text without a line feed
/// is one line, and the empty text none.
pub proof fn lemma_lines(line: Seq<u8>, rest: Seq<u8>)
    requires
        !line.contains('\n' as u8),
    ensures
        lines_from(Seq::empty(), 0) == Seq::<Seq<u8>>::empty(),
        line.len() > 0 ==> lines_from(line, 0) == seq![line],
        line.len() > 0 && line.last() == '\r' as u8 ==> lines_from(
            line + seq!['\n' as u8] + rest,
            0,
        ) == seq![line.drop_last()] + lines_from(rest, 0),
        line.len() == 0 || line.last() != '\r' as u8 ==> lines_from(
            line + seq!['\n' as u8] + rest,
            0,
        ) == seq![line] + lines_from(rest, 0),
{
    let s = line + seq!['\n' as u8] + rest;
    let n = line.len() as int;
    lemma_first_byte(s, 0x0A, 0);
    lemma_first_byte(line, 0x0A, 0);
    assert(s[n] == 0x0A);
    let at = first_byte(s, 0x0A, 0)->0;
    if at < n {
        assert(line[at] == s[at]);
    }
    assert(at == n);
    assert(s.subrange(0, n) =~= line);
    assert(s.skip(n + 1) =~= rest);
    lemma_lines_in_rest(s, n + 1, n + 1);
    assert(line.skip(0) =~= line);
}

/// A number that a text writes: one digit is its value, a digit more is ten times what
/// stood before it and its value, a plus sign in front changes nothing, and what is no
/// digit, nothing at all, or more than 32 bits hold, is no number.
pub proof fn lemma_numbers(s: Seq<u8>, d: u8)
    ensures
        number(Seq::empty()) is None,
        number(seq!['+' as u8]) is None,
        '0' as u8 <= d <= '9' as u8 ==> number(seq![d]) == Some((d - '0' as u8) as u32),
        !('0' as u8 <= d <= '9' as u8) && s.len() > 0 ==> number(s.push(d)) is None,
        '0' as u8 <= d <= '9' as u8 && number(s) is Some ==> {
            let v = 10 * number(s)->0 + (d - '0' as u8);
            number(s.push(d)) == if v <= u32::MAX {
                Some(v as u32)
            } else {
                None
            }
        },
        s.len() > 0 && s[0] != '+' as u8 ==> number(seq!['+' as u8] + s) == number(s),
{
    let plus = '+' as u8;
    let t = s.push(d);
    let empty = Seq::<u8>::empty();
    assert(decimal(empty) == Some(0int));
    assert(seq![plus].skip(1) =~= empty);
    assert(seq![d].drop_last() =~= empty);
    assert(decimal(seq![d]) == if 0x30 <= d <= 0x39 {
        Some(10 * 0int + (d - 0x30))
    } else {
        None::<int>
    });
    if s.len() > 0 {
        if s[0] == plus {
            assert(t.skip(1) =~= s.skip(1).push(d));
            assert(s.skip(1).push(d).drop_last() =~= s.skip(1));
            lemma_decimal_nonnegative(s.skip(1));
        } else {
            assert(t.drop_last() =~= s);
            assert(t[0] == s[0]);
            lemma_decimal_nonnegative(s);
            assert((seq![plus] + s).skip(1) =~= s);
        }
    }
}

/// A line of a rank file is a token in base64, a space, and its rank: the token is
/// taken where the rank, trimmed, is the place of the line.
pub proof fn lemma_rank_line(token: Seq<u8>, field: Seq<u8>, i: int)
    requires
        !token.contains(' ' as u8),
        0 <= i <= usize::MAX,
    ensures
        ({
            let line = token + seq![' ' as u8] + field;
            let rank = number(trimmed_end(trimmed_start(field)));
            &&& line_token(token, i) == Err::<Seq<u8>, TiktokenError>(
                TiktokenError::NoRank(i as usize),
            )
            &&& rank is None ==> line_token(line, i) == Err::<Seq<u8>, TiktokenError>(
                TiktokenError::BadRank(i as usize),
            )
            &&& rank is Some && rank->0 != i ==> line_token(line, i) == Err::<
                Seq<u8>,
                TiktokenError,
            >(TiktokenError::NotDense(i as usize))
            &&& rank is Some && rank->0 == i ==> line_token(line, i) == match base64_bytes(token) {
                Some(bytes) => Ok::<Seq<u8>, TiktokenError>(bytes),
                None => Err(TiktokenError::NotBase64(i as usize)),
            }
        }),
{
    let line = token + seq![' ' as u8] + field;
    let n = token.len() as int;
    lemma_first_byte(line, 0x20, 0);
    lemma_first_byte(token, 0x20, 0);
    assert(line[n] == 0x20);
    let at = first_byte(line, 0x20, 0)->0;
    if at < n {
        assert(token[at] == line[at]);
    }
    assert(at == n);
    assert(line.take(n) =~= token);
    assert(line.skip(n + 1) =~= field);
}

/// The tokens of a rank file: one for each line, in order, or the error of the first
/// line that has none.
pub proof fn lemma_rank_file(text: Seq<u8>)
    ensures
        match rank_tokens(text) {
            Ok(tokens) => {
                &&& tokens.len() == lines_from(text, 0).len()
                &&& forall|i: int|
                    0 <= i < tokens.len() ==> line_token(lines_from(text, 0)[i], i) == Ok::<
                        Seq<u8>,
                        TiktokenError,
                    >(#[trigger] tokens[i])
            },
            Err(e) => exists|i: int|
                0 <= i < lines_from(text, 0).len() && line_token(
                    #[trigger] lines_from(text, 0)[i],
                    i,
                ) == Err::<Seq<u8>, TiktokenError>(e) && forall|j: int|
                    0 <= j < i ==> line_token(#[trigger] lines_from(text, 0)[j], j) is Ok,
        },
{
    let lines = lines_from(text, 0);
    lemma_rank_lines(lines, lines.len() as int);
}

proof fn lemma_rank_lines(lines: Seq<Seq<u8>>, n: int)
    requires
        0 <= n <= lines.len(),
    ensures
        match line_tokens(lines, n) {
            Ok(tokens) => {
                &&& tokens.len() == n
                &&& forall|i: int|
                    0 <= i < n ==> line_token(lines[i], i) == Ok::<Seq<u8>, TiktokenError>(
                        #[trigger] tokens[i],
                    )
            },
            Err(e) => exists|i: int|
                0 <= i < n && line_token(#[trigger] lines[i], i) == Err::<Seq<u8>, TiktokenError>(
                    e,
                ) && forall|j: int| 0 <= j < i ==> line_token(#[trigger] lines[j], j) is Ok,
        },
    decreases n,
{
    if n > 0 {
        lemma_rank_lines(lines, n - 1);
        match line_tokens(lines, n - 1) {
            Ok(before) => match line_token(lines[n - 1], n - 1) {
                Ok(token) => {
                    let now = before.push(token);
                    assert forall|i: int| 0 <= i < n implies line_token(lines[i], i) == Ok::<
                        Seq<u8>,
                        TiktokenError,
                    >(#[trigger] now[i]) by {
                        if i < n - 1 {
                            assert(now[i] == before[i]);
                        }
                    }
                },
                Err(e) => {
                    assert forall|j: int| 0 <= j < n - 1 implies line_token(
                        #[trigger] lines[j],
                        j,
                    ) is Ok by {
                        assert(line_token(lines[j], j) == Ok::<Seq<u8>, TiktokenError>(before[j]));
                    }
                    assert(line_token(lines[n - 1], n - 1) == Err::<Seq<u8>, TiktokenError>(e));
                },
            },
            Err(e) => {},
        }
    }
}

/// Registering a special token: it is matched from then on, unless another has its
/// content already; an id without content decodes to it; and nothing else that was
/// matched stops being matched.
pub proof fn lemma_special(e: Encoding, content: Seq<u8>, id: TokenId, c: Seq<u8>, k: TokenId)
    requires
        id.0 < u32::MAX,
        content.len() > 0,
        forall|i: int| 0 <= i < e.added.len() ==> (#[trigger] e.added[i]).0 != content,
    ensures
        ({
            let after = with_special(e, content, id);
            &&& first_listed(after.added, content, id)
            &&& c.len() > 0 && first_listed(e.added, c, k) ==> first_listed(after.added, c, k)
            &&& id.0 >= e.model.vocab.len() ==> id.0 < after.model.vocab.len()
                && after.model.vocab[id.0 as int] == content
            &&& after.scheme == e.scheme
            &&& after.nfc == e.nfc
            &&& after.model.merges == e.model.merges
        }),
{
    let list = e.added.push((content, id));
    lemma_assigned(e.model, content, id, 0);
    let n = e.added.len() as int;
    assert(list[n] == (content, id));
    assert forall|j: int| 0 <= j < n implies (#[trigger] list[j]).0 != content by {
        assert(list[j] == e.added[j]);
    }
    assert(first_listed(list, content, id));
    lemma_listed_is_matched(list, content, id);
    if c.len() > 0 && first_listed(e.added, c, k) {
        let i = choose|i: int|
            0 <= i < n && #[trigger] e.added[i] == (c, k) && forall|j: int|
                0 <= j < i ==> (#[trigger] e.added[j]).0 != c;
        assert(list[i] == (c, k));
        assert forall|j: int| 0 <= j < i implies (#[trigger] list[j]).0 != c by {
            assert(list[j] == e.added[j]);
        }
        assert(first_listed(list, c, k));
        lemma_listed_is_matched(list, c, k);
    }
}

/// The special tokens of an id map are registered in its order, each under the number
/// that its key writes.
pub proof fn lemma_specials_in_order(e: Encoding, entries: Seq<(String, String)>, k: int, id: u32)
    requires
        0 <= k < entries.len(),
        number(encode_utf8(entries[k].0@)) == Some(id),
    ensures
        with_specials(e, entries, 0) == e,
        with_specials(e, entries, k + 1) == with_special(
            with_specials(e, entries, k),
            encode_utf8(entries[k].1@),
            TokenId(id),
        ),
{
}

/// An entry of an id map is refused where its key is no number, or is the number of a
/// rank, and for nothing else; the fault names its place.
pub proof fn lemma_entry_refused(entries: Seq<(String, String)>, i: int, n_ranks: int)
    requires
        0 <= i < entries.len(),
        i <= usize::MAX,
    ensures
        match entry_error(entries, i, n_ranks) {
            Some(TiktokenError::BadId(j)) => j == i && number(encode_utf8(entries[i].0@)) is None,
            Some(TiktokenError::Overlaps(j)) => j == i && (number(
                encode_utf8(entries[i].0@),
            ) matches Some(id) && id < n_ranks),
            Some(_) => false,
            None => number(encode_utf8(entries[i].0@)) matches Some(id) && n_ranks <= id,
        },
{
}

/// Tokens in rank order give a tokenizer only with an entry for every byte that UTF-8 can
/// hold: all but 0xC0, 0xC1 and those above 0xF4. The fault is the least that they lack,
/// or the first token of more than a byte that no two tokens make.
pub proof fn lemma_ranks_owe_bytes(tokens: Seq<Seq<u8>>, r: Result<Encoding, RanksError>, b: u8)
    requires
        ranks_give(tokens, r),
    ensures
        r is Ok && b <= 0xF4 && b != 0xC0 && b != 0xC1 ==> exists|i: int|
            0 <= i < tokens.len() && #[trigger] tokens[i] == seq![b],
        r matches Err(RanksError::MissingByte(c)) ==> {
            &&& c <= 0xF4 && c != 0xC0 && c != 0xC1
            &&& forall|i: int| 0 <= i < tokens.len() ==> #[trigger] tokens[i] != seq![c]
            &&& b < c && b != 0xC0 && b != 0xC1 ==> exists|i: int|
                0 <= i < tokens.len() && #[trigger] tokens[i] == seq![b]
        },
        r matches Err(RanksError::Unmergeable(i)) ==> i < tokens.len() && tokens[i as int].len() > 1,
{
    lemma_byte_token(tokens, b);
    if !lacks_byte(tokens, b) && b <= 0xF4 && b != 0xC0 && b != 0xC1 {
        let i = byte_token(tokens, b)->0;
        assert(0 <= i < tokens.len() && tokens[i] == seq![b]);
    }
    if let Err(RanksError::MissingByte(c)) = r {
        lemma_byte_token(tokens, c);
    }
}

} // verus!
