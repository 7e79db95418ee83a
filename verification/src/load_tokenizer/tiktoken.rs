//! Tokenizers from `.tiktoken` rank files.

use vstd::prelude::*;
use vstd::string::StringSliceAdditionalSpecFns;
use vstd::utf8::encode_utf8;

use crate::bpe::added::by_descending_len;
use crate::bpe::model::{rank_ok, ranks_mergeable, vocab_inverse};
use crate::bpe::remap::lacks_byte;
use crate::bpe::tiktoken::{plain_encoding, ranked_model, Encoding, RanksError, Tokenizer};
use crate::load_tokenizer::normalizer::{base64_bytes, base64_decode};
use crate::pretokenize::options::PretokenizerType;
use crate::search::{find_byte_from, first_byte, lemma_first_byte};
use crate::seqs::{byte_seqs, copy_bytes};
use crate::strings::{ink_len, skip_spaces, trimmed_end, trimmed_start};
use crate::token::TokenId;

verus! {

/// A line without the carriage return that its line feed follows.
pub open spec fn without_cr(line: Seq<u8>) -> Seq<u8> {
    if line.len() > 0 && line.last() == 0x0D {
        line.drop_last()
    } else {
        line
    }
}

/// The lines of a text from `from` on. The last line feed is optional.
pub open spec fn lines_from(s: Seq<u8>, from: int) -> Seq<Seq<u8>>
    decreases s.len() - from,
{
    if from < 0 || from >= s.len() {
        Seq::empty()
    } else {
        match first_byte(s, 0x0A, from) {
            Some(at) => if from <= at < s.len() {
                seq![without_cr(s.subrange(from, at))] + lines_from(s, at + 1)
            } else {
                Seq::empty()
            },
            None => seq![s.skip(from)],
        }
    }
}

/// A text has no more lines than bytes.
pub proof fn lemma_lines_bound(s: Seq<u8>, from: int)
    requires
        0 <= from <= s.len(),
    ensures
        lines_from(s, from).len() <= s.len() - from,
    decreases s.len() - from,
{
    if from < s.len() {
        lemma_first_byte(s, 0x0A, from);
        if let Some(at) = first_byte(s, 0x0A, from) {
            lemma_lines_bound(s, at + 1);
        }
    }
}

/// The value of decimal digits.
pub open spec fn decimal(s: Seq<u8>) -> Option<int>
    decreases s.len(),
{
    if s.len() == 0 {
        Some(0)
    } else {
        match decimal(s.drop_last()) {
            Some(v) => if 0x30 <= s.last() <= 0x39 {
                Some(10 * v + (s.last() - 0x30))
            } else {
                None
            },
            None => None,
        }
    }
}

/// The 32-bit number that a text writes: digits, at least one, behind an
/// optional plus sign.
pub open spec fn number(s: Seq<u8>) -> Option<u32> {
    let digits = if s.len() > 0 && s[0] == 0x2B {
        s.skip(1)
    } else {
        s
    };
    if digits.len() == 0 {
        None
    } else {
        match decimal(digits) {
            Some(v) => if v <= u32::MAX {
                Some(v as u32)
            } else {
                None
            },
            None => None,
        }
    }
}

proof fn lemma_decimal_grows(s: Seq<u8>, k: int)
    requires
        0 <= k <= s.len(),
    ensures
        decimal(s.take(k)) is None ==> decimal(s) is None,
        decimal(s) matches Some(v) ==> (decimal(s.take(k)) matches Some(u) && 0 <= u <= v),
    decreases s.len() - k,
{
    if k < s.len() {
        lemma_decimal_grows(s, k + 1);
        let t = s.take(k + 1);
        assert(t.drop_last() =~= s.take(k));
        assert(t.last() == s[k]);
        lemma_decimal_nonnegative(s.take(k));
    } else {
        assert(s.take(k) =~= s);
        lemma_decimal_nonnegative(s);
    }
}

/// Digits have no negative value.
pub proof fn lemma_decimal_nonnegative(s: Seq<u8>)
    ensures
        decimal(s) matches Some(v) ==> v >= 0,
    decreases s.len(),
{
    if s.len() > 0 {
        lemma_decimal_nonnegative(s.drop_last());
    }
}

/// Parse a 32-bit number.
pub fn parse_u32(s: &[u8]) -> (r: Option<u32>)
    ensures
        r == number(s@),
{
    let n: usize = s.len();
    let start: usize = if n > 0 && s[0] == 0x2B {
        1
    } else {
        0
    };
    let digits: &[u8] = &s[start..n];
    let ghost d = digits@;
    assert(start == 1 ==> d =~= s@.skip(1));
    assert(start == 0 ==> d =~= s@);
    if digits.len() == 0 {
        return None;
    }
    let mut v: u32 = 0;
    assert(d.take(0) =~= Seq::<u8>::empty());
    for i in 0..digits.len()
        invariant
            d == digits@,
            d.len() > 0,
            number(s@) == match decimal(d) {
                Some(v) => if v <= u32::MAX {
                    Some(v as u32)
                } else {
                    None
                },
                None => None,
            },
            decimal(d.take(i as int)) == Some(v as int),
    {
        let b: u8 = digits[i];
        proof {
            let t = d.take(i as int + 1);
            assert(t.drop_last() =~= d.take(i as int));
            assert(t.last() == d[i as int]);
            lemma_decimal_grows(d, i as int + 1);
        }
        if b < 0x30 || b > 0x39 {
            return None;
        }
        let next: u64 = 10 * (v as u64) + (b - 0x30) as u64;
        if next > 0xFFFF_FFFF {
            return None;
        }
        v = next as u32;
    }
    assert(d.take(d.len() as int) =~= d);
    Some(v)
}

/// Why a rank file, or what comes with it, gives no tokenizer.
#[derive(Debug, Clone, Copy, PartialEq, Eq, Structural)]
pub enum TiktokenError {
    /// A line has no rank field.
    NoRank(usize),
    /// A line's rank is no number.
    BadRank(usize),
    /// A line's rank is not its place: ranks must be dense.
    NotDense(usize),
    /// A line's token is no base64.
    NotBase64(usize),
    /// The tokens are no vocabulary in rank order.
    Ranks(RanksError),
    /// The id of an added token is no number.
    BadId(usize),
    /// The id of an added token is a mergeable rank.
    Overlaps(usize),
}

/// The token of a line at place `i`.
pub open spec fn line_token(line: Seq<u8>, i: int) -> Result<Seq<u8>, TiktokenError> {
    match first_byte(line, 0x20, 0) {
        None => Err(TiktokenError::NoRank(i as usize)),
        Some(at) => match number(trimmed_end(trimmed_start(line.skip(at + 1)))) {
            None => Err(TiktokenError::BadRank(i as usize)),
            Some(rank) => if rank != i {
                Err(TiktokenError::NotDense(i as usize))
            } else {
                match base64_bytes(line.take(at)) {
                    Some(token) => Ok(token),
                    None => Err(TiktokenError::NotBase64(i as usize)),
                }
            },
        },
    }
}

/// The tokens of the first `n` of a list of lines, or the first error.
pub open spec fn line_tokens(lines: Seq<Seq<u8>>, n: int) -> Result<Seq<Seq<u8>>, TiktokenError>
    decreases n,
{
    if n <= 0 {
        Ok(Seq::empty())
    } else {
        match line_tokens(lines, n - 1) {
            Err(e) => Err(e),
            Ok(before) => match line_token(lines[n - 1], n - 1) {
                Err(e) => Err(e),
                Ok(token) => Ok(before.push(token)),
            },
        }
    }
}

/// The mergeable ranks of a rank file.
pub open spec fn rank_tokens(text: Seq<u8>) -> Result<Seq<Seq<u8>>, TiktokenError> {
    line_tokens(lines_from(text, 0), lines_from(text, 0).len() as int)
}

proof fn lemma_line_error(lines: Seq<Seq<u8>>, a: int, b: int)
    requires
        1 <= a <= b <= lines.len(),
        line_tokens(lines, a) is Err,
    ensures
        line_tokens(lines, b) == line_tokens(lines, a),
    decreases b - a,
{
    if a < b {
        lemma_line_error(lines, a, b - 1);
    }
}

fn trimmed(s: &[u8]) -> (r: &[u8])
    ensures
        r@ == trimmed_end(trimmed_start(s@)),
{
    let start: usize = skip_spaces(s, 0);
    let n: usize = s.len();
    let rest: &[u8] = &s[start..n];
    assert(rest@ =~= trimmed_start(s@));
    let end: usize = ink_len(rest);
    let r: &[u8] = &rest[0..end];
    assert(r@ =~= trimmed_end(rest@));
    r
}

fn parse_line(line: &[u8], i: usize) -> (r: Result<Vec<u8>, TiktokenError>)
    ensures
        match r {
            Ok(token) => line_token(line@, i as int) == Ok::<Seq<u8>, TiktokenError>(token@),
            Err(e) => line_token(line@, i as int) == Err::<Seq<u8>, TiktokenError>(e),
        },
{
    let at: usize = match find_byte_from(line, 0x20, 0) {
        Some(at) => at,
        None => return Err(TiktokenError::NoRank(i)),
    };
    let n: usize = line.len();
    let field: &[u8] = &line[at + 1..n];
    assert(field@ =~= line@.skip(at as int + 1));
    let rank: u32 = match parse_u32(trimmed(field)) {
        Some(rank) => rank,
        None => return Err(TiktokenError::BadRank(i)),
    };
    if rank as usize != i {
        return Err(TiktokenError::NotDense(i));
    }
    let token: &[u8] = &line[0..at];
    assert(token@ =~= line@.take(at as int));
    match base64_decode(token) {
        Ok(bytes) => Ok(bytes),
        Err(_) => Err(TiktokenError::NotBase64(i)),
    }
}

/// The base64-per-line mergeable ranks of a .tiktoken/tiktoken.model file, in
/// rank order (merges are reconstructed from this list).
pub fn load_tiktoken_ranks(text: &str) -> (r: Result<Vec<Vec<u8>>, TiktokenError>)
    ensures
        match r {
            Ok(tokens) => {
                &&& rank_tokens(encode_utf8(text@)) == Ok::<Seq<Seq<u8>>, TiktokenError>(
                    byte_seqs(tokens@),
                )
                &&& tokens@.len() == lines_from(encode_utf8(text@), 0).len()
            },
            Err(e) => rank_tokens(encode_utf8(text@)) == Err::<Seq<Seq<u8>>, TiktokenError>(e),
        },
{
    let s: &[u8] = text.as_bytes();
    let n: usize = s.len();
    let ghost lines = lines_from(s@, 0);
    let mut tokens: Vec<Vec<u8>> = Vec::new();
    let mut pos: usize = 0;
    assert(byte_seqs(tokens@) =~= Seq::<Seq<u8>>::empty());
    assert(lines.skip(0) =~= lines);
    while pos < n
        invariant
            n == s@.len(),
            s@ == encode_utf8(text@),
            lines == lines_from(s@, 0),
            pos <= n,
            tokens@.len() <= lines.len(),
            tokens@.len() <= pos,
            lines_from(s@, pos as int) == lines.skip(tokens@.len() as int),
            line_tokens(lines, tokens@.len() as int) == Ok::<Seq<Seq<u8>>, TiktokenError>(
                byte_seqs(tokens@),
            ),
        decreases n - pos,
    {
        let ghost i = tokens@.len() as int;
        let ghost before = byte_seqs(tokens@);
        let next: usize;
        let line: &[u8];
        match find_byte_from(s, 0x0A, pos) {
            Some(at) => {
                let end: usize = if at > pos && s[at - 1] == 0x0D {
                    at - 1
                } else {
                    at
                };
                line = &s[pos..end];
                next = at + 1;
                proof {
                    let whole = s@.subrange(pos as int, at as int);
                    assert(line@ =~= without_cr(whole));
                }
            },
            None => {
                line = &s[pos..n];
                next = n;
                assert(line@ =~= s@.skip(pos as int));
            },
        }
        proof {
            let rest = lines_from(s@, pos as int);
            lemma_first_byte(s@, 0x0A, pos as int);
            assert(rest.len() >= 1);
            assert(rest[0] == line@);
            assert(lines.skip(i).len() == lines.len() - i);
            assert(lines.skip(i)[0] == lines[i]);
            assert(rest.skip(1) =~= lines.skip(i + 1));
            assert(lines_from(s@, next as int) =~= rest.skip(1));
        }
        match parse_line(line, tokens.len()) {
            Ok(token) => {
                tokens.push(token);
                assert(byte_seqs(tokens@) =~= before.push(token@));
            },
            Err(e) => {
                proof {
                    lemma_line_error(lines, i + 1, lines.len() as int);
                }
                return Err(e);
            },
        }
        pos = next;
    }
    proof {
        assert(lines_from(s@, pos as int) =~= Seq::<Seq<u8>>::empty());
        assert(lines.skip(tokens@.len() as int).len() == 0);
    }
    Ok(tokens)
}

/// How a tokenizer encodes once a special token has been registered.
pub open spec fn with_special(e: Encoding, content: Seq<u8>, id: TokenId) -> Encoding {
    Encoding {
        model: e.model.assigned(content, id),
        added: by_descending_len(e.added.push((content, id))),
        ..e
    }
}

/// How the tokenizer of a vocabulary in rank order encodes, or why there is
/// none: the first token that does not fall apart into two before it, or the
/// first byte without a token.
pub open spec fn ranks_give(tokens: Seq<Seq<u8>>, r: Result<Encoding, RanksError>) -> bool {
    let inv = vocab_inverse(tokens, tokens.len() as int);
    match r {
        Ok(e) => {
            &&& ranks_mergeable(tokens)
            &&& forall|b: u8| !#[trigger] lacks_byte(tokens, b)
            &&& e == plain_encoding(ranked_model(tokens))
        },
        Err(RanksError::Unmergeable(i)) => {
            &&& i < tokens.len()
            &&& !rank_ok(tokens, inv, i as int)
            &&& forall|j: int| 0 <= j < i ==> #[trigger] rank_ok(tokens, inv, j)
        },
        Err(RanksError::MissingByte(b)) => {
            &&& ranks_mergeable(tokens)
            &&& lacks_byte(tokens, b)
            &&& forall|c: u8| c < b ==> !#[trigger] lacks_byte(tokens, c)
        },
    }
}

/// The name of the end-of-text token.
pub open spec fn end_of_text() -> Seq<u8> {
    encode_utf8("<|endoftext|>"@)
}

/// Build the tokenizer of a rank file.
///
/// Rank files carry no special tokens; GPT-2-family vocabs (gpt2/r50k) place
/// `<|endoftext|>` at the id right after the mergeable ranks. It is registered,
/// so that tokenizers of either kind of file encode and decode identically.
pub fn load_tiktoken(text: &str) -> (r: Result<Tokenizer, TiktokenError>)
    requires
        lines_from(encode_utf8(text@), 0).len() < u32::MAX,
    ensures
        match rank_tokens(encode_utf8(text@)) {
            Err(e) => r matches Err(x) && x == e,
            Ok(tokens) => match r {
                Ok(t) => {
                    &&& t.wf()
                    &&& ranks_give(tokens, Ok(plain_encoding(ranked_model(tokens))))
                    &&& t.encoding() == with_special(
                        plain_encoding(ranked_model(tokens)),
                        end_of_text(),
                        TokenId(tokens.len() as u32),
                    )
                },
                Err(e) => e matches TiktokenError::Ranks(why) && ranks_give(tokens, Err(why)),
            },
        },
{
    let rank_vocab: Vec<Vec<u8>> = match load_tiktoken_ranks(text) {
        Ok(tokens) => tokens,
        Err(e) => return Err(e),
    };
    let n_ranks: u32 = rank_vocab.len() as u32;
    let mut tokenizer: Tokenizer = match Tokenizer::try_from_ranks(rank_vocab) {
        Ok(t) => t,
        Err(e) => return Err(TiktokenError::Ranks(e)),
    };
    tokenizer.add_special_token(copy_bytes("<|endoftext|>".as_bytes()), TokenId(n_ranks));
    Ok(tokenizer)
}

/// How a tokenizer encodes once the special tokens of the first `k` entries of
/// an id map have been registered.
pub open spec fn with_specials(e: Encoding, entries: Seq<(String, String)>, k: int) -> Encoding
    decreases k,
{
    if k <= 0 {
        e
    } else {
        with_special(
            with_specials(e, entries, k - 1),
            encode_utf8(entries[k - 1].1@),
            TokenId(number(encode_utf8(entries[k - 1].0@))->0),
        )
    }
}

/// What is wrong with the entry at `i` of an id map.
pub open spec fn entry_error(entries: Seq<(String, String)>, i: int, n_ranks: int) -> Option<
    TiktokenError,
> {
    match number(encode_utf8(entries[i].0@)) {
        None => Some(TiktokenError::BadId(i as usize)),
        Some(id) => if id < n_ranks {
            Some(TiktokenError::Overlaps(i as usize))
        } else {
            None
        },
    }
}

/// Build a moonshotai Kimi-style tokenizer: of a `tiktoken.model` rank file and
/// the `added_tokens_decoder` of its `tokenizer_config.json`, which carries the
/// special tokens: ids, as they are written, and contents. Every Kimi/Moonlight
/// repo shares one rank file and differs only in this special-token map.
pub fn load_kimi(text: &str, added_tokens_decoder: &[(String, String)]) -> (r: Result<
    Tokenizer,
    TiktokenError,
>)
    requires
        lines_from(encode_utf8(text@), 0).len() < u32::MAX,
        forall|i: int|
            0 <= i < added_tokens_decoder@.len() ==> number(
                encode_utf8((#[trigger] added_tokens_decoder@[i]).0@),
            ) != Some(u32::MAX),
    ensures
        match rank_tokens(encode_utf8(text@)) {
            Err(e) => r matches Err(x) && x == e,
            Ok(tokens) => match r {
                Ok(t) => {
                    &&& t.wf()
                    &&& ranks_give(tokens, Ok(plain_encoding(ranked_model(tokens))))
                    &&& forall|i: int|
                        0 <= i < added_tokens_decoder@.len() ==> #[trigger] entry_error(
                            added_tokens_decoder@,
                            i,
                            tokens.len() as int,
                        ) is None
                    &&& t.encoding() == with_specials(
                        Encoding {
                            scheme: PretokenizerType::Kimi,
                            ..plain_encoding(ranked_model(tokens))
                        },
                        added_tokens_decoder@,
                        added_tokens_decoder@.len() as int,
                    )
                },
                Err(TiktokenError::Ranks(why)) => ranks_give(tokens, Err(why)),
                Err(e) => {
                    &&& ranks_give(tokens, Ok(plain_encoding(ranked_model(tokens))))
                    &&& exists|i: int|
                        0 <= i < added_tokens_decoder@.len() && #[trigger] entry_error(
                            added_tokens_decoder@,
                            i,
                            tokens.len() as int,
                        ) == Some(e) && forall|j: int|
                            0 <= j < i ==> #[trigger] entry_error(
                                added_tokens_decoder@,
                                j,
                                tokens.len() as int,
                            ) is None
                },
            },
        },
{
    let rank_vocab: Vec<Vec<u8>> = match load_tiktoken_ranks(text) {
        Ok(tokens) => tokens,
        Err(e) => return Err(e),
    };
    let ghost tokens = byte_seqs(rank_vocab@);
    let n_ranks: u32 = rank_vocab.len() as u32;
    assert(n_ranks == tokens.len());
    let mut tokenizer: Tokenizer = match Tokenizer::try_from_ranks(rank_vocab) {
        Ok(t) => t,
        Err(e) => return Err(TiktokenError::Ranks(e)),
    };
    tokenizer.set_pretokenizer_type(PretokenizerType::Kimi);
    let ghost start = tokenizer.encoding();
    let ghost entries = added_tokens_decoder@;
    for i in 0..added_tokens_decoder.len()
        invariant
            entries == added_tokens_decoder@,
            n_ranks == tokens.len(),
            rank_tokens(encode_utf8(text@)) == Ok::<Seq<Seq<u8>>, TiktokenError>(tokens),
            ranks_give(tokens, Ok(plain_encoding(ranked_model(tokens)))),
            forall|k: int|
                0 <= k < entries.len() ==> number(encode_utf8((#[trigger] entries[k]).0@)) != Some(
                    u32::MAX,
                ),
            forall|k: int|
                0 <= k < i ==> #[trigger] entry_error(entries, k, tokens.len() as int) is None,
            tokenizer.wf(),
            tokenizer.encoding() == with_specials(start, entries, i as int),
    {
        assert(entries[i as int] == added_tokens_decoder@[i as int]);
        let ghost fault = entry_error(entries, i as int, tokens.len() as int);
        let id: u32 = match parse_u32(added_tokens_decoder[i].0.as_str().as_bytes()) {
            Some(id) => id,
            None => {
                assert(fault == Some(TiktokenError::BadId(i)));
                return Err(TiktokenError::BadId(i));
            },
        };
        if id < n_ranks {
            assert(fault == Some(TiktokenError::Overlaps(i)));
            return Err(TiktokenError::Overlaps(i));
        }
        let content: Vec<u8> = copy_bytes(added_tokens_decoder[i].1.as_str().as_bytes());
        tokenizer.add_special_token(content, TokenId(id));
    }
    Ok(tokenizer)
}

} // verus!
