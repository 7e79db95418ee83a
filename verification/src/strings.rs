//! Editing text: trimming, replacing.

use vstd::prelude::*;
use vstd::string::StringSliceAdditionalSpecFns;
use vstd::utf8::encode_utf8_decode_utf8;

use crate::pretokenize::scan::{cp_at, decode_cp, lead_width, width_at};
use crate::search::{find_from, first_at, lemma_first_at};
use crate::seqs::{append_bytes, bytes_equal};

verus! {

/// Code points with the White_Space property.
pub open spec fn white_space_cp(c: u32) -> bool {
    ||| 9 <= c <= 13
    ||| c == 0x20
    ||| c == 0x85
    ||| c == 0xA0
    ||| c == 0x1680
    ||| 0x2000 <= c <= 0x200A
    ||| c == 0x2028
    ||| c == 0x2029
    ||| c == 0x202F
    ||| c == 0x205F
    ||| c == 0x3000
}

/// Whether the character at `pos` is white space. A sequence that the input
/// cuts short is not.
pub open spec fn space_at(s: Seq<u8>, pos: int) -> bool {
    pos + lead_width(s[pos]) <= s.len() && white_space_cp(cp_at(s, pos))
}

/// Whether the character at `pos` is white space, and how wide it is.
fn space_and_width(s: &[u8], pos: usize) -> (r: (bool, usize))
    requires
        pos < s@.len(),
    ensures
        r.0 == space_at(s@, pos as int),
        r.1 == width_at(s@, pos as int),
        1 <= r.1 <= s@.len() - pos,
{
    let (c, w): (u32, usize) = if s[pos] < 0x80 {
        (s[pos] as u32, 1)
    } else {
        decode_cp(s, pos)
    };
    (
        (9 <= c && c <= 13) || c == 0x20 || c == 0x85 || c == 0xA0 || c == 0x1680 || (0x2000 <= c
            && c <= 0x200A) || c == 0x2028 || c == 0x2029 || c == 0x202F || c == 0x205F || c
            == 0x3000,
        w,
    )
}

/// Where the first character from `pos` on stands that is not white space.
pub open spec fn after_spaces(s: Seq<u8>, pos: int) -> int
    decreases s.len() - pos,
{
    if 0 <= pos < s.len() && space_at(s, pos) && 1 <= width_at(s, pos) {
        after_spaces(s, pos + width_at(s, pos))
    } else {
        pos
    }
}

/// Where the last character from `pos` on ends that is not white space; `end`
/// where there is none.
pub open spec fn last_ink(s: Seq<u8>, pos: int, end: int) -> int
    decreases s.len() - pos,
{
    if 0 <= pos < s.len() && 1 <= width_at(s, pos) {
        let next = pos + width_at(s, pos);
        last_ink(
            s,
            next,
            if space_at(s, pos) {
                end
            } else {
                next
            },
        )
    } else {
        end
    }
}

/// A text without the white space at its start.
pub open spec fn trimmed_start(s: Seq<u8>) -> Seq<u8> {
    s.skip(after_spaces(s, 0))
}

/// A text without the white space at its end.
pub open spec fn trimmed_end(s: Seq<u8>) -> Seq<u8> {
    s.take(last_ink(s, 0, 0))
}

/// How much white space a text starts with from `pos` on: where it ends.
pub fn skip_spaces(s: &[u8], pos: usize) -> (r: usize)
    requires
        pos <= s@.len(),
    ensures
        r == after_spaces(s@, pos as int),
        pos <= r <= s@.len(),
{
    let mut at: usize = pos;
    while at < s.len()
        invariant
            pos <= at <= s@.len(),
            after_spaces(s@, at as int) == after_spaces(s@, pos as int),
        ensures
            at == after_spaces(s@, pos as int),
            pos <= at <= s@.len(),
        decreases s@.len() - at,
    {
        let (space, w): (bool, usize) = space_and_width(s, at);
        if !space {
            break;
        }
        at = at + w;
    }
    at
}

/// The part of a text before the white space at its end: its length.
pub fn ink_len(s: &[u8]) -> (r: usize)
    ensures
        r == last_ink(s@, 0, 0),
        r <= s@.len(),
{
    let mut at: usize = 0;
    let mut end: usize = 0;
    while at < s.len()
        invariant
            end <= at <= s@.len(),
            last_ink(s@, at as int, end as int) == last_ink(s@, 0, 0),
        decreases s@.len() - at,
    {
        let (space, w): (bool, usize) = space_and_width(s, at);
        at = at + w;
        if !space {
            end = at;
        }
    }
    end
}

/// A text from `pos` on with `content` before each character and at the end.
pub open spec fn interleaved(s: Seq<u8>, pos: int, content: Seq<u8>) -> Seq<u8>
    decreases s.len() - pos,
{
    if 0 <= pos < s.len() && 1 <= width_at(s, pos) {
        content + s.subrange(pos, pos + width_at(s, pos)) + interleaved(
            s,
            pos + width_at(s, pos),
            content,
        )
    } else {
        content
    }
}

/// A text from `pos` on with each occurrence of a pattern that is not empty made
/// `content`, from the left.
pub open spec fn replaced_from(s: Seq<u8>, pos: int, pattern: Seq<u8>, content: Seq<u8>) -> Seq<u8>
    decreases s.len() - pos,
{
    match first_at(s, pattern, pos) {
        Some(at) => if pattern.len() > 0 && pos <= at && at + pattern.len() <= s.len() {
            s.subrange(pos, at) + content + replaced_from(
                s,
                at + pattern.len(),
                pattern,
                content,
            )
        } else {
            s.skip(pos)
        },
        None => s.skip(pos),
    }
}

/// A text with each occurrence of `pattern` made `content`, from the left; an
/// empty pattern occurs before each character and at the end.
pub open spec fn replaced(s: Seq<u8>, pattern: Seq<u8>, content: Seq<u8>) -> Seq<u8> {
    if pattern.len() == 0 {
        interleaved(s, 0, content)
    } else {
        replaced_from(s, 0, pattern, content)
    }
}

/// Replace each occurrence of `pattern` with `content`.
pub fn replace_bytes(s: &[u8], pattern: &[u8], content: &[u8]) -> (r: Vec<u8>)
    ensures
        r@ == replaced(s@, pattern@, content@),
{
    let n: usize = s.len();
    let mut r: Vec<u8> = Vec::with_capacity(n);
    let mut pos: usize = 0;
    if pattern.len() == 0 {
        while pos < n
            invariant
                n == s@.len(),
                pos <= n,
                r@ + interleaved(s@, pos as int, content@) =~= interleaved(s@, 0, content@),
            decreases n - pos,
        {
            let (_, w): (bool, usize) = space_and_width(s, pos);
            append_bytes(&mut r, content);
            append_bytes(&mut r, &s[pos..pos + w]);
            pos = pos + w;
        }
        append_bytes(&mut r, content);
        return r;
    }
    let mut more: bool = true;
    while more
        invariant
            n == s@.len(),
            pos <= n,
            pattern@.len() > 0,
            more ==> r@ + replaced_from(s@, pos as int, pattern@, content@) =~= replaced_from(
                s@,
                0,
                pattern@,
                content@,
            ),
            !more ==> r@ == replaced_from(s@, 0, pattern@, content@),
        decreases n - pos + if more { 1int } else { 0 },
    {
        proof {
            lemma_first_at(s@, pattern@, pos as int);
        }
        match find_from(s, pattern, pos) {
            Some(at) => {
                append_bytes(&mut r, &s[pos..at]);
                append_bytes(&mut r, content);
                pos = at + pattern.len();
            },
            None => {
                append_bytes(&mut r, &s[pos..n]);
                assert(s@.subrange(pos as int, n as int) =~= s@.skip(pos as int));
                more = false;
            },
        }
    }
    r
}

/// Where a run of spaces that starts at `pos` ends.
pub open spec fn space_run_end(s: Seq<u8>, pos: int) -> int
    decreases s.len() - pos,
{
    if 0 <= pos < s.len() && s[pos] == 0x20 {
        space_run_end(s, pos + 1)
    } else {
        pos
    }
}

/// A text from `pos` on with each run of two or more spaces made `content`.
pub open spec fn collapsed_from(s: Seq<u8>, pos: int, content: Seq<u8>) -> Seq<u8>
    decreases s.len() - pos,
{
    if pos < 0 || pos >= s.len() {
        Seq::empty()
    } else if pos + 2 <= space_run_end(s, pos) <= s.len() {
        content + collapsed_from(s, space_run_end(s, pos), content)
    } else {
        seq![s[pos]] + collapsed_from(s, pos + 1, content)
    }
}

proof fn lemma_space_run_end(s: Seq<u8>, pos: int)
    requires
        0 <= pos <= s.len(),
    ensures
        pos <= space_run_end(s, pos) <= s.len(),
    decreases s.len() - pos,
{
    if pos < s.len() && s[pos] == 0x20 {
        lemma_space_run_end(s, pos + 1);
    }
}

/// Replace each run of 2 or more ASCII spaces with `content`.
pub fn collapse_space_runs(input: &[u8], content: &[u8]) -> (r: Vec<u8>)
    ensures
        r@ == collapsed_from(input@, 0, content@),
{
    let n: usize = input.len();
    let mut r: Vec<u8> = Vec::with_capacity(n);
    let mut i: usize = 0;
    while i < n
        invariant
            n == input@.len(),
            i <= n,
            r@ + collapsed_from(input@, i as int, content@) =~= collapsed_from(
                input@,
                0,
                content@,
            ),
        decreases n - i,
    {
        if input[i] == 0x20 {
            let mut j: usize = i + 1;
            while j < n && input[j] == 0x20
                invariant
                    n == input@.len(),
                    i < j <= n,
                    input@[i as int] == 0x20,
                    space_run_end(input@, j as int) == space_run_end(input@, i as int),
                decreases n - j,
            {
                j = j + 1;
            }
            proof {
                lemma_space_run_end(input@, i as int);
            }
            if j - i >= 2 {
                append_bytes(&mut r, content);
            } else {
                r.push(0x20);
            }
            i = j;
        } else {
            r.push(input[i]);
            i = i + 1;
        }
    }
    r
}

/// Whether two texts are equal.
pub fn text_is(a: &str, b: &str) -> (r: bool)
    ensures
        r == (a@ == b@),
{
    proof {
        encode_utf8_decode_utf8(a@);
        encode_utf8_decode_utf8(b@);
    }
    bytes_equal(a.as_bytes(), b.as_bytes())
}

} // verus!
