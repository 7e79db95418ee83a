//! GPT-2's byte-level alphabet: each byte as a printable character.

use vstd::prelude::*;
use vstd::string::StringSliceAdditionalSpecFns;
use vstd::utf8::encode_utf8;

use crate::seqs::copy_bytes;

verus! {

/// Whether a byte stands for itself.
pub open spec fn printable(b: int) -> bool {
    33 <= b <= 126 || 161 <= b <= 172 || 174 <= b <= 255
}

/// The code point of a byte: its own where it is printable, and those from 256
/// on in order for the others.
pub open spec fn byte_code(b: u8) -> int {
    if printable(b as int) {
        b as int
    } else if b <= 32 {
        256 + b
    } else if b <= 160 {
        289 + (b - 127)
    } else {
        323
    }
}

/// The byte of a code point, where it has one.
pub open spec fn code_byte(c: int) -> Option<u8> {
    if printable(c) {
        Some(c as u8)
    } else if 256 <= c <= 288 {
        Some((c - 256) as u8)
    } else if 289 <= c <= 322 {
        Some((c - 289 + 127) as u8)
    } else if c == 323 {
        Some(173)
    } else {
        None
    }
}

/// The two directions of the alphabet are inverse to each other.
pub proof fn lemma_codes_inverse(b: u8, c: int)
    ensures
        code_byte(byte_code(b)) == Some(b),
        code_byte(c) matches Some(x) ==> byte_code(x) == c,
{
}

/// How many bytes below `b` are not printable.
spec fn hidden_below(b: int) -> int
    decreases b,
{
    if b <= 0 {
        0
    } else {
        hidden_below(b - 1) + if printable(b - 1) {
            0int
        } else {
            1
        }
    }
}

proof fn lemma_hidden_below(b: int)
    requires
        0 <= b <= 256,
    ensures
        hidden_below(b) == if b <= 33 {
            b
        } else if b <= 127 {
            33
        } else if b <= 161 {
            33 + (b - 127)
        } else if b <= 173 {
            67
        } else {
            68
        },
    decreases b,
{
    if b > 0 {
        lemma_hidden_below(b - 1);
    }
}

/// Build the GPT-2 byte-to-unicode mapping table and its reverse, by code point.
pub fn build_byte_unicode_tables() -> (r: (Vec<u32>, Vec<Option<u8>>))
    ensures
        r.0@.len() == 256,
        forall|b: u8| (#[trigger] r.0@[b as int]) == byte_code(b),
        r.1@.len() == 324,
        forall|c: int| 0 <= c < 324 ==> #[trigger] r.1@[c] == code_byte(c),
{
    let mut b2u: Vec<u32> = Vec::with_capacity(256);
    let mut n: u32 = 0;
    for b in 0..256u32
        invariant
            b2u@.len() == b,
            n == hidden_below(b as int),
            n <= b,
            forall|k: int| 0 <= k < b ==> #[trigger] b2u@[k] == byte_code(k as u8),
    {
        proof {
            lemma_hidden_below(b as int);
        }
        if 33 <= b && b <= 126 || 161 <= b && b <= 172 || 174 <= b {
            b2u.push(b);
        } else {
            b2u.push(256 + n);
            n = n + 1;
        }
    }
    let mut u2b: Vec<Option<u8>> = Vec::with_capacity(324);
    for c in 0..324u32
        invariant
            u2b@.len() == c,
            forall|k: int| 0 <= k < c ==> #[trigger] u2b@[k] is None,
    {
        u2b.push(None);
    }
    for b in 0..256u32
        invariant
            b2u@.len() == 256,
            forall|k: int| 0 <= k < 256 ==> #[trigger] b2u@[k] == byte_code(k as u8),
            u2b@.len() == 324,
            forall|c: int|
                0 <= c < 324 ==> #[trigger] u2b@[c] == match code_byte(c) {
                    Some(x) => if x < b {
                        Some(x)
                    } else {
                        None
                    },
                    None => None,
                },
    {
        proof {
            assert forall|c: int| 0 <= c < 324 && code_byte(c) == Some(b as u8) implies c
                == byte_code(b as u8) by {
                lemma_codes_inverse(b as u8, c);
            }
            lemma_codes_inverse(b as u8, 0);
        }
        let c: u32 = b2u[b as usize];
        u2b.set(c as usize, Some(b as u8));
    }
    (b2u, u2b)
}

/// The bytes of a vocab string: those of its characters in the alphabet, or its
/// UTF-8 where one is not in it.
pub open spec fn unicode_bytes(chars: Seq<char>) -> Seq<u8> {
    if forall|i: int| 0 <= i < chars.len() ==> code_byte(#[trigger] chars[i] as int) is Some {
        chars.map_values(|c: char| code_byte(c as int)->0)
    } else {
        encode_utf8(chars)
    }
}

/// A byte string as a vocab string.
pub open spec fn byte_chars(bytes: Seq<u8>) -> Seq<char> {
    bytes.map_values(|b: u8| byte_code(b) as char)
}

/// Every byte string comes back from its vocab string.
pub proof fn lemma_byte_chars_inverse(bytes: Seq<u8>)
    ensures
        unicode_bytes(byte_chars(bytes)) == bytes,
{
    let chars = byte_chars(bytes);
    assert forall|i: int| 0 <= i < chars.len() implies code_byte(#[trigger] chars[i] as int)
        == Some(bytes[i]) by {
        lemma_codes_inverse(bytes[i], 0);
        assert(0 <= byte_code(bytes[i]) < 324);
        assert(chars[i] == byte_code(bytes[i]) as char);
    }
    assert(unicode_bytes(chars) =~= bytes);
}

proof fn lemma_code(c: char)
    ensures
        c as u32 as int == c as int,
{
}

/// Decode a GPT-2 ByteLevel unicode string back to raw bytes.
///
/// Byte-level vocab strings consist solely of table chars; a string with any
/// other char is stored raw (e.g. DeepSeek V4 keeps its special tokens unencoded
/// in `model.vocab`) and taken as literal UTF-8 content.
pub fn unicode_to_bytes(s: &str, u2b: &[Option<u8>]) -> (r: Vec<u8>)
    requires
        u2b@.len() == 324,
        forall|c: int| 0 <= c < 324 ==> #[trigger] u2b@[c] == code_byte(c),
    ensures
        r@ == unicode_bytes(s@),
{
    let mut r: Vec<u8> = Vec::with_capacity(s.len());
    for ch in it: s.chars()
        invariant
            u2b@.len() == 324,
            forall|c: int| 0 <= c < 324 ==> #[trigger] u2b@[c] == code_byte(c),
            it.seq() == s@,
            r@.len() == it.index(),
            forall|i: int|
                0 <= i < it.index() ==> code_byte(#[trigger] s@[i] as int) == Some(r@[i]),
    {
        assert(ch == s@[it.index()]);
        let ghost k = it.index();
        let c: u32 = ch as u32;
        proof {
            lemma_code(ch);
        }
        let b: Option<u8> = if c < 324 {
            u2b[c as usize]
        } else {
            None
        };
        match b {
            Some(b) => {
                let ghost before = r@;
                r.push(b);
                assert(forall|i: int| 0 <= i < k ==> r@[i] == before[i]);
                assert(code_byte(s@[k] as int) == Some(r@[k as int]));
            },
            None => {
                assert(code_byte(s@[it.index()] as int) is None);
                return copy_bytes(s.as_bytes());
            },
        }
    }
    assert(r@ =~= unicode_bytes(s@));
    r
}

} // verus!
