//! Laws: what a vocabulary holds, in terms of the strings and ids of its file.

use vstd::prelude::*;
use vstd::utf8::encode_utf8;

use crate::bpe::remap::{lacks_byte, lemma_byte_token};
use crate::bpe::tiktoken::Encoding;
use crate::load_tokenizer::byte_level::{
    byte_code, code_byte, lemma_codes_inverse, printable, unicode_bytes,
};
use crate::load_tokenizer::config::{Fault, NormalizerJson, TokenizerJson};
use crate::load_tokenizer::entries::{
    ids_of, lemma_placed_len, lemma_places, placed, places, with_added, Entries,
};
use crate::load_tokenizer::hf::{
    bpe_encoding, bpe_tables, byte_fallback, fallback_ids, fallback_name, first_lacking, hex_value,
    id_of, model_type, picked, sp_model, sp_tables, token_bytes, upper_hex, vocab_strings,
};
use crate::load_tokenizer::merges::legacy_pair;
use crate::load_tokenizer::normalizer::{nfc_normalizer, nfc_of, nfc_parts, pretokenizer_scheme};
use crate::search::{first_byte, lemma_first_byte};
use crate::sentencepiece::model::{Metaspace, NormStep, SpModel};
use crate::token::TokenId;

verus! {

// ---------------------------------------------------------------------------
// Byte-fallback names
// ---------------------------------------------------------------------------

/// Whether a byte is the hex digit of a value, in either case.
pub open spec fn digit_of(b: u8, v: int) -> bool {
    &&& 0 <= v < 16
    &&& b as char == "0123456789abcdef"@[v] || b as char == "0123456789ABCDEF"@[v]
}

/// Whether a string is `<0x`, the hex digits of two values, and `>`.
pub open spec fn byte_name(s: Seq<u8>, x: int, y: int) -> bool {
    &&& s.len() == 6
    &&& s[0] as char == '<'
    &&& s[1] as char == '0'
    &&& s[2] as char == 'x'
    &&& digit_of(s[3], x)
    &&& digit_of(s[4], y)
    &&& s[5] as char == '>'
}

proof fn lemma_digit(b: u8, v: int)
    ensures
        digit_of(b, v) <==> hex_value(b) == Some(v),
{
    reveal_strlit("0123456789abcdef");
    reveal_strlit("0123456789ABCDEF");
}

/// A byte-fallback name stands for the byte whose hex digits it holds.
pub proof fn lemma_byte_name(s: Seq<u8>, x: int, y: int)
    requires
        byte_name(s, x, y),
    ensures
        byte_fallback(s) == Some((16 * x + y) as u8),
        token_bytes(s) == seq![(16 * x + y) as u8],
{
    lemma_digit(s[3], x);
    lemma_digit(s[4], y);
}

/// What stands for a byte is a byte-fallback name of it; every other string stands
/// for its own bytes.
pub proof fn lemma_named_byte(s: Seq<u8>) -> (r: (int, int))
    ensures
        byte_fallback(s) matches Some(b) ==> byte_name(s, r.0, r.1) && b == 16 * r.0 + r.1,
        byte_fallback(s) is None ==> token_bytes(s) == s,
{
    if byte_fallback(s) is Some {
        let x = hex_value(s[3])->0;
        let y = hex_value(s[4])->0;
        lemma_digit(s[3], x);
        lemma_digit(s[4], y);
        (x, y)
    } else {
        (0, 0)
    }
}

/// The byte-fallback token that a vocabulary has for a byte is the string `<0xHH>` of
/// its two digits in upper case; of two such strings, the later.
pub proof fn lemma_fallback_token(entries: Entries, b: u8)
    ensures
        ({
            let name = seq![
                '<' as u8,
                '0' as u8,
                'x' as u8,
                "0123456789ABCDEF"@[b as int / 16] as u8,
                "0123456789ABCDEF"@[b as int % 16] as u8,
                '>' as u8,
            ];
            &&& fallback_ids(entries).len() == 256
            &&& fallback_ids(entries)[b as int] is None <==> forall|i: int|
                0 <= i < entries.len() ==> (#[trigger] entries[i]).0 != name
            &&& forall|i: int|
                0 <= i < entries.len() && (#[trigger] entries[i]).0 == name && (forall|j: int|
                    i < j < entries.len() ==> (#[trigger] entries[j]).0 != name)
                    ==> fallback_ids(entries)[b as int] == Some(TokenId(entries[i].1))
        }),
{
    reveal_strlit("0123456789ABCDEF");
    let name = seq![
        '<' as u8,
        '0' as u8,
        'x' as u8,
        "0123456789ABCDEF"@[b as int / 16] as u8,
        "0123456789ABCDEF"@[b as int % 16] as u8,
        '>' as u8,
    ];
    let x = b as int / 16;
    let y = b as int % 16;
    assert(0 <= x < 16 && 0 <= y < 16);
    assert("0123456789ABCDEF"@[x] as u8 == upper_hex(x));
    assert("0123456789ABCDEF"@[y] as u8 == upper_hex(y));
    assert(fallback_name(b) =~= name);
    lemma_last_named(entries, name);
}

proof fn lemma_last_named(entries: Entries, name: Seq<u8>)
    ensures
        id_of(entries, name) is None <==> forall|i: int|
            0 <= i < entries.len() ==> (#[trigger] entries[i]).0 != name,
        forall|i: int|
            0 <= i < entries.len() && (#[trigger] entries[i]).0 == name && (forall|j: int|
                i < j < entries.len() ==> (#[trigger] entries[j]).0 != name) ==> id_of(
                entries,
                name,
            ) == Some(TokenId(entries[i].1)),
    decreases entries.len(),
{
    if entries.len() > 0 {
        let init = entries.drop_last();
        let n = init.len() as int;
        lemma_last_named(init, name);
        assert(entries[n] == entries.last());
        assert forall|i: int| 0 <= i < n implies init[i] == #[trigger] entries[i] by {}
        if id_of(init, name) is Some {
            let i = choose|i: int| 0 <= i < n && (#[trigger] init[i]).0 == name;
            assert(entries[i].0 == name);
        }
        assert forall|i: int|
            0 <= i < entries.len() && (#[trigger] entries[i]).0 == name && (forall|j: int|
                i < j < entries.len() ==> (#[trigger] entries[j]).0 != name) implies id_of(
            entries,
            name,
        ) == Some(TokenId(entries[i].1)) by {
            if i < n {
                assert(init[i].0 == name);
                assert(entries[n].0 != name);
                assert forall|j: int| i < j < n implies (#[trigger] init[j]).0 != name by {
                    assert(entries[j].0 != name);
                }
            }
        }
    }
}

// ---------------------------------------------------------------------------
// Ids of strings
// ---------------------------------------------------------------------------

/// The last entry of a list with given bytes says their id; bytes that no entry has
/// have no id.
pub proof fn lemma_last_says_id(entries: Entries, p: Seq<u8>)
    ensures
        ids_of(entries).contains_key(p) <==> exists|i: int|
            0 <= i < entries.len() && (#[trigger] entries[i]).0 == p,
        forall|i: int|
            0 <= i < entries.len() && (#[trigger] entries[i]).0 == p && (forall|j: int|
                i < j < entries.len() ==> (#[trigger] entries[j]).0 != p) ==> ids_of(entries)[p]
                == TokenId(entries[i].1),
    decreases entries.len(),
{
    if entries.len() > 0 {
        let init = entries.drop_last();
        let n = init.len() as int;
        lemma_last_says_id(init, p);
        assert(entries[n] == entries.last());
        assert forall|i: int| 0 <= i < n implies init[i] == #[trigger] entries[i] by {}
        if ids_of(init).contains_key(p) {
            let i = choose|i: int| 0 <= i < n && (#[trigger] init[i]).0 == p;
            assert(entries[i].0 == p);
        }
        assert forall|i: int|
            0 <= i < entries.len() && (#[trigger] entries[i]).0 == p && (forall|j: int|
                i < j < entries.len() ==> (#[trigger] entries[j]).0 != p) implies ids_of(
            entries,
        )[p] == TokenId(entries[i].1) by {
            if i < n {
                assert(init[i].0 == p);
                assert(entries[n].0 != p);
                assert forall|j: int| i < j < n implies (#[trigger] init[j]).0 != p by {
                    assert(entries[j].0 != p);
                }
            }
        }
    }
}

/// Whether entry `i` is the last that is, or is not, a byte-fallback name and stands
/// for given bytes.
spec fn last_for(entries: Entries, fallback: bool, p: Seq<u8>, i: int) -> bool {
    &&& 0 <= i < entries.len()
    &&& byte_fallback(entries[i].0) is Some == fallback
    &&& token_bytes(entries[i].0) == p
    &&& forall|j: int|
        i < j < entries.len() && byte_fallback((#[trigger] entries[j]).0) is Some == fallback
            ==> token_bytes(entries[j].0) != p
}

proof fn lemma_picked_ids(entries: Entries, fallback: bool, p: Seq<u8>)
    ensures
        ids_of(picked(entries, fallback)).contains_key(p) ==> exists|i: int|
            0 <= i < entries.len() && byte_fallback((#[trigger] entries[i]).0) is Some == fallback
                && token_bytes(entries[i].0) == p,
        forall|i: int| #[trigger]
            last_for(entries, fallback, p, i) ==> ids_of(
                picked(entries, fallback),
            ).contains_key(p) && ids_of(picked(entries, fallback))[p] == TokenId(entries[i].1),
    decreases entries.len(),
{
    if entries.len() > 0 {
        let init = entries.drop_last();
        let n = init.len() as int;
        lemma_picked_ids(init, fallback, p);
        let e = entries.last();
        assert(entries[n] == e);
        assert forall|i: int| 0 <= i < n implies init[i] == #[trigger] entries[i] by {}
        let before = picked(init, fallback);
        if byte_fallback(e.0) is Some == fallback {
            assert(picked(entries, fallback).drop_last() =~= before);
            assert(picked(entries, fallback).last() == (token_bytes(e.0), e.1));
        }
        if ids_of(before).contains_key(p) {
            let i = choose|i: int|
                0 <= i < n && byte_fallback((#[trigger] init[i]).0) is Some == fallback
                    && token_bytes(init[i].0) == p;
            assert(entries[i] == init[i]);
        }
        assert forall|i: int| #[trigger] last_for(entries, fallback, p, i) implies ids_of(
            picked(entries, fallback),
        ).contains_key(p) && ids_of(picked(entries, fallback))[p] == TokenId(entries[i].1) by {
            if i < n {
                assert forall|j: int|
                    i < j < init.len() && byte_fallback((#[trigger] init[j]).0) is Some
                        == fallback implies token_bytes(init[j].0) != p by {
                    assert(entries[j] == init[j]);
                }
                assert(last_for(init, fallback, p, i));
                assert(byte_fallback(entries[n].0) is Some == fallback ==> token_bytes(
                    entries[n].0,
                ) != p);
            }
        }
    }
}

proof fn lemma_ids_joined(a: Entries, b: Entries, p: Seq<u8>)
    ensures
        ids_of(a + b).contains_key(p) <==> ids_of(a).contains_key(p) || ids_of(b).contains_key(p),
        ids_of(b).contains_key(p) ==> ids_of(a + b)[p] == ids_of(b)[p],
        ids_of(a).contains_key(p) && !ids_of(b).contains_key(p) ==> ids_of(a + b)[p] == ids_of(
            a,
        )[p],
    decreases b.len(),
{
    if b.len() == 0 {
        assert(a + b =~= a);
    } else {
        assert((a + b).drop_last() =~= a + b.drop_last());
        assert((a + b).last() == b.last());
        lemma_ids_joined(a, b.drop_last(), p);
    }
}

/// The token of a string of a SentencePiece file that is no byte-fallback name is its
/// id; of one that occurs twice, the later.
pub proof fn lemma_string_token(
    tj: TokenizerJson,
    steps: Seq<NormStep>,
    metaspace: Option<Metaspace>,
    i: int,
)
    requires
        0 <= i < tj.model.vocab@.len(),
        byte_fallback(vocab_strings(tj.model.vocab@)[i].0) is None,
        forall|j: int|
            i < j < tj.model.vocab@.len() ==> vocab_strings(tj.model.vocab@)[i].0 != (
            #[trigger] vocab_strings(tj.model.vocab@)[j]).0,
    ensures
        ({
            let inv = sp_tables(tj, steps, metaspace).inv;
            let s = vocab_strings(tj.model.vocab@)[i].0;
            inv.contains_key(s) && inv[s] == TokenId(tj.model.vocab@[i].1)
        }),
{
    let entries = vocab_strings(tj.model.vocab@);
    let s = entries[i].0;
    lemma_picked_ids(entries, false, s);
    lemma_ids_joined(picked(entries, true), picked(entries, false), s);
    assert forall|j: int|
        i < j < entries.len() && byte_fallback((#[trigger] entries[j]).0) is Some
            == false implies token_bytes(entries[j].0) != s by {}
    assert(last_for(entries, false, s, i));
}

/// The token of a byte that has a byte-fallback name in a SentencePiece file, and that
/// no string of it is alone, is the id of that name.
pub proof fn lemma_byte_name_token(
    tj: TokenizerJson,
    steps: Seq<NormStep>,
    metaspace: Option<Metaspace>,
    i: int,
    b: u8,
)
    requires
        0 <= i < tj.model.vocab@.len(),
        byte_fallback(vocab_strings(tj.model.vocab@)[i].0) == Some(b),
        forall|j: int|
            i < j < tj.model.vocab@.len() ==> byte_fallback(
                (#[trigger] vocab_strings(tj.model.vocab@)[j]).0,
            ) != Some(b),
        forall|j: int|
            0 <= j < tj.model.vocab@.len() ==> (#[trigger] vocab_strings(tj.model.vocab@)[j]).0
                != seq![b],
    ensures
        ({
            let inv = sp_tables(tj, steps, metaspace).inv;
            inv.contains_key(seq![b]) && inv[seq![b]] == TokenId(tj.model.vocab@[i].1)
        }),
{
    let entries = vocab_strings(tj.model.vocab@);
    let p = seq![b];
    lemma_picked_ids(entries, true, p);
    lemma_picked_ids(entries, false, p);
    lemma_ids_joined(picked(entries, true), picked(entries, false), p);
    assert forall|j: int|
        i < j < entries.len() && byte_fallback((#[trigger] entries[j]).0) is Some
            == true implies token_bytes(entries[j].0) != p by {
        assert(token_bytes(entries[j].0)[0] == byte_fallback(entries[j].0)->0);
        assert(p[0] == b);
    }
    assert(last_for(entries, true, p, i));
}

// ---------------------------------------------------------------------------
// Entries at ids
// ---------------------------------------------------------------------------

/// The vocabulary of a list of entries: an id holds what the last entry with that id
/// says, and nothing where there is none; the ids end at the highest, or at 0 where
/// there are none.
pub proof fn lemma_entries_at_ids(entries: Entries, id: int)
    requires
        0 <= id < places(entries),
    ensures
        placed(entries, places(entries)).len() == places(entries),
        places(entries) == 1 || exists|k: int|
            0 <= k < entries.len() && (#[trigger] entries[k]).1 == places(entries) - 1,
        forall|k: int| 0 <= k < entries.len() ==> (#[trigger] entries[k]).1 < places(entries),
        (forall|k: int| 0 <= k < entries.len() ==> (#[trigger] entries[k]).1 != id) ==> placed(
            entries,
            places(entries),
        )[id] == Seq::<u8>::empty(),
        forall|k: int|
            0 <= k < entries.len() && (#[trigger] entries[k]).1 == id && (forall|j: int|
                k < j < entries.len() ==> (#[trigger] entries[j]).1 != id) ==> placed(
                entries,
                places(entries),
            )[id] == entries[k].0,
{
    let n = places(entries);
    assert forall|k: int| 0 <= k < entries.len() implies (#[trigger] entries[k]).1 < n by {
        lemma_places(entries, k);
    }
    lemma_placed_len(entries, n);
    lemma_last_placed(entries, n, id);
    lemma_highest(entries);
}

proof fn lemma_highest(entries: Entries)
    ensures
        places(entries) >= 1,
        places(entries) == 1 || exists|k: int|
            0 <= k < entries.len() && (#[trigger] entries[k]).1 == places(entries) - 1,
    decreases entries.len(),
{
    if entries.len() > 0 {
        let init = entries.drop_last();
        lemma_highest(init);
        if places(init) > entries.last().1 {
            if places(init) != 1 {
                let k = choose|k: int|
                    0 <= k < init.len() && (#[trigger] init[k]).1 == places(init) - 1;
                assert(entries[k] == init[k]);
            }
        } else {
            assert(entries[entries.len() - 1].1 == places(entries) - 1);
        }
    }
}

proof fn lemma_last_placed(entries: Entries, n: int, id: int)
    requires
        0 <= id < n,
        forall|k: int| 0 <= k < entries.len() ==> (#[trigger] entries[k]).1 < n,
    ensures
        (forall|k: int| 0 <= k < entries.len() ==> (#[trigger] entries[k]).1 != id) ==> placed(
            entries,
            n,
        )[id] == Seq::<u8>::empty(),
        forall|k: int|
            0 <= k < entries.len() && (#[trigger] entries[k]).1 == id && (forall|j: int|
                k < j < entries.len() ==> (#[trigger] entries[j]).1 != id) ==> placed(
                entries,
                n,
            )[id] == entries[k].0,
    decreases entries.len(),
{
    if entries.len() > 0 {
        let init = entries.drop_last();
        let m = init.len() as int;
        assert(entries[m] == entries.last());
        assert forall|k: int| 0 <= k < m implies init[k] == #[trigger] entries[k] by {}
        assert forall|k: int| 0 <= k < m implies (#[trigger] init[k]).1 < n by {
            assert(entries[k] == init[k]);
        }
        lemma_placed_len(init, n);
        lemma_last_placed(init, n, id);
        assert forall|k: int|
            0 <= k < entries.len() && (#[trigger] entries[k]).1 == id && (forall|j: int|
                k < j < entries.len() ==> (#[trigger] entries[j]).1 != id) implies placed(
            entries,
            n,
        )[id] == entries[k].0 by {
            if k < m {
                assert(init[k].1 == id);
                assert(entries[m].1 != id);
                assert forall|j: int| k < j < m implies (#[trigger] init[j]).1 != id by {
                    assert(entries[j].1 != id);
                }
            }
        }
        if forall|k: int| 0 <= k < entries.len() ==> (#[trigger] entries[k]).1 != id {
            assert forall|k: int| 0 <= k < m implies (#[trigger] init[k]).1 != id by {
                assert(entries[k].1 != id);
            }
        }
    }
}

/// Added tokens in a vocabulary: every id of one is an id of the vocabulary; an id
/// without content takes that of the first added token with it that has any, and an
/// id with content keeps it.
pub proof fn lemma_added_at_ids(vocab: Seq<Seq<u8>>, added: Entries, id: int)
    requires
        0 <= id,
    ensures
        with_added(vocab, added).len() >= vocab.len(),
        forall|k: int|
            0 <= k < added.len() ==> (#[trigger] added[k]).1 < with_added(vocab, added).len(),
        id < vocab.len() && vocab[id].len() > 0 ==> with_added(vocab, added)[id] == vocab[id],
        (id >= vocab.len() || vocab[id] == Seq::<u8>::empty()) && id < with_added(
            vocab,
            added,
        ).len() ==> {
            &&& (forall|k: int|
                0 <= k < added.len() && (#[trigger] added[k]).1 == id ==> added[k].0.len() == 0)
                ==> with_added(vocab, added)[id] == Seq::<u8>::empty()
            &&& forall|k: int|
                0 <= k < added.len() && (#[trigger] added[k]).1 == id && added[k].0.len() > 0 && (
                forall|j: int|
                    0 <= j < k && (#[trigger] added[j]).1 == id ==> added[j].0.len() == 0)
                    ==> with_added(vocab, added)[id] == added[k].0
        },
    decreases added.len(),
{
    if added.len() > 0 {
        let init = added.drop_last();
        let m = init.len() as int;
        let before = with_added(vocab, init);
        lemma_added_at_ids(vocab, init, id);
        assert(added[m] == added.last());
        assert forall|k: int| 0 <= k < m implies init[k] == #[trigger] added[k] by {}
        let after = with_added(vocab, added);
        assert forall|k: int| 0 <= k < added.len() implies (#[trigger] added[k]).1
            < after.len() by {
            if k < m {
                assert(init[k].1 < before.len());
            }
        }
        if (id >= vocab.len() || vocab[id] == Seq::<u8>::empty()) && id < after.len() {
            assert forall|k: int| 0 <= k < m && (#[trigger] init[k]).1 == id implies id
                < before.len() by {}
            if forall|k: int|
                0 <= k < added.len() && (#[trigger] added[k]).1 == id ==> added[k].0.len() == 0 {
                assert forall|k: int| 0 <= k < m && (#[trigger] init[k]).1 == id implies init[k].0.len()
                    == 0 by {
                    assert(added[k] == init[k]);
                }
                if added[m].1 == id {
                    assert(added[m].0 =~= Seq::<u8>::empty());
                }
            }
            assert forall|k: int|
                0 <= k < added.len() && (#[trigger] added[k]).1 == id && added[k].0.len() > 0 && (
                forall|j: int|
                    0 <= j < k && (#[trigger] added[j]).1 == id ==> added[j].0.len()
                        == 0) implies after[id] == added[k].0 by {
                if k < m {
                    assert(init[k].1 == id);
                    assert forall|j: int| 0 <= j < k && (#[trigger] init[j]).1 == id implies init[j].0.len()
                        == 0 by {
                        assert(added[j] == init[j]);
                    }
                } else {
                    assert forall|j: int| 0 <= j < m && (#[trigger] init[j]).1 == id implies init[j].0.len()
                        == 0 by {
                        assert(added[j] == init[j]);
                    }
                }
            }
        }
    }
}

// ---------------------------------------------------------------------------
// The byte-level alphabet
// ---------------------------------------------------------------------------

/// Whether a byte is the code of a visible character of Latin-1.
pub open spec fn visible(b: int) -> bool {
    '!' as int <= b <= '~' as int || '\u{a1}' as int <= b <= '\u{ac}' as int || '\u{ae}' as int <= b
        <= '\u{ff}' as int
}

/// How many bytes below `b` have no visible character.
pub open spec fn invisible_below(b: int) -> int
    decreases b,
{
    if b <= 0 {
        0
    } else if visible(b - 1) {
        invisible_below(b - 1)
    } else {
        invisible_below(b - 1) + 1
    }
}

/// The byte-level alphabet: a visible character of Latin-1 is its own byte, and the
/// characters from U+0100 on are the bytes without one, in order. A character is the
/// byte that it stands for, and no others stand for any.
pub proof fn lemma_alphabet(b: u8, c: int)
    ensures
        visible(b as int) ==> byte_code(b) == b,
        !visible(b as int) ==> byte_code(b) == 256 + invisible_below(b as int),
        byte_code(b) == c <==> code_byte(c) == Some(b),
{
    lemma_invisible_below(b as int);
    if code_byte(c) is Some {
        lemma_codes_inverse(b, c);
    }
    lemma_codes_inverse(b, c);
    assert(printable(b as int) == visible(b as int));
}

proof fn lemma_invisible_below(b: int)
    requires
        0 <= b <= 256,
    ensures
        invisible_below(b) == if b <= 33 {
            b
        } else if b <= 127 {
            33
        } else if b <= 161 {
            33 + (b - 127)
        } else if b <= 173 {
            67
        } else {
            68
        },
    decreases b,
{
    if b > 0 {
        lemma_invisible_below(b - 1);
    }
}

/// The bytes of a string of characters of the alphabet are one for each, that which
/// the character stands for; a string with any other character is its UTF-8.
pub proof fn lemma_string_bytes(chars: Seq<char>)
    ensures
        (exists|i: int|
            0 <= i < chars.len() && (forall|b: u8| byte_code(b) != #[trigger] chars[i] as int))
            ==> unicode_bytes(chars) == encode_utf8(chars),
        (forall|i: int| 0 <= i < chars.len() ==> code_byte(#[trigger] chars[i] as int) is Some)
            ==> {
            &&& unicode_bytes(chars).len() == chars.len()
            &&& forall|i: int|
                0 <= i < chars.len() ==> byte_code(#[trigger] unicode_bytes(chars)[i])
                    == chars[i] as int
        },
{
    if exists|i: int|
        0 <= i < chars.len() && (forall|b: u8| byte_code(b) != #[trigger] chars[i] as int) {
        let i = choose|i: int|
            0 <= i < chars.len() && (forall|b: u8| byte_code(b) != #[trigger] chars[i] as int);
        if code_byte(chars[i] as int) is Some {
            let b = code_byte(chars[i] as int)->0;
            lemma_alphabet(b, chars[i] as int);
            assert(byte_code(b) == chars[i] as int);
        }
        assert(code_byte(chars[i] as int) is None);
    }
    if forall|i: int| 0 <= i < chars.len() ==> code_byte(#[trigger] chars[i] as int) is Some {
        assert forall|i: int| 0 <= i < chars.len() implies byte_code(
            #[trigger] unicode_bytes(chars)[i],
        ) == chars[i] as int by {
            lemma_alphabet(code_byte(chars[i] as int)->0, chars[i] as int);
        }
    }
}

// ---------------------------------------------------------------------------
// Legacy merges, and which files load
// ---------------------------------------------------------------------------

/// A legacy merge is its two parts with a space between them, none in the first; an
/// entry without a space is none.
pub proof fn lemma_legacy_merge(s: Seq<u8>)
    ensures
        match legacy_pair(s) {
            Some((a, b)) => s == a + seq![' ' as u8] + b && !a.contains(' ' as u8),
            None => !s.contains(' ' as u8),
        },
{
    lemma_first_byte(s, 0x20, 0);
    match first_byte(s, 0x20, 0) {
        Some(at) => {
            assert(s =~= s.take(at) + seq![0x20u8] + s.skip(at + 1));
        },
        None => {},
    }
}

/// Which model a file must have: its type, where it says one, is BPE, and it has byte
/// fallback as a SentencePiece file and none as a ByteLevel file; so no file loads
/// both ways.
pub proof fn lemma_files_that_load(tj: TokenizerJson)
    ensures
        sp_model(tj) is Ok ==> tj.model.byte_fallback,
        bpe_encoding(tj) is Ok ==> !tj.model.byte_fallback,
        tj.model.model_type matches Some(t) ==> t@ != "BPE"@ ==> {
            &&& sp_model(tj) == Err::<SpModel, Fault>(Fault::UnsupportedModelType(t@))
            &&& bpe_encoding(tj) == Err::<Encoding, Fault>(Fault::UnsupportedModelType(t@))
        },
        (tj.model.model_type matches Some(t) ==> t@ == "BPE"@) ==> {
            &&& !tj.model.byte_fallback ==> sp_model(tj) == Err::<SpModel, Fault>(Fault::NotByteFallback)
            &&& tj.model.byte_fallback ==> bpe_encoding(tj) == Err::<Encoding, Fault>(
                Fault::IsByteFallback,
            )
        },
{
}

/// A ByteLevel file must have an entry for every byte that UTF-8 can hold: all but
/// 0xC0, 0xC1 and those above 0xF4. The fault is the least that it lacks.
pub proof fn lemma_bytes_owed(tj: TokenizerJson, b: u8)
    requires
        tj.model.model_type matches Some(t) ==> t@ == "BPE"@,
        !tj.model.byte_fallback,
    ensures
        bpe_encoding(tj) is Ok && b <= 0xF4 && b != 0xC0 && b != 0xC1 ==> exists|i: int|
            0 <= i < bpe_tables(tj).vocab.len() && #[trigger] bpe_tables(tj).vocab[i] == seq![b],
        bpe_encoding(tj) == Err::<Encoding, Fault>(Fault::MissingByte(b)) ==> {
            &&& b <= 0xF4 && b != 0xC0 && b != 0xC1
            &&& forall|i: int|
                0 <= i < bpe_tables(tj).vocab.len() ==> #[trigger] bpe_tables(tj).vocab[i]
                    != seq![b]
        },
{
    let vocab = bpe_tables(tj).vocab;
    lemma_byte_token(vocab, b);
    lemma_lacking(vocab, 0, b);
    match first_lacking(vocab, 0) {
        Some(x) => {
            lemma_lacking(vocab, 0, x);
            lemma_byte_token(vocab, x);
        },
        None => {},
    }
    lemma_scheme_fault(tj);
}

/// A byte is no fault of a pre-tokenizer or normalizer.
proof fn lemma_scheme_fault(tj: TokenizerJson)
    ensures
        pretokenizer_scheme(tj.pre_tokenizer) matches Err(e)
            ==> !(e is MissingByte),
        nfc_normalizer(tj.normalizer) matches Err(e) ==> !(
        e is MissingByte),
{
    if let Some(n) = tj.normalizer {
        lemma_nfc_fault(n);
    }
}

proof fn lemma_nfc_fault(n: NormalizerJson)
    ensures
        nfc_of(n) matches Err(e) ==> e is UnsupportedNormalizer,
    decreases n, 0nat,
{
    lemma_nfc_parts_fault(n.normalizers@, n.normalizers@.len());
}

proof fn lemma_nfc_parts_fault(
    parts: Seq<NormalizerJson>,
    k: nat,
)
    ensures
        nfc_parts(parts, k) matches Err(e)
            ==> e is UnsupportedNormalizer,
    decreases parts, k,
{
    if 0 < k <= parts.len() {
        lemma_nfc_parts_fault(parts, (k - 1) as nat);
        lemma_nfc_fault(parts[k - 1]);
    }
}

proof fn lemma_lacking(vocab: Seq<Seq<u8>>, from: int, b: u8)
    requires
        0 <= from,
    ensures
        first_lacking(vocab, from) is None && from <= b ==> !lacks_byte(vocab, b),
        first_lacking(vocab, from) matches Some(x) ==> lacks_byte(vocab, x) && from <= x,
    decreases 256 - from,
{
    if from < 256 && !lacks_byte(vocab, from as u8) {
        lemma_lacking(vocab, from + 1, b);
    }
}

} // verus!
