//! Precompiled charsmaps: the normalization that a SentencePiece model carries.

use spm_precompiled::{Precompiled, PrecompiledError};
use vstd::prelude::*;
use vstd::string::StringSliceAdditionalSpecFns;
use vstd::utf8::{
    decode_utf8, encode_utf8, encode_utf8_decode_utf8, encode_utf8_valid_utf8, is_ascii_chars,
    is_ascii_chars_encode_utf8, is_char_boundary, valid_utf8,
};

use crate::sentencepiece::utf8_states::{
    completion, lemma_completed_valid, lemma_next_state, lemma_run_concat, lemma_run_one,
    lemma_valid_runs, next_state, run,
};
use crate::sentencepiece::walk::{key_stays, lemma_sound_key, lemma_sound_stays, text_stays, Trie};
use crate::seqs::{append_bytes, bytes_equal, copy_bytes};
use crate::text::{lemma_ascii_ends, lemma_ascii_text, lemma_cut, lemma_encode_concat, text_of};

verus! {

// ---------------------------------------------------------------------------
// The format
// ---------------------------------------------------------------------------

/// Four bytes at `pos` as a number, the first byte lowest.
pub open spec fn word_at(s: Seq<u8>, pos: int) -> u32 {
    (s[pos] + 0x100 * s[pos + 1] + 0x1_0000 * s[pos + 2] + 0x100_0000 * s[pos + 3]) as u32
}

/// How many units the trie of a charsmap has.
pub open spec fn unit_count(blob: Seq<u8>) -> int {
    word_at(blob, 0) as int / 4
}

/// The units of the trie.
pub open spec fn trie_units(blob: Seq<u8>) -> Seq<u32> {
    Seq::new(unit_count(blob) as nat, |i: int| word_at(blob, 4 + 4 * i))
}

/// The replacement texts, each ended by a NUL.
pub open spec fn replacements(blob: Seq<u8>) -> Seq<u8> {
    blob.skip(4 + 4 * unit_count(blob))
}

/// Whether a charsmap holds as many units as it says, and its texts are valid
/// UTF-8.
pub open spec fn charsmap_parses(blob: Seq<u8>) -> bool {
    4 <= blob.len() && 4 + 4 * unit_count(blob) <= blob.len() && valid_utf8(replacements(blob))
}

/// Where the children of a unit start, relative to the unit.
pub open spec fn unit_offset(u: u32) -> u32 {
    if u & 0x200 != 0 {
        (u >> 10) << 8
    } else {
        u >> 10
    }
}

/// The byte that leads to a unit; no byte where bit 31 is set.
pub open spec fn unit_label(u: u32) -> u32 {
    u & 0x8000_00FF
}

/// Whether the path to a unit is a key.
pub open spec fn unit_has_leaf(u: u32) -> bool {
    (u >> 8) & 1 == 1
}

/// The place of a key's replacement.
pub open spec fn unit_value(u: u32) -> u32 {
    u & 0x7FFF_FFFF
}

/// The layout of a charsmap: four bytes that say how many bytes its units take, the
/// lowest byte first; the units, four bytes each; and the replacement texts.
pub proof fn lemma_charsmap_layout(blob: Seq<u8>, i: int)
    requires
        charsmap_parses(blob),
        0 <= i < trie_units(blob).len(),
    ensures
        ({
            let n = trie_units(blob).len() as int;
            let at = 4 + 4 * i;
            &&& n == (blob[0] + 256 * blob[1] + 65536 * blob[2] + 16777216 * blob[3]) / 4
            &&& at + 4 <= blob.len()
            &&& trie_units(blob)[i] == blob[at] + 256 * blob[at + 1] + 65536 * blob[at + 2]
                + 16777216 * blob[at + 3]
            &&& blob == blob.take(4 + 4 * n) + replacements(blob)
        }),
{
    let n = trie_units(blob).len() as int;
    assert(blob =~= blob.take(4 + 4 * n) + replacements(blob));
}

/// What a unit says, in numbers: its value is its low 31 bits, the byte that leads to a
/// unit that is no value its low 8, whether it ends a key bit 8, and where its children
/// start its high 22, times 256 where bit 9 is set.
pub proof fn lemma_unit_fields(u: u32)
    ensures
        unit_value(u) == u % 0x8000_0000,
        u < 0x8000_0000 ==> unit_label(u) == u % 0x100,
        u >= 0x8000_0000 ==> unit_label(u) >= 0x8000_0000,
        unit_has_leaf(u) <==> (u / 0x100) % 2 == 1,
        (u / 0x200) % 2 == 0 ==> unit_offset(u) == u / 0x400,
        (u / 0x200) % 2 == 1 ==> unit_offset(u) == (u / 0x400) * 0x100,
{
    assert(u & 0x7FFF_FFFF == u % 0x8000_0000) by (bit_vector);
    assert(u < 0x8000_0000 ==> u & 0x8000_00FF == u % 0x100) by (bit_vector);
    assert(u >= 0x8000_0000 ==> u & 0x8000_00FF >= 0x8000_0000u32) by (bit_vector);
    assert(((u >> 8) & 1 == 1) <==> (u / 0x100) % 2 == 1) by (bit_vector);
    assert((u & 0x200 != 0) <==> (u / 0x200) % 2 == 1) by (bit_vector);
    assert(u >> 10 == u / 0x400) by (bit_vector);
    assert((u >> 10) << 8 == (u / 0x400) * 0x100) by (bit_vector);
}

/// Whether a walk down the trie with `key` from `k` on stays in the trie, and
/// every key that it meets has a replacement. `node` is where the children of
/// the unit before start.
pub open spec fn walk_stays(blob: Seq<u8>, key: Seq<u8>, k: int, node: u32) -> bool
    decreases key.len() - k,
{
    if k < 0 || k >= key.len() || key[k] == 0 {
        true
    } else {
        let units = trie_units(blob);
        let at = node ^ (key[k] as u32);
        &&& at < units.len()
        &&& unit_label(units[at as int]) == key[k] ==> {
            let next = at ^ unit_offset(units[at as int]);
            &&& unit_has_leaf(units[at as int]) ==> next < units.len() && is_char_boundary(
                replacements(blob),
                unit_value(units[next as int]) as int,
            )
            &&& walk_stays(blob, key, k + 1, next)
        }
    }
}

/// Whether every walk down the trie with a text stays in it.
pub open spec fn charsmap_sound(blob: Seq<u8>) -> bool {
    &&& charsmap_parses(blob)
    &&& trie_units(blob).len() > 0
    &&& forall|key: Seq<u8>|
        valid_utf8(key) ==> #[trigger] walk_stays(
            blob,
            key,
            0,
            unit_offset(trie_units(blob)[0]),
        )
}

// ---------------------------------------------------------------------------
// The normalizer of the `spm_precompiled` crate
// ---------------------------------------------------------------------------

/// A charsmap as the `spm_precompiled` crate holds it.
#[verifier::external_type_specification]
#[verifier::external_body]
pub struct ExPrecompiled(Precompiled);

/// Why a charsmap does not parse.
#[verifier::external_type_specification]
#[verifier::external_body]
pub struct ExPrecompiledError(PrecompiledError);

/// The bytes of a charsmap.
pub uninterp spec fn charsmap_bytes(pre: Precompiled) -> Seq<u8>;

/// What a charsmap makes of a text that starts with a key: the replacement of
/// the shortest such key.
pub uninterp spec fn spm_transformed(blob: Seq<u8>, text: Seq<char>) -> Option<Seq<char>>;

/// A text normalized with a charsmap, grapheme by grapheme.
pub uninterp spec fn spm_normalized(blob: Seq<u8>, text: Seq<char>) -> Seq<char>;

/// Control characters of ASCII.
pub open spec fn control(c: char) -> bool {
    c as u32 <= 0x1F || c as u32 == 0x7F
}

/// Whether a grapheme always ends between two characters: between two of ASCII
/// and on both sides of a control, but not between CR and LF.
pub open spec fn ends_between(x: char, y: char) -> bool {
    &&& !(x as u32 == 0x0D && y as u32 == 0x0A)
    &&& (x as u32 <= 0x7F && y as u32 <= 0x7F) || control(x) || control(y)
}

/// Whether a grapheme always ends between two texts.
pub open spec fn breaks(a: Seq<char>, b: Seq<char>) -> bool {
    a.len() == 0 || b.len() == 0 || ends_between(a.last(), b[0])
}

/// Whether a charsmap makes `out` of `text` behind any text that it does not
/// share a grapheme with.
pub open spec fn appends(blob: Seq<u8>, text: Seq<char>, out: Seq<char>) -> bool {
    forall|a: Seq<char>|
        breaks(a, text) ==> #[trigger] spm_normalized(blob, a + text) == spm_normalized(blob, a)
            + out
}

/// What becomes of a character that is part of a grapheme without a replacement.
pub open spec fn char_part(blob: Seq<u8>, c: char) -> Seq<char> {
    match spm_transformed(blob, seq![c]) {
        Some(norm) => norm,
        None => seq![c],
    }
}

/// `Precompiled::from`: a charsmap from its bytes, where they parse.
#[verifier::external_body]
fn parse_charsmap(blob: &[u8]) -> (r: Result<Precompiled, PrecompiledError>)
    ensures
        match r {
            Ok(pre) => charsmap_parses(blob@) && charsmap_bytes(pre) == blob@,
            Err(_) => !charsmap_parses(blob@),
        },
{
    Precompiled::from(blob)
}

/// `Precompiled::transform`. A character of ASCII, and CR LF, is a grapheme: it
/// is normalized to its replacement or, where it has none, character by
/// character.
#[verifier::external_body]
fn spm_transform(pre: &Precompiled, text: &str) -> (r: Option<String>)
    requires
        charsmap_sound(charsmap_bytes(*pre)),
    ensures
        match r {
            Some(norm) => {
                &&& spm_transformed(charsmap_bytes(*pre), text@) == Some(norm@)
                &&& text@.len() == 1 && text@[0] as u32 <= 0x7F ==> appends(
                    charsmap_bytes(*pre),
                    text@,
                    norm@,
                )
                &&& text@ == seq!['\r', '\n'] ==> appends(charsmap_bytes(*pre), text@, norm@)
            },
            None => {
                &&& spm_transformed(charsmap_bytes(*pre), text@) is None
                &&& text@.len() == 1 && text@[0] as u32 <= 0x7F ==> appends(
                    charsmap_bytes(*pre),
                    text@,
                    text@,
                )
                &&& text@ == seq!['\r', '\n'] ==> appends(
                    charsmap_bytes(*pre),
                    text@,
                    char_part(charsmap_bytes(*pre), '\r') + char_part(charsmap_bytes(*pre), '\n'),
                )
            },
        },
{
    pre.transform(text).map(String::from)
}

/// `Precompiled::normalize_string`. It goes by graphemes, so that a text is
/// normalized alike behind any text that it shares no grapheme with. It indexes the
/// trie without a check: each grapheme must be one that can be looked up.
#[verifier::external_body]
fn spm_normalize(pre: &Precompiled, text: &str) -> (r: String)
    requires
        text_stays(charsmap_bytes(*pre), text@),
    ensures
        r@ == spm_normalized(charsmap_bytes(*pre), text@),
        appends(charsmap_bytes(*pre), text@, r@),
{
    pre.normalize_string(text)
}

// ---------------------------------------------------------------------------
// Checking a charsmap
// ---------------------------------------------------------------------------

/// Where the children of unit `i` start.
spec fn base(blob: Seq<u8>, i: int) -> u32 {
    (i as u32) ^ unit_offset(trie_units(blob)[i])
}

/// Whether unit `i` is reached in state `q`.
spec fn reached(reach: Seq<u8>, i: int, q: int) -> bool {
    (reach[i] >> (q as u8)) & 1 == 1
}

/// Marking one state leaves the others as they are.
proof fn lemma_mark(m: u8, q: u8, r: u8)
    requires
        q < 8,
        r < 8,
    ensures
        ((m | (1u8 << q)) >> r) & 1 == 1 <==> r == q || (m >> r) & 1 == 1,
{
    assert(((m | (1u8 << q)) >> r) & 1 == 1 <==> r == q || (m >> r) & 1 == 1) by (bit_vector)
        requires
            q < 8,
            r < 8,
    ;
}

/// Nothing is marked at first.
proof fn lemma_no_mark(r: u8)
    requires
        r < 8,
    ensures
        (0u8 >> r) & 1 == 0,
{
    assert((0u8 >> r) & 1 == 0) by (bit_vector)
        requires
            r < 8,
    ;
}

/// Whether the unit that byte `c` leads to from unit `i` in state `q` is in order:
/// it is in the trie and, where it is `c`'s, reached, and a key's replacement is
/// there. A byte that no text goes on with leads nowhere.
spec fn child_ok(blob: Seq<u8>, reach: Seq<u8>, i: int, q: int, c: int) -> bool {
    let units = trie_units(blob);
    let at = base(blob, i) ^ (c as u32);
    next_state(q, c as u8) matches Some(r) ==> {
        &&& at < units.len()
        &&& unit_label(units[at as int]) == c ==> {
            let next = at ^ unit_offset(units[at as int]);
            &&& reached(reach, at as int, r)
            &&& unit_has_leaf(units[at as int]) ==> next < units.len() && is_char_boundary(
                replacements(blob),
                unit_value(units[next as int]) as int,
            )
        }
    }
}

/// Whether every child of unit `i` in state `q` is in order.
spec fn children_ok(blob: Seq<u8>, reach: Seq<u8>, i: int, q: int) -> bool {
    forall|c: int| 1 <= c < 256 ==> #[trigger] child_ok(blob, reach, i, q, c)
}

/// From a reached unit every walk with a text stays, where the children of each
/// are in order.
proof fn lemma_closed_stays(
    blob: Seq<u8>,
    reach: Seq<u8>,
    i: int,
    q: int,
    key: Seq<u8>,
    k: int,
)
    requires
        reach.len() == trie_units(blob).len(),
        trie_units(blob).len() <= u32::MAX,
        forall|j: int, r: int|
            0 <= j < reach.len() && 0 <= r < 8 && #[trigger] reached(reach, j, r) ==> children_ok(
                blob,
                reach,
                j,
                r,
            ),
        0 <= i < reach.len(),
        0 <= q < 8,
        reached(reach, i, q),
        0 <= k <= key.len(),
        run(q, key.skip(k)) is Some,
    ensures
        walk_stays(blob, key, k, base(blob, i)),
    decreases key.len() - k,
{
    if k < key.len() && key[k] != 0 {
        let c = key[k] as int;
        assert(key.skip(k)[0] == key[k]);
        assert(key.skip(k).skip(1) =~= key.skip(k + 1));
        lemma_next_state(q, key[k]);
        assert(children_ok(blob, reach, i, q));
        assert(child_ok(blob, reach, i, q, c));
        let at = base(blob, i) ^ (key[k] as u32);
        if unit_label(trie_units(blob)[at as int]) == key[k] {
            lemma_closed_stays(blob, reach, at as int, next_state(q, key[k])->0, key, k + 1);
        }
    }
}

/// Whether `path` leads to unit `i`: a walk that goes on from it goes on there.
spec fn leads_to(blob: Seq<u8>, path: Seq<u8>, i: int) -> bool {
    forall|t: Seq<u8>| #[trigger]
        walk_stays(blob, path + t, 0, base(blob, 0)) ==> walk_stays(
            blob,
            path + t,
            path.len() as int,
            base(blob, i),
        )
}

/// What one more byte leads to.
proof fn lemma_leads_on(blob: Seq<u8>, path: Seq<u8>, i: int, c: u8)
    requires
        leads_to(blob, path, i),
        c != 0,
        trie_units(blob).len() <= u32::MAX,
        ({
            let at = base(blob, i) ^ (c as u32);
            at < trie_units(blob).len() && unit_label(trie_units(blob)[at as int]) == c
        }),
    ensures
        leads_to(blob, path.push(c), (base(blob, i) ^ (c as u32)) as int),
{
    let at = base(blob, i) ^ (c as u32);
    assert forall|t: Seq<u8>| #[trigger]
        walk_stays(blob, path.push(c) + t, 0, base(blob, 0)) implies walk_stays(
        blob,
        path.push(c) + t,
        path.push(c).len() as int,
        base(blob, at as int),
    ) by {
        let u = seq![c] + t;
        assert(path.push(c) + t =~= path + u);
        assert(walk_stays(blob, path + u, path.len() as int, base(blob, i)));
        assert((path + u)[path.len() as int] == c);
    }
}

/// A charsmap with a child that is not in order is not sound.
proof fn lemma_unsound(blob: Seq<u8>, path: Seq<u8>, i: int, q: int, c: u8)
    requires
        leads_to(blob, path, i),
        0 <= q < 8,
        run(0, path) == Some(q),
        next_state(q, c) is Some,
        c != 0,
        trie_units(blob).len() > 0,
        ({
            let units = trie_units(blob);
            let at = base(blob, i) ^ (c as u32);
            let next = at ^ unit_offset(units[at as int]);
            at >= units.len() || (unit_label(units[at as int]) == c && unit_has_leaf(
                units[at as int],
            ) && (next >= units.len() || !is_char_boundary(
                replacements(blob),
                unit_value(units[next as int]) as int,
            )))
        }),
    ensures
        !charsmap_sound(blob),
{
    let r = next_state(q, c)->0;
    let tail = seq![c] + completion(r);
    let key = path + tail;
    lemma_next_state(q, c);
    lemma_run_concat(0, path, seq![c]);
    lemma_run_one(q, c);
    lemma_completed_valid(path + seq![c], r);
    assert(path + seq![c] + completion(r) =~= key);
    if charsmap_sound(blob) {
        lemma_base_root(blob);
        assert(walk_stays(blob, key, 0, unit_offset(trie_units(blob)[0])));
        assert(walk_stays(blob, key, path.len() as int, base(blob, i)));
        assert(key[path.len() as int] == c);
    }
}

proof fn lemma_base_root(blob: Seq<u8>)
    ensures
        base(blob, 0) == unit_offset(trie_units(blob)[0]),
{
    let x = unit_offset(trie_units(blob)[0]);
    assert(0u32 ^ x == x) by (bit_vector);
}

/// Four bytes at `pos` as a number.
pub(crate) fn read_word(s: &[u8], pos: usize) -> (r: u32)
    requires
        pos + 4 <= s@.len(),
    ensures
        r == word_at(s@, pos as int),
{
    s[pos] as u32 + 0x100 * (s[pos + 1] as u32) + 0x1_0000 * (s[pos + 2] as u32) + 0x100_0000 * (
    s[pos + 3] as u32)
}

/// Where the children of a unit start, relative to the unit.
pub(crate) fn offset_of(u: u32) -> (r: u32)
    ensures
        r == unit_offset(u),
{
    if u & 0x200 != 0 {
        (u >> 10) << 8
    } else {
        u >> 10
    }
}

/// How many of the states from `q` on are not marked.
spec fn gaps(m: u8, q: int) -> nat
    decreases 8 - q,
{
    if q < 0 || q >= 8 {
        0
    } else {
        gaps(m, q + 1) + if (m >> (q as u8)) & 1 == 1 {
            0nat
        } else {
            1
        }
    }
}

proof fn lemma_gaps(m: u8, at: u8, q: int)
    requires
        at < 8,
        0 <= q <= 8,
        (m >> at) & 1 != 1,
    ensures
        gaps(m, q) == gaps(m | (1u8 << at), q) + if q <= at {
            1nat
        } else {
            0
        },
    decreases 8 - q,
{
    if q < 8 {
        lemma_gaps(m, at, q + 1);
        lemma_mark(m, at, q as u8);
    }
}

/// How many units are not reached, state by state.
spec fn unmarked(reach: Seq<u8>) -> nat
    decreases reach.len(),
{
    if reach.len() == 0 {
        0
    } else {
        unmarked(reach.drop_last()) + gaps(reach.last(), 0)
    }
}

proof fn lemma_unmarked(reach: Seq<u8>, at: int, q: u8)
    requires
        0 <= at < reach.len(),
        q < 8,
        !reached(reach, at, q as int),
    ensures
        unmarked(reach.update(at, reach[at] | (1u8 << q))) + 1 == unmarked(reach),
    decreases reach.len(),
{
    let after = reach.update(at, reach[at] | (1u8 << q));
    lemma_gaps(reach[at], q, 0);
    if at == reach.len() - 1 {
        assert(after.drop_last() =~= reach.drop_last());
    } else {
        assert(after.drop_last() =~= reach.drop_last().update(at, reach[at] | (1u8 << q)));
        lemma_unmarked(reach.drop_last(), at, q);
    }
}

/// Marking a unit reached leaves what is reached.
proof fn lemma_reached_grows(reach: Seq<u8>, at: int, q: u8)
    requires
        0 <= at < reach.len(),
        q < 8,
    ensures
        forall|j: int, r: int|
            0 <= j < reach.len() && 0 <= r < 8 ==> (#[trigger] reached(
                reach.update(at, reach[at] | (1u8 << q)),
                j,
                r,
            ) <==> reached(reach, j, r) || (j == at && r == q)),
{
    let after = reach.update(at, reach[at] | (1u8 << q));
    assert forall|j: int, r: int| 0 <= j < reach.len() && 0 <= r < 8 implies (#[trigger] reached(
        after,
        j,
        r,
    ) <==> reached(reach, j, r) || (j == at && r == q)) by {
        lemma_mark(reach[at], q, r as u8);
    }
}

/// The state behind byte `c` in state `q`; 8 where no text goes on so.
fn state_after(q: u8, c: u8) -> (r: u8)
    requires
        q < 8,
    ensures
        match next_state(q as int, c) {
            Some(x) => r == x && r < 8,
            None => r == 8,
        },
{
    if q == 0 {
        if c < 0x80 {
            0
        } else if 0xC2 <= c && c <= 0xDF {
            1
        } else if c == 0xE0 {
            4
        } else if c == 0xED {
            5
        } else if 0xE1 <= c && c <= 0xEF {
            2
        } else if c == 0xF0 {
            6
        } else if 0xF1 <= c && c <= 0xF3 {
            3
        } else if c == 0xF4 {
            7
        } else {
            8
        }
    } else if c < 0x80 || c > 0xBF {
        8
    } else if q <= 3 {
        q - 1
    } else if (q == 4 && c >= 0xA0) || (q == 5 && c < 0xA0) {
        1
    } else if (q == 6 && c >= 0x90) || (q == 7 && c < 0x90) {
        2
    } else {
        8
    }
}

/// Whether an entry of the work list is a unit reached in its state, and its path
/// leads there.
spec fn entry_ok(blob: Seq<u8>, reach: Seq<u8>, e: (usize, u8), path: Seq<u8>) -> bool {
    &&& e.0 < reach.len()
    &&& e.1 < 8
    &&& reached(reach, e.0 as int, e.1 as int)
    &&& leads_to(blob, path, e.0 as int)
    &&& run(0, path) == Some(e.1 as int)
}

/// Whether every walk down the trie of a charsmap with a text stays in it.
#[verifier::rlimit(60)]
pub fn check_charsmap(blob: &[u8]) -> (r: bool)
    ensures
        r == charsmap_sound(blob@),
{
    let len: usize = blob.len();
    if len < 4 {
        return false;
    }
    let n: usize = (read_word(blob, 0) / 4) as usize;
    if n > (len - 4) / 4 || n == 0 {
        return false;
    }
    let start: usize = 4 + 4 * n;
    let ghost s = blob@;
    let ghost units = trie_units(s);
    assert(s.subrange(start as int, len as int) =~= replacements(s));
    match text_of(&blob[start..len]) {
        None => false,
        Some(text) => {
            // For each unit, the states in which a text can come to it.
            let mut reach: Vec<u8> = Vec::with_capacity(n);
            for i in 0..n
                invariant
                    reach@.len() == i,
                    forall|j: int| 0 <= j < i ==> #[trigger] reach@[j] == 0,
            {
                reach.push(0);
            }
            let ghost none = reach@;
            reach.set(0, 1);
            let mut work: Vec<(usize, u8)> = Vec::new();
            work.push((0, 0));
            let ghost mut paths: Seq<Seq<u8>> = seq![Seq::<u8>::empty()];
            proof {
                lemma_base_root(s);
                assert(work@[0] == (0usize, 0u8));
                assert(work@.contains((0usize, 0u8)));
                assert(1u8 == 0u8 | (1u8 << 0u8)) by (bit_vector);
                assert(none[0] == 0);
                assert(reach@ =~= none.update(0, none[0] | (1u8 << 0u8)));
                lemma_reached_grows(none, 0, 0);
                assert(reached(reach@, 0, 0));
                assert forall|j: int, r: int|
                    0 <= j < n && 0 <= r < 8 && #[trigger] reached(reach@, j, r) implies j == 0 && r
                    == 0 by {
                    lemma_no_mark(r as u8);
                    assert(!reached(none, j, r));
                }
                assert(leads_to(s, paths[0], 0)) by {
                    assert forall|t: Seq<u8>| #[trigger]
                        walk_stays(s, paths[0] + t, 0, base(s, 0)) implies walk_stays(
                        s,
                        paths[0] + t,
                        0,
                        base(s, 0),
                    ) by {}
                }
                assert(entry_ok(s, reach@, work@[0], paths[0]));
            }
            while work.len() > 0
                invariant
                    s == blob@,
                    units == trie_units(s),
                    n == units.len(),
                    n <= u32::MAX,
                    n > 0,
                    len == s.len(),
                    4 + 4 * n <= len,
                    charsmap_parses(s),
                    text.spec_bytes() == replacements(s),
                    reach@.len() == n,
                    reached(reach@, 0, 0),
                    paths.len() == work@.len(),
                    forall|j: int|
                        0 <= j < work@.len() ==> entry_ok(s, reach@, #[trigger] work@[j], paths[j]),
                    forall|j: int, r: int|
                        0 <= j < n && 0 <= r < 8 && #[trigger] reached(reach@, j, r)
                            ==> work@.contains((j as usize, r as u8)) || children_ok(
                            s,
                            reach@,
                            j,
                            r,
                        ),
                decreases unmarked(reach@) + work@.len(),
            {
                let ghost before = work@;
                let ghost path = paths.last();
                let ghost start_measure = unmarked(reach@) + work@.len();
                assert(entry_ok(s, reach@, work@[work@.len() - 1], paths[work@.len() - 1]));
                let (i, q): (usize, u8) = match work.pop() {
                    Some(e) => e,
                    None => (0, 0),
                };
                proof {
                    assert(before[before.len() - 1] == (i, q));
                    paths = paths.drop_last();
                    assert forall|j: int|
                        0 <= j < work@.len() implies entry_ok(
                        s,
                        reach@,
                        #[trigger] work@[j],
                        paths[j],
                    ) by {
                        assert(work@[j] == before[j]);
                    }
                    assert forall|j: int, r: int|
                        0 <= j < n && 0 <= r < 8 && #[trigger] reached(
                            reach@,
                            j,
                            r,
                        ) implies work@.contains((j as usize, r as u8)) || children_ok(
                        s,
                        reach@,
                        j,
                        r,
                    ) || (j == i && r == q) by {
                        let e = (j as usize, r as u8);
                        if before.contains(e) && e != (i, q) {
                            let k = choose|k: int| 0 <= k < before.len() && before[k] == e;
                            assert(work@[k] == e);
                        }
                    }
                }
                let b: u32 = (i as u32) ^ offset_of(read_word(blob, 4 + 4 * i));
                let mut c: u32 = 1;
                while c < 256
                    invariant
                        1 <= c <= 256,
                        s == blob@,
                        units == trie_units(s),
                        n == units.len(),
                        n <= u32::MAX,
                        n > 0,
                        len == s.len(),
                        4 + 4 * n <= len,
                        charsmap_parses(s),
                        text.spec_bytes() == replacements(s),
                        i < n,
                        q < 8,
                        b == base(s, i as int),
                        leads_to(s, path, i as int),
                        run(0, path) == Some(q as int),
                        reach@.len() == n,
                        reached(reach@, 0, 0),
                        reached(reach@, i as int, q as int),
                        paths.len() == work@.len(),
                        unmarked(reach@) + work@.len() < start_measure,
                        forall|j: int|
                            0 <= j < work@.len() ==> entry_ok(
                                s,
                                reach@,
                                #[trigger] work@[j],
                                paths[j],
                            ),
                        forall|j: int, r: int|
                            0 <= j < n && 0 <= r < 8 && #[trigger] reached(reach@, j, r)
                                ==> work@.contains((j as usize, r as u8)) || children_ok(
                                s,
                                reach@,
                                j,
                                r,
                            ) || (j == i && r == q),
                        forall|d: int|
                            1 <= d < c ==> #[trigger] child_ok(s, reach@, i as int, q as int, d),
                    decreases 256 - c,
                {
                    let byte: u8 = c as u8;
                    assert(byte as u32 == c);
                    let r: u8 = state_after(q, byte);
                    if r < 8 {
                        let at: usize = (b ^ c) as usize;
                        if at >= n {
                            proof {
                                lemma_unsound(s, path, i as int, q as int, byte);
                            }
                            return false;
                        }
                        let u: u32 = read_word(blob, 4 + 4 * at);
                        assert(u == units[at as int]);
                        if u & 0x8000_00FF == c {
                            let next: usize = ((at as u32) ^ offset_of(u)) as usize;
                            if (u >> 8) & 1 == 1 {
                                if next >= n {
                                    proof {
                                        lemma_unsound(s, path, i as int, q as int, byte);
                                    }
                                    return false;
                                }
                                let value: u32 = read_word(blob, 4 + 4 * next) & 0x7FFF_FFFF;
                                assert(value == unit_value(units[next as int]));
                                if !text.is_char_boundary(value as usize) {
                                    proof {
                                        lemma_unsound(s, path, i as int, q as int, byte);
                                    }
                                    return false;
                                }
                            }
                            if (reach[at] >> r) & 1 != 1 {
                                let ghost old_reach = reach@;
                                let ghost old_work = work@;
                                proof {
                                    lemma_unmarked(reach@, at as int, r);
                                    lemma_reached_grows(reach@, at as int, r);
                                    lemma_leads_on(s, path, i as int, byte);
                                    lemma_run_concat(0, path, seq![byte]);
                                    lemma_run_one(q as int, byte);
                                    assert(path.push(byte) =~= path + seq![byte]);
                                }
                                let marked: u8 = reach[at] | (1u8 << r);
                                reach.set(at, marked);
                                work.push((at, r));
                                proof {
                                    paths = paths.push(path.push(byte));
                                    lemma_grown(
                                        s,
                                        old_reach,
                                        reach@,
                                        old_work,
                                        work@,
                                        (i, q),
                                        (at, r),
                                    );
                                    assert forall|j: int|
                                        0 <= j < work@.len() implies entry_ok(
                                        s,
                                        reach@,
                                        #[trigger] work@[j],
                                        paths[j],
                                    ) by {
                                        if j < old_work.len() {
                                            assert(work@[j] == old_work[j]);
                                            assert(entry_ok(
                                                s,
                                                old_reach,
                                                old_work[j],
                                                paths[j],
                                            ));
                                        }
                                    }
                                    assert forall|d: int| 1 <= d < c implies #[trigger] child_ok(
                                        s,
                                        reach@,
                                        i as int,
                                        q as int,
                                        d,
                                    ) by {
                                        lemma_child_grows(
                                            s,
                                            old_reach,
                                            reach@,
                                            i as int,
                                            q as int,
                                            d,
                                        );
                                    }
                                }
                            }
                        }
                    }
                    assert(child_ok(s, reach@, i as int, q as int, c as int));
                    c = c + 1;
                }
                assert(children_ok(s, reach@, i as int, q as int));
            }
            proof {
                assert forall|j: int, r: int|
                    0 <= j < reach@.len() && 0 <= r < 8 && #[trigger] reached(
                        reach@,
                        j,
                        r,
                    ) implies children_ok(s, reach@, j, r) by {
                    assert(!work@.contains((j as usize, r as u8)));
                }
                lemma_base_root(s);
                assert forall|key: Seq<u8>| valid_utf8(key) implies #[trigger] walk_stays(
                    s,
                    key,
                    0,
                    unit_offset(trie_units(s)[0]),
                ) by {
                    assert(key.skip(0) =~= key);
                    lemma_valid_runs(key);
                    lemma_closed_stays(s, reach@, 0, 0, key, 0);
                }
            }
            true
        },
    }
}

/// A child in order stays so as more is reached.
proof fn lemma_child_grows(
    blob: Seq<u8>,
    reach: Seq<u8>,
    after: Seq<u8>,
    i: int,
    q: int,
    c: int,
)
    requires
        child_ok(blob, reach, i, q, c),
        0 <= q < 8,
        reach.len() == trie_units(blob).len(),
        after.len() == reach.len(),
        forall|j: int, r: int|
            0 <= j < reach.len() && 0 <= r < 8 && #[trigger] reached(reach, j, r) ==> reached(
                after,
                j,
                r,
            ),
    ensures
        child_ok(blob, after, i, q, c),
{
    lemma_next_state(q, c as u8);
    if let Some(r) = next_state(q, c as u8) {
        let at = base(blob, i) ^ (c as u32);
        if unit_label(trie_units(blob)[at as int]) == c {
            assert(reached(reach, at as int, r));
        }
    }
}

/// What is reached is still on the work list, or has its children in order, once
/// one more entry is.
proof fn lemma_grown(
    blob: Seq<u8>,
    reach: Seq<u8>,
    after: Seq<u8>,
    work: Seq<(usize, u8)>,
    more: Seq<(usize, u8)>,
    here: (usize, u8),
    new: (usize, u8),
)
    requires
        reach.len() == trie_units(blob).len(),
        reach.len() <= u32::MAX,
        after.len() == reach.len(),
        more == work.push(new),
        new.0 < reach.len(),
        new.1 < 8,
        forall|j: int, r: int|
            0 <= j < reach.len() && 0 <= r < 8 ==> (#[trigger] reached(after, j, r) <==> reached(
                reach,
                j,
                r,
            ) || (j == new.0 && r == new.1)),
        forall|j: int, r: int|
            0 <= j < reach.len() && 0 <= r < 8 && #[trigger] reached(reach, j, r) ==> work.contains(
                (j as usize, r as u8),
            ) || children_ok(blob, reach, j, r) || (j == here.0 && r == here.1),
    ensures
        forall|j: int, r: int|
            0 <= j < reach.len() && 0 <= r < 8 && #[trigger] reached(after, j, r) ==> more.contains(
                (j as usize, r as u8),
            ) || children_ok(blob, after, j, r) || (j == here.0 && r == here.1),
{
    assert(more[work.len() as int] == new);
    assert forall|j: int, r: int|
        0 <= j < reach.len() && 0 <= r < 8 && #[trigger] reached(after, j, r) implies more.contains(
        (j as usize, r as u8),
    ) || children_ok(blob, after, j, r) || (j == here.0 && r == here.1) by {
        let e = (j as usize, r as u8);
        if reached(reach, j, r) {
            if work.contains(e) {
                let k = choose|k: int| 0 <= k < work.len() && work[k] == e;
                assert(more[k] == e);
            } else if !(j == here.0 && r == here.1) {
                assert forall|c: int| 1 <= c < 256 implies #[trigger] child_ok(
                    blob,
                    after,
                    j,
                    r,
                    c,
                ) by {
                    assert(child_ok(blob, reach, j, r, c));
                    lemma_child_grows(blob, reach, after, j, r, c);
                }
            }
        } else {
            assert(e == new);
        }
    }
}

// ---------------------------------------------------------------------------
// Normalizing
// ---------------------------------------------------------------------------

/// A text in UTF-8 normalized with a charsmap. One with a grapheme that cannot be
/// looked up, since the walk leaves the trie or comes to no replacement, stays as it
/// is.
pub open spec fn normalized_bytes(blob: Seq<u8>, s: Seq<u8>) -> Seq<u8> {
    if text_stays(blob, decode_utf8(s)) {
        mapped_bytes(blob, s)
    } else {
        s
    }
}

/// What a charsmap makes of a text in UTF-8.
pub open spec fn mapped_bytes(blob: Seq<u8>, s: Seq<u8>) -> Seq<u8> {
    encode_utf8(spm_normalized(blob, decode_utf8(s)))
}

/// Whether a charsmap can be used: it parses, and each character of ASCII, and CR LF,
/// can be looked up.
pub open spec fn charsmap_opens(blob: Seq<u8>) -> bool {
    &&& charsmap_parses(blob)
    &&& forall|b: u8| b < 0x80 ==> key_stays(blob, #[trigger] seq![b])
    &&& key_stays(blob, seq![0x0Du8, 0x0Au8])
}

/// Whether a grapheme always ends at `i`.
spec fn cut_at(s: Seq<u8>, i: int) -> bool {
    ||| i <= 0
    ||| i >= s.len()
    ||| {
        &&& !(s[i - 1] == 0x0D && s[i] == 0x0A)
        &&& (s[i - 1] < 0x80 && s[i] < 0x80) || s[i - 1] < 0x20 || s[i - 1] == 0x7F || s[i] < 0x20
            || s[i] == 0x7F
    }
}

/// Normalizing on from a cut: what `part` becomes behind the text before it.
proof fn lemma_append_part(blob: Seq<u8>, s: Seq<u8>, i: int, j: int, out: Seq<char>)
    requires
        valid_utf8(s),
        0 <= i <= j <= s.len(),
        cut_at(s, i),
        cut_at(s, j),
        appends(blob, decode_utf8(s.subrange(i, j)), out),
    ensures
        mapped_bytes(blob, s.take(j)) == mapped_bytes(blob, s.take(i)) + encode_utf8(out),
{
    let whole = s.take(j);
    lemma_cut(s, j);
    lemma_cut(s, i);
    assert(i > 0 && i < j ==> cut_at(whole, i));
    assert(whole.take(i) =~= s.take(i));
    assert(whole.skip(i) =~= s.subrange(i, j));
    if i == j {
        assert(s.subrange(i, j) =~= Seq::<u8>::empty());
        assert(decode_utf8(s.subrange(i, j)) =~= Seq::<char>::empty());
        assert(decode_utf8(whole) =~= decode_utf8(s.take(i)) + decode_utf8(s.subrange(i, j)));
    } else {
        lemma_cut(whole, i);
    }
    let a = decode_utf8(s.take(i));
    let t = decode_utf8(s.subrange(i, j));
    assert(decode_utf8(whole) == a + t);
    if i > 0 && i < j {
        lemma_ascii_ends(s.take(i));
        lemma_ascii_ends(s.subrange(i, j));
        assert(s.take(i).last() == s[i - 1]);
        assert(s.subrange(i, j)[0] == s[i]);
    } else if i == 0 {
        assert(s.take(0) =~= Seq::<u8>::empty());
        assert(a =~= Seq::<char>::empty());
    }
    assert(breaks(a, t));
    assert(spm_normalized(blob, a + t) == spm_normalized(blob, a) + out);
    lemma_encode_concat(spm_normalized(blob, a), out);
}

/// A precompiled charsmap plus lookup tables that let ASCII-dominant text skip
/// the walk by graphemes.
pub struct PrecompiledCharsmap {
    pre: Precompiled,
    /// The charsmap's bytes, where some text cannot be looked up; each text is
    /// tried first, then.
    unsound: Option<Vec<u8>>,
    /// What becomes of each ASCII char; `None` = pass through.
    ascii_map: Vec<Option<Vec<u8>>>,
    /// What becomes of "\r\n".
    crlf: Vec<u8>,
    /// True when no printable ASCII char is remapped, so that clean runs end
    /// only at control bytes and non-ASCII.
    fast_scan: bool,
}

impl View for PrecompiledCharsmap {
    type V = Seq<u8>;

    closed spec fn view(&self) -> Seq<u8> {
        charsmap_bytes(self.pre)
    }
}

/// Why a charsmap cannot be used.
#[derive(Debug, Clone, Copy, PartialEq, Eq, Structural)]
pub enum CharsmapError {
    /// It holds fewer units than it says, or its texts are not valid UTF-8.
    Parse,
    /// A character of ASCII, or CR LF, cannot be looked up.
    Unsound,
}

/// What an entry for byte `b` makes of it.
spec fn entry_text(entry: Option<Vec<u8>>, b: int) -> Seq<u8> {
    match entry {
        Some(norm) => norm@,
        None => seq![b as u8],
    }
}

/// Whether `out` is the UTF-8 of what a text becomes behind any other that it
/// shares no grapheme with.
spec fn becomes(blob: Seq<u8>, text: Seq<char>, out: Seq<u8>) -> bool {
    exists|o: Seq<char>| #[trigger] appends(blob, text, o) && encode_utf8(o) == out
}

proof fn lemma_append_piece(blob: Seq<u8>, s: Seq<u8>, i: int, j: int, out: Seq<u8>)
    requires
        valid_utf8(s),
        0 <= i <= j <= s.len(),
        cut_at(s, i),
        cut_at(s, j),
        becomes(blob, decode_utf8(s.subrange(i, j)), out),
    ensures
        mapped_bytes(blob, s.take(j)) == mapped_bytes(blob, s.take(i)) + out,
{
    let text = decode_utf8(s.subrange(i, j));
    let o = choose|o: Seq<char>| #[trigger] appends(blob, text, o) && encode_utf8(o) == out;
    lemma_append_part(blob, s, i, j, o);
}

impl PrecompiledCharsmap {
    /// The charsmap is sound, and the tables say what it makes of ASCII, or its
    /// bytes are kept.
    pub closed spec fn wf(self) -> bool {
        match self.unsound {
            Some(blob) => blob@ == self@ && charsmap_parses(self@),
            None => self.tables(),
        }
    }

    /// Whether the charsmap is sound, and the tables say what it makes of ASCII.
    closed spec fn tables(self) -> bool {
        &&& charsmap_sound(self@)
        &&& spm_normalized(self@, Seq::empty()) == Seq::<char>::empty()
        &&& self.ascii_map@.len() == 128
        &&& forall|b: int|
            0 <= b < 128 ==> becomes(
                self@,
                seq![(b as u8) as char],
                entry_text(#[trigger] self.ascii_map@[b], b),
            )
        &&& becomes(self@, seq!['\r', '\n'], self.crlf@)
        &&& self.fast_scan ==> forall|b: int|
            0x20 <= b < 0x7F ==> (#[trigger] self.ascii_map@[b]) is None
    }

    /// What becomes of a text that is a grapheme by itself.
    fn piece(pre: &Precompiled, text: &str) -> (r: Option<Vec<u8>>)
        requires
            charsmap_sound(charsmap_bytes(*pre)),
        ensures
            match r {
                Some(norm) => {
                    &&& text@.len() == 1 && text@[0] as u32 <= 0x7F ==> becomes(
                        charsmap_bytes(*pre),
                        text@,
                        norm@,
                    )
                    &&& text@ == seq!['\r', '\n'] ==> becomes(
                        charsmap_bytes(*pre),
                        text@,
                        norm@,
                    )
                    &&& spm_transformed(charsmap_bytes(*pre), text@) is Some
                    &&& norm@ == encode_utf8(spm_transformed(charsmap_bytes(*pre), text@)->0)
                },
                None => {
                    &&& text@.len() == 1 && text@[0] as u32 <= 0x7F ==> becomes(
                        charsmap_bytes(*pre),
                        text@,
                        encode_utf8(text@),
                    )
                    &&& text@ == seq!['\r', '\n'] ==> becomes(
                        charsmap_bytes(*pre),
                        text@,
                        encode_utf8(
                            char_part(charsmap_bytes(*pre), '\r') + char_part(
                                charsmap_bytes(*pre),
                                '\n',
                            ),
                        ),
                    )
                    &&& spm_transformed(charsmap_bytes(*pre), text@) is None
                },
            },
    {
        let ghost blob = charsmap_bytes(*pre);
        match spm_transform(pre, text) {
            Some(norm) => {
                proof {
                    if appends(blob, text@, norm@) {
                        assert(becomes(blob, text@, encode_utf8(norm@)));
                    }
                }
                Some(copy_bytes(norm.as_str().as_bytes()))
            },
            None => {
                proof {
                    if appends(blob, text@, text@) {
                        assert(becomes(blob, text@, encode_utf8(text@)));
                    }
                    let parts = char_part(blob, '\r') + char_part(blob, '\n');
                    if appends(blob, text@, parts) {
                        assert(becomes(blob, text@, encode_utf8(parts)));
                    }
                }
                None
            },
        }
    }

    /// A charsmap from its bytes, if each character of ASCII, and CR LF, can be
    /// looked up.
    pub fn new(blob: &[u8]) -> (r: Result<Self, CharsmapError>)
        ensures
            match r {
                Ok(c) => c.wf() && c@ == blob@ && charsmap_opens(blob@),
                Err(CharsmapError::Parse) => !charsmap_parses(blob@),
                Err(CharsmapError::Unsound) => charsmap_parses(blob@) && !charsmap_opens(blob@),
            },
    {
        let pre: Precompiled = match parse_charsmap(blob) {
            Ok(pre) => pre,
            Err(_) => return Err(CharsmapError::Parse),
        };
        if !check_charsmap(blob) {
            if !ascii_opens(blob) {
                return Err(CharsmapError::Unsound);
            }
            return Ok(
                PrecompiledCharsmap {
                    pre,
                    unsound: Some(copy_bytes(blob)),
                    ascii_map: Vec::new(),
                    crlf: Vec::new(),
                    fast_scan: false,
                },
            );
        }
        proof {
            lemma_sound_opens(blob@);
            lemma_sound_stays(blob@, ""@);
        }
        // An empty text stays empty.
        let nothing: String = spm_normalize(&pre, "");
        proof {
            reveal_strlit("");
            let e = Seq::<char>::empty();
            assert(""@ =~= e);
            assert(e + e =~= e);
            assert(breaks(e, e));
            let n = spm_normalized(blob@, e);
            assert(spm_normalized(blob@, e + e) == n + nothing@);
            assert(n == nothing@);
            assert((n + n).len() == n.len() + n.len());
            assert(n =~= e);
        }
        let mut ascii_map: Vec<Option<Vec<u8>>> = Vec::with_capacity(128);
        let mut fast_scan: bool = true;
        let mut cr: Vec<u8> = Vec::new();
        let mut lf: Vec<u8> = Vec::new();
        for b in 0..128u8
            invariant
                charsmap_bytes(pre) == blob@,
                charsmap_sound(blob@),
                ascii_map@.len() == b,
                forall|j: int|
                    0 <= j < b ==> becomes(
                        blob@,
                        seq![(j as u8) as char],
                        entry_text(#[trigger] ascii_map@[j], j),
                    ),
                fast_scan ==> forall|j: int|
                    0x20 <= j < b && j < 0x7F ==> (#[trigger] ascii_map@[j]) is None,
                b > 0x0D ==> cr@ == encode_utf8(char_part(blob@, '\r')),
                b > 0x0A ==> lf@ == encode_utf8(char_part(blob@, '\n')),
        {
            let one: [u8; 1] = [b];
            proof {
                lemma_ascii_text(b);
                assert(one@ =~= seq![b]);
            }
            let mut entry: Option<Vec<u8>> = None;
            match text_of(&one) {
                Some(text) => {
                    proof {
                        encode_utf8_decode_utf8(text@);
                        assert(text@ == seq![b as char]);
                    }
                    let norm: Option<Vec<u8>> = Self::piece(&pre, text);
                    if b == 0x0D {
                        cr = match &norm {
                            Some(n) => copy_bytes(n.as_slice()),
                            None => copy_bytes(&one),
                        };
                        assert(text@ =~= seq!['\r']);
                    }
                    if b == 0x0A {
                        lf = match &norm {
                            Some(n) => copy_bytes(n.as_slice()),
                            None => copy_bytes(&one),
                        };
                        assert(text@ =~= seq!['\n']);
                    }
                    if let Some(n) = norm {
                        if !bytes_equal(n.as_slice(), &one) {
                            if 0x20 <= b && b < 0x7F {
                                fast_scan = false;
                            }
                            entry = Some(n);
                        }
                    }
                },
                None => {},
            }
            ascii_map.push(entry);
        }
        let crlf: Vec<u8> = match Self::piece(&pre, "\r\n") {
            Some(n) => n,
            None => {
                let mut both: Vec<u8> = cr;
                append_bytes(&mut both, lf.as_slice());
                proof {
                    lemma_encode_concat(char_part(blob@, '\r'), char_part(blob@, '\n'));
                }
                both
            },
        };
        proof {
            reveal_strlit("\r\n");
            assert("\r\n"@ =~= seq!['\r', '\n']);
        }
        Ok(PrecompiledCharsmap { pre, unsound: None, ascii_map, crlf, fast_scan })
    }

    /// Normalize `input` with the charsmap. ASCII runs bypass the walk by
    /// graphemes: printable ASCII chars are standalone grapheme clusters (only
    /// CR LF joins, and only non-ASCII extends a cluster), and control chars
    /// break unconditionally on both sides, so the walk is only needed for
    /// spans around non-ASCII bytes, with one ASCII margin byte on each side,
    /// which non-ASCII prepend or combining characters can absorb into their
    /// cluster.
    pub fn normalize_into(&self, input: &[u8], out: &mut Vec<u8>)
        requires
            self.wf(),
            valid_utf8(input@),
        ensures
            final(out)@ == old(out)@ + normalized_bytes(self@, input@),
    {
        if let Some(blob) = &self.unsound {
            self.append_tried(blob.as_slice(), input, out);
            return;
        }
        let ghost s = input@;
        let ghost blob = self@;
        let ghost before = out@;
        let n: usize = input.len();
        proof {
            lemma_sound_stays(blob, decode_utf8(s));
        }
        if !self.fast_scan {
            let norm: Vec<u8> = self.normalized_span(input);
            append_bytes(out, norm.as_slice());
            return;
        }
        let mut i: usize = 0;
        proof {
            assert(s.take(0) =~= Seq::<u8>::empty());
            assert(decode_utf8(s.take(0)) =~= Seq::<char>::empty());
            assert(mapped_bytes(blob, s.take(0)) =~= Seq::<u8>::empty());
        }
        while i < n
            invariant
                n == s.len(),
                s == input@,
                blob == self@,
                self.tables(),
                self.fast_scan,
                valid_utf8(s),
                i <= n,
                cut_at(s, i as int),
                out@ == before + mapped_bytes(blob, s.take(i as int)),
            decreases n - i,
        {
            let mut j: usize = i;
            while j < n && 0x20 <= input[j] && input[j] < 0x7F
                invariant
                    n == s.len(),
                    s == input@,
                    i <= j <= n,
                    forall|k: int| i <= k < j ==> 0x20 <= #[trigger] s[k] < 0x7F,
                decreases n - j,
            {
                j = j + 1;
            }
            if j >= n {
                self.append_clean(input, i, n, out, Ghost(before));
                i = n;
            } else if input[j] < 0x80 {
                let b: u8 = input[j];
                proof {
                    assert(j > i ==> 0x20 <= s[j - 1] < 0x7F);
                }
                self.append_clean(input, i, j, out, Ghost(before));
                if b == 0x0D && j + 1 < n && input[j + 1] == 0x0A {
                    proof {
                        lemma_crlf_text();
                        assert(s.subrange(j as int, j + 2) =~= seq![0x0Du8, 0x0Au8]);
                        lemma_append_piece(blob, s, j as int, j + 2, self.crlf@);
                    }
                    append_bytes(out, self.crlf.as_slice());
                    i = j + 2;
                } else {
                    proof {
                        lemma_ascii_text(b);
                        assert(s.subrange(j as int, j + 1) =~= seq![b]);
                        assert(becomes(
                            blob,
                            seq![b as char],
                            entry_text(self.ascii_map@[b as int], b as int),
                        ));
                        lemma_append_piece(
                            blob,
                            s,
                            j as int,
                            j + 1,
                            entry_text(self.ascii_map@[b as int], b as int),
                        );
                    }
                    match &self.ascii_map[b as usize] {
                        Some(norm) => append_bytes(out, norm.as_slice()),
                        None => {
                            out.push(b);
                            assert(out@ =~= before + mapped_bytes(blob, s.take(j as int)) + seq![b]);
                        },
                    }
                    i = j + 1;
                }
            } else {
                let span_start: usize = if j > i {
                    j - 1
                } else {
                    j
                };
                self.append_clean(input, i, span_start, out, Ghost(before));
                let mut k: usize = j;
                let mut more: bool = true;
                while more && k < n
                    invariant
                        n == s.len(),
                        s == input@,
                        j <= k <= n,
                        j < n,
                        s[j as int] >= 0x80,
                        more ==> forall|m: int| j <= m < k ==> 0x20 <= #[trigger] s[m] && s[m] != 0x7F,
                        more ==> k <= j || s[k - 1] >= 0x80 || (k < n && s[k as int] >= 0x80),
                        !more ==> k > j && cut_at(s, k as int),
                    decreases n - k + if more { 1int } else { 0 },
                {
                    let c: u8 = input[k];
                    if c < 0x20 || c == 0x7F {
                        more = false;
                    } else if c < 0x80 && (k + 1 >= n || input[k + 1] < 0x80) {
                        k = k + 1;
                        more = false;
                    } else {
                        k = k + 1;
                    }
                }
                proof {
                    assert(cut_at(s, span_start as int));
                    assert(cut_at(s, k as int));
                    let part = s.subrange(span_start as int, k as int);
                    lemma_cut(s, k as int);
                    let whole = s.take(k as int);
                    lemma_cut(whole, span_start as int);
                    assert(whole.skip(span_start as int) =~= part);
                }
                let span: &[u8] = &input[span_start..k];
                let ghost prior = out@;
                let ghost text = decode_utf8(span@);
                let piece: Vec<u8> = self.normalized_span(span);
                append_bytes(out, piece.as_slice());
                proof {
                    lemma_append_part(
                        blob,
                        s,
                        span_start as int,
                        k as int,
                        spm_normalized(blob, text),
                    );
                }
                i = k;
            }
        }
        assert(s.take(n as int) =~= s);
    }

    /// Append a run of printable ASCII, which stays as it is.
    fn append_clean(&self, input: &[u8], i: usize, j: usize, out: &mut Vec<u8>, before: Ghost<Seq<u8>>)
        requires
            self.tables(),
            self.fast_scan,
            valid_utf8(input@),
            i <= j <= input@.len(),
            cut_at(input@, i as int),
            forall|k: int| i <= k < j ==> 0x20 <= #[trigger] input@[k] < 0x7F,
            j < input@.len() && i < j ==> cut_at(input@, j as int),
            old(out)@ == before@ + mapped_bytes(self@, input@.take(i as int)),
        ensures
            final(out)@ == before@ + mapped_bytes(self@, input@.take(j as int)),
    {
        let ghost s = input@;
        for k in i..j
            invariant
                s == input@,
                self.tables(),
                self.fast_scan,
                valid_utf8(s),
                i <= j <= s.len(),
                cut_at(s, i as int),
                forall|k: int| i <= k < j ==> 0x20 <= #[trigger] s[k] < 0x7F,
                j < s.len() && i < j ==> cut_at(s, j as int),
                out@ == before@ + mapped_bytes(self@, s.take(k as int)),
        {
            let b: u8 = input[k];
            proof {
                lemma_ascii_text(b);
                assert(s.subrange(k as int, k + 1) =~= seq![b]);
                assert(self.ascii_map@[b as int] is None);
                assert(k > i ==> 0x20 <= s[k - 1] < 0x7F);
                assert(k + 1 < j ==> 0x20 <= s[k + 1] < 0x7F);
                lemma_append_piece(self@, s, k as int, k + 1, seq![b]);
            }
            out.push(b);
            assert(out@ =~= before@ + mapped_bytes(self@, s.take(k as int)) + seq![b]);
        }
    }

    /// A span normalized by graphemes.
    fn normalized_span(&self, span: &[u8]) -> (r: Vec<u8>)
        requires
            charsmap_sound(self@),
            valid_utf8(span@),
        ensures
            r@ == mapped_bytes(self@, span@),
            appends(self@, decode_utf8(span@), spm_normalized(self@, decode_utf8(span@))),
    {
        match text_of(span) {
            Some(text) => {
                proof {
                    encode_utf8_decode_utf8(text@);
                    lemma_sound_stays(self@, text@);
                }
                let norm: String = spm_normalize(&self.pre, text);
                copy_bytes(norm.as_str().as_bytes())
            },
            None => Vec::new(),
        }
    }

    /// Normalize a text by graphemes, if each of them can be looked up.
    fn append_tried(&self, blob: &[u8], input: &[u8], out: &mut Vec<u8>)
        requires
            blob@ == self@,
            charsmap_parses(self@),
            valid_utf8(input@),
        ensures
            final(out)@ == old(out)@ + normalized_bytes(self@, input@),
    {
        if let (Some(text), Some(trie)) = (text_of(input), Trie::open(blob)) {
            proof {
                encode_utf8_decode_utf8(text@);
            }
            if trie.text(text) {
                let norm: String = spm_normalize(&self.pre, text);
                append_bytes(out, norm.as_str().as_bytes());
                return;
            }
        }
        append_bytes(out, input);
    }
}

/// Whether each character of ASCII, and CR LF, can be looked up.
fn ascii_opens(blob: &[u8]) -> (r: bool)
    requires
        charsmap_parses(blob@),
    ensures
        r == charsmap_opens(blob@),
{
    let trie: Trie<'_> = match Trie::open(blob) {
        Some(trie) => trie,
        None => return false,
    };
    for b in 0..128u8
        invariant
            trie.wf(),
            trie.bytes() == blob@,
            forall|c: u8| c < b ==> key_stays(blob@, #[trigger] seq![c]),
    {
        let one: [u8; 1] = [b];
        assert(one@ =~= seq![b]);
        if trie.look(&one).is_none() {
            return false;
        }
    }
    let both: [u8; 2] = [0x0D, 0x0A];
    assert(both@ =~= seq![0x0Du8, 0x0Au8]);
    trie.look(&both).is_some()
}

/// A sound charsmap can be used.
proof fn lemma_sound_opens(blob: Seq<u8>)
    requires
        charsmap_sound(blob),
    ensures
        charsmap_opens(blob),
{
    assert forall|b: u8| b < 0x80 implies key_stays(blob, #[trigger] seq![b]) by {
        lemma_ascii_text(b);
        lemma_sound_key(blob, seq![b]);
    }
    let c = seq!['\r', '\n'];
    assert(is_ascii_chars(c));
    is_ascii_chars_encode_utf8(c);
    assert(encode_utf8(c) =~= seq![0x0Du8, 0x0Au8]);
    encode_utf8_valid_utf8(c);
    lemma_sound_key(blob, seq![0x0Du8, 0x0Au8]);
}

proof fn lemma_crlf_text()
    ensures
        decode_utf8(seq![0x0Du8, 0x0Au8]) == seq!['\r', '\n'],
{
    let c = seq!['\r', '\n'];
    assert(is_ascii_chars(c));
    is_ascii_chars_encode_utf8(c);
    assert(c[0] as u8 == 0x0D && c[1] as u8 == 0x0A);
    assert(encode_utf8(c) =~= seq![0x0Du8, 0x0Au8]);
    encode_utf8_decode_utf8(c);
}

} // verus!
