//! Walks down the trie of a charsmap, and the texts that they stay in it with.

use vstd::prelude::*;
use vstd::string::StringSliceAdditionalSpecFns;
use vstd::utf8::{
    encode_utf8, encode_utf8_valid_utf8, is_char_boundary, length_of_first_scalar, pop_first_scalar,
    valid_first_scalar, valid_utf8, valid_utf8_split,
};

use crate::pretokenize::scan::{lead_width, width_at};
use crate::sentencepiece::charsmap::{
    charsmap_parses, charsmap_sound, offset_of, read_word, replacements, trie_units, unit_count,
    unit_has_leaf, unit_label, unit_offset, unit_value, walk_stays,
};
use crate::text::text_of;

verus! {

/// What a walk down the trie with `key` from `k` on comes to, where `node` is where
/// the children of the unit before start: `None` where it leaves the trie, else the
/// place of the replacement of the first key that it meets. `first` is that of a key
/// that it met before.
pub open spec fn walked(
    blob: Seq<u8>,
    key: Seq<u8>,
    k: int,
    node: u32,
    first: Option<u32>,
) -> Option<Option<u32>>
    decreases key.len() - k,
{
    if k < 0 || k >= key.len() || key[k] == 0 {
        Some(first)
    } else {
        let units = trie_units(blob);
        let at = node ^ (key[k] as u32);
        if at >= units.len() {
            None
        } else if unit_label(units[at as int]) != key[k] {
            Some(first)
        } else {
            let next = at ^ unit_offset(units[at as int]);
            if !unit_has_leaf(units[at as int]) {
                walked(blob, key, k + 1, next, first)
            } else if next >= units.len() {
                None
            } else {
                walked(
                    blob,
                    key,
                    k + 1,
                    next,
                    if first is None {
                        Some(unit_value(units[next as int]))
                    } else {
                        first
                    },
                )
            }
        }
    }
}

/// What a walk down the whole trie with `key` comes to.
pub open spec fn walk_of(blob: Seq<u8>, key: Seq<u8>) -> Option<Option<u32>> {
    if trie_units(blob).len() == 0 {
        None
    } else {
        walked(blob, key, 0, unit_offset(trie_units(blob)[0]), None)
    }
}

/// Whether a key can be looked up: the walk stays in the trie, and where it meets a
/// key, the first one has a replacement.
pub open spec fn key_stays(blob: Seq<u8>, key: Seq<u8>) -> bool {
    match walk_of(blob, key) {
        None => false,
        Some(None) => true,
        Some(Some(value)) => is_char_boundary(replacements(blob), value as int),
    }
}

/// Whether each character of a text in UTF-8 can be looked up, from `pos` on.
pub open spec fn chars_stay(blob: Seq<u8>, text: Seq<u8>, pos: int) -> bool
    decreases text.len() - pos,
{
    pos < 0 || pos >= text.len() || width_at(text, pos) < 1 || {
        &&& key_stays(blob, text.subrange(pos, pos + width_at(text, pos)))
        &&& chars_stay(blob, text, pos + width_at(text, pos))
    }
}

/// Whether a grapheme in UTF-8 can be normalized. One of less than six bytes is
/// looked up whole; a longer one, or one that starts with no key, character by
/// character.
pub open spec fn grapheme_stays(blob: Seq<u8>, grapheme: Seq<u8>) -> bool {
    &&& grapheme.len() < 6 ==> key_stays(blob, grapheme)
    &&& grapheme.len() >= 6 || walk_of(blob, grapheme) == Some(None::<u32>) ==> chars_stay(
        blob,
        grapheme,
        0,
    )
}

/// The extended grapheme clusters of a text.
pub uninterp spec fn graphemes_of(text: Seq<char>) -> Seq<Seq<char>>;

/// Whether each grapheme of a text can be normalized.
pub open spec fn text_stays(blob: Seq<u8>, text: Seq<char>) -> bool {
    forall|k: int|
        0 <= k < graphemes_of(text).len() ==> grapheme_stays(
            blob,
            encode_utf8(#[trigger] graphemes_of(text)[k]),
        )
}

/// The texts of string slices.
pub open spec fn str_views(v: Seq<&str>) -> Seq<Seq<char>> {
    v.map_values(|s: &str| s@)
}

/// `UnicodeSegmentation::graphemes` with extended clusters: the graphemes of a text,
/// in order.
#[verifier::external_body]
fn graphemes(text: &str) -> (r: Vec<&str>)
    ensures
        str_views(r@) == graphemes_of(text@),
{
    unicode_segmentation::UnicodeSegmentation::graphemes(text, true).collect()
}

/// A walk that stays, with a replacement for each key that it meets, can be used to
/// look up its key.
proof fn lemma_walk_stays(blob: Seq<u8>, key: Seq<u8>, k: int, node: u32, first: Option<u32>)
    requires
        walk_stays(blob, key, k, node),
        first matches Some(v) ==> is_char_boundary(replacements(blob), v as int),
    ensures
        walked(blob, key, k, node, first) is Some,
        walked(blob, key, k, node, first)->0 matches Some(v) ==> is_char_boundary(
            replacements(blob),
            v as int,
        ),
    decreases key.len() - k,
{
    if !(k < 0 || k >= key.len() || key[k] == 0) {
        let units = trie_units(blob);
        let at = node ^ (key[k] as u32);
        if unit_label(units[at as int]) == key[k] {
            let next = at ^ unit_offset(units[at as int]);
            let met = if unit_has_leaf(units[at as int]) && first is None {
                Some(unit_value(units[next as int]))
            } else {
                first
            };
            lemma_walk_stays(blob, key, k + 1, next, met);
        }
    }
}

/// With a sound charsmap every text can be looked up.
pub proof fn lemma_sound_key(blob: Seq<u8>, key: Seq<u8>)
    requires
        charsmap_sound(blob),
        valid_utf8(key),
    ensures
        key_stays(blob, key),
{
    let root = unit_offset(trie_units(blob)[0]);
    assert(walk_stays(blob, key, 0, root));
    lemma_walk_stays(blob, key, 0, root, None);
}

proof fn lemma_sound_chars(blob: Seq<u8>, text: Seq<u8>, pos: int)
    requires
        charsmap_sound(blob),
        0 <= pos <= text.len(),
        valid_utf8(text.skip(pos)),
    ensures
        chars_stay(blob, text, pos),
    decreases text.len() - pos,
{
    if pos < text.len() {
        let u = text.skip(pos);
        assert(valid_first_scalar(u));
        let n = length_of_first_scalar(u);
        assert(u[0] == text[pos]);
        assert(n == lead_width(text[pos]));
        assert(pop_first_scalar(u) =~= text.skip(pos + n));
        assert(is_char_boundary(u, n)) by {
            assert(is_char_boundary(pop_first_scalar(u), 0));
        }
        valid_utf8_split(u, n);
        assert(u.subrange(0, n) =~= text.subrange(pos, pos + n));
        lemma_sound_key(blob, text.subrange(pos, pos + n));
        lemma_sound_chars(blob, text, pos + n);
    }
}

/// With a sound charsmap every text can be normalized.
pub proof fn lemma_sound_stays(blob: Seq<u8>, text: Seq<char>)
    requires
        charsmap_sound(blob),
    ensures
        text_stays(blob, text),
{
    assert forall|k: int| 0 <= k < graphemes_of(text).len() implies grapheme_stays(
        blob,
        encode_utf8(#[trigger] graphemes_of(text)[k]),
    ) by {
        let g = encode_utf8(graphemes_of(text)[k]);
        encode_utf8_valid_utf8(graphemes_of(text)[k]);
        lemma_sound_key(blob, g);
        assert(g.skip(0) =~= g);
        lemma_sound_chars(blob, g, 0);
    }
}

/// The bytes of a charsmap, read as a trie and its replacement texts.
pub struct Trie<'a> {
    blob: &'a [u8],
    /// How many units there are.
    units: usize,
    texts: &'a str,
}

impl<'a> Trie<'a> {
    /// The bytes of the charsmap.
    pub closed spec fn bytes(self) -> Seq<u8> {
        self.blob@
    }

    /// The parts are those of the bytes.
    pub closed spec fn wf(self) -> bool {
        &&& charsmap_parses(self.blob@)
        &&& self.units == unit_count(self.blob@)
        &&& self.texts.spec_bytes() == replacements(self.blob@)
    }

    /// Read a charsmap that parses.
    pub fn open(blob: &'a [u8]) -> (r: Option<Self>)
        ensures
            match r {
                Some(t) => t.wf() && t.bytes() == blob@,
                None => !charsmap_parses(blob@),
            },
    {
        let len: usize = blob.len();
        if len < 4 {
            return None;
        }
        let units: usize = (read_word(blob, 0) / 4) as usize;
        if units > (len - 4) / 4 {
            return None;
        }
        let start: usize = 4 + 4 * units;
        assert(blob@.subrange(start as int, len as int) =~= replacements(blob@));
        match text_of(&blob[start..len]) {
            Some(texts) => Some(Trie { blob, units, texts }),
            None => None,
        }
    }

    /// The unit at `i`.
    fn unit(&self, i: usize) -> (u: u32)
        requires
            self.wf(),
            i < self.units,
        ensures
            u == trie_units(self.bytes())[i as int],
    {
        read_word(self.blob, 4 + 4 * i)
    }

    /// Walk down the trie with a key.
    fn walk(&self, key: &[u8]) -> (r: Option<Option<u32>>)
        requires
            self.wf(),
        ensures
            r == walk_of(self.bytes(), key@),
    {
        let ghost blob = self.bytes();
        let ghost units = trie_units(blob);
        if self.units == 0 {
            return None;
        }
        let mut node: u32 = offset_of(self.unit(0));
        let mut first: Option<u32> = None;
        let mut k: usize = 0;
        while k < key.len() && key[k] != 0
            invariant
                self.wf(),
                blob == self.bytes(),
                units == trie_units(blob),
                units.len() == self.units,
                k <= key@.len(),
                walked(blob, key@, k as int, node, first) == walk_of(blob, key@),
            decreases key@.len() - k,
        {
            let at: u32 = node ^ (key[k] as u32);
            if at as usize >= self.units {
                return None;
            }
            let u: u32 = self.unit(at as usize);
            if u & 0x8000_00FF != key[k] as u32 {
                return Some(first);
            }
            let next: u32 = at ^ offset_of(u);
            if (u >> 8) & 1 == 1 {
                if next as usize >= self.units {
                    return None;
                }
                if first.is_none() {
                    first = Some(self.unit(next as usize) & 0x7FFF_FFFF);
                }
            }
            node = next;
            k = k + 1;
        }
        Some(first)
    }

    /// Whether a key can be looked up and, if so, whether the walk meets one.
    pub fn look(&self, key: &[u8]) -> (r: Option<bool>)
        requires
            self.wf(),
        ensures
            r is Some == key_stays(self.bytes(), key@),
            r matches Some(met) ==> met == (walk_of(self.bytes(), key@) != Some(None::<u32>)),
    {
        match self.walk(key) {
            None => None,
            Some(None) => Some(false),
            Some(Some(value)) => if self.texts.is_char_boundary(value as usize) {
                Some(true)
            } else {
                None
            },
        }
    }

    /// Whether each character of a text can be looked up.
    fn chars(&self, text: &[u8]) -> (r: bool)
        requires
            self.wf(),
        ensures
            r == chars_stay(self.bytes(), text@, 0),
    {
        let n: usize = text.len();
        let mut pos: usize = 0;
        while pos < n
            invariant
                self.wf(),
                n == text@.len(),
                pos <= n,
                chars_stay(self.bytes(), text@, 0) == chars_stay(self.bytes(), text@, pos as int),
            decreases n - pos,
        {
            let lead: usize = lead_len(text[pos]);
            let end: usize = if lead <= n - pos {
                pos + lead
            } else {
                n
            };
            assert(end == pos + width_at(text@, pos as int));
            if self.look(&text[pos..end]).is_none() {
                return false;
            }
            pos = end;
        }
        true
    }

    /// Whether each grapheme of a text can be normalized.
    pub fn text(&self, text: &str) -> (r: bool)
        requires
            self.wf(),
        ensures
            r == text_stays(self.bytes(), text@),
    {
        let parts: Vec<&str> = graphemes(text);
        for i in 0..parts.len()
            invariant
                self.wf(),
                str_views(parts@) == graphemes_of(text@),
                forall|k: int|
                    0 <= k < i ==> grapheme_stays(
                        self.bytes(),
                        encode_utf8(#[trigger] graphemes_of(text@)[k]),
                    ),
        {
            let g: &[u8] = parts[i].as_bytes();
            assert(graphemes_of(text@)[i as int] == parts@[i as int]@);
            let mut whole: bool = false;
            if g.len() < 6 {
                match self.look(g) {
                    None => return false,
                    Some(met) => {
                        whole = met;
                    },
                }
            }
            if !whole && !self.chars(g) {
                return false;
            }
        }
        true
    }
}

/// How many bytes a character takes, by its first one.
fn lead_len(b: u8) -> (n: usize)
    ensures
        n == lead_width(b),
{
    if b < 0x80 {
        1
    } else if b < 0xE0 {
        2
    } else if b < 0xF0 {
        3
    } else {
        4
    }
}

} // verus!
