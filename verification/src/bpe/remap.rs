//! The byte to token table of a byte-level vocabulary.

use vstd::prelude::*;

use crate::seqs::byte_seqs;
use crate::token::TokenId;

verus! {

/// The lowest id whose vocabulary entry is the single byte `b`.
pub open spec fn byte_token(vocab: Seq<Seq<u8>>, b: u8) -> Option<int>
    decreases vocab.len(),
{
    if vocab.len() == 0 {
        None
    } else {
        match byte_token(vocab.drop_last(), b) {
            Some(id) => Some(id),
            None => if vocab.last() == seq![b] {
                Some(vocab.len() - 1)
            } else {
                None
            },
        }
    }
}

/// [`byte_token`] is the lowest id of a single-byte entry, where there is one.
pub proof fn lemma_byte_token(vocab: Seq<Seq<u8>>, b: u8)
    ensures
        match byte_token(vocab, b) {
            Some(id) => 0 <= id < vocab.len() && vocab[id] == seq![b] && forall|j: int|
                0 <= j < id ==> #[trigger] vocab[j] != seq![b],
            None => forall|j: int| 0 <= j < vocab.len() ==> #[trigger] vocab[j] != seq![b],
        },
    decreases vocab.len(),
{
    if vocab.len() > 0 {
        let init = vocab.drop_last();
        lemma_byte_token(init, b);
        assert forall|j: int| 0 <= j < init.len() implies init[j] == #[trigger] vocab[j] by {}
    }
}

/// Whether `b` can appear anywhere in a valid UTF-8 byte stream. `0xC0`/`0xC1`
/// are overlong two-byte leads and `0xF5..=0xFF` encode code points beyond
/// U+10FFFF, so none of them ever occur in valid UTF-8.
pub open spec fn utf8_byte(b: u8) -> bool {
    b != 0xC0 && b != 0xC1 && b < 0xF5
}

/// Whether `b` can appear in valid UTF-8.
pub fn is_valid_utf8_byte(b: u8) -> (r: bool)
    ensures
        r == utf8_byte(b),
{
    b != 0xC0 && b != 0xC1 && b < 0xF5
}

/// The token of each byte: its lowest single-byte entry, or the placeholder 0.
pub open spec fn byte_table(vocab: Seq<Seq<u8>>) -> Seq<TokenId> {
    Seq::new(
        256,
        |b: int|
            match byte_token(vocab, b as u8) {
                Some(id) => TokenId(id as u32),
                None => TokenId(0),
            },
    )
}

/// The table under which every byte is its own token.
pub open spec fn identity_table() -> Seq<TokenId> {
    Seq::new(256, |b: int| TokenId(b as u32))
}

/// The vocabulary has no token for `b`, though `b` can appear in valid UTF-8.
pub open spec fn lacks_byte(vocab: Seq<Seq<u8>>, b: u8) -> bool {
    utf8_byte(b) && byte_token(vocab, b) is None
}

/// A byte value that can appear in valid UTF-8 has no single-byte token.
#[derive(Debug, Clone, Copy, PartialEq, Eq, Structural)]
pub struct MissingByte(pub u8);

/// Maps each byte value to the token ID of its single-byte vocab entry.
/// The IDs need not be < 256.
pub struct ByteRemapping {
    mapping: Vec<TokenId>,
}

impl View for ByteRemapping {
    type V = Seq<TokenId>;

    closed spec fn view(&self) -> Seq<TokenId> {
        self.mapping@
    }
}

impl ByteRemapping {
    /// The table has an entry for each byte.
    pub open spec fn wf(self) -> bool {
        self@.len() == 256
    }

    /// Build the byte to token-ID table by scanning `vocab` for single-byte
    /// entries (lowest ID wins). Returns `None` when the mapping is the
    /// identity (token ID == byte value), and an error, naming the least such
    /// byte, if some byte value that can appear in valid UTF-8 has no
    /// single-byte token. The bytes that never occur in valid UTF-8 may lack a
    /// token; they map to the placeholder ID 0.
    pub fn from_byte_vocab(vocab: &[Vec<u8>]) -> (r: Result<Option<Self>, MissingByte>)
        requires
            vocab@.len() <= u32::MAX,
        ensures
            match r {
                Err(MissingByte(b)) => {
                    &&& lacks_byte(byte_seqs(vocab@), b)
                    &&& forall|c: u8| c < b ==> !#[trigger] lacks_byte(byte_seqs(vocab@), c)
                },
                Ok(found) => {
                    &&& forall|c: u8| !#[trigger] lacks_byte(byte_seqs(vocab@), c)
                    &&& match found {
                        None => byte_table(byte_seqs(vocab@)) == identity_table(),
                        Some(m) => m.wf() && m@ == byte_table(byte_seqs(vocab@)) && m@
                            != identity_table(),
                    }
                },
            },
    {
        let ghost entries = byte_seqs(vocab@);
        let mut found: Vec<Option<u32>> = Vec::with_capacity(256);
        for i in 0..256usize
            invariant
                found@.len() == i,
                forall|b: int| 0 <= b < i ==> #[trigger] found@[b] is None,
        {
            found.push(None);
        }
        for id in 0..vocab.len()
            invariant
                vocab@.len() <= u32::MAX,
                entries == byte_seqs(vocab@),
                found@.len() == 256,
                forall|b: int|
                    0 <= b < 256 ==> match #[trigger] found@[b] {
                        Some(t) => byte_token(entries.take(id as int), b as u8) == Some(t as int),
                        None => byte_token(entries.take(id as int), b as u8) is None,
                    },
        {
            let entry: &Vec<u8> = &vocab[id];
            proof {
                let t = entries.take(id as int + 1);
                assert(t.drop_last() =~= entries.take(id as int));
                assert(t.last() == entry@);
            }
            if entry.len() == 1 {
                let b: usize = entry[0] as usize;
                assert(entry@ =~= seq![b as u8]);
                if found[b].is_none() {
                    found.set(b, Some(id as u32));
                }
            }
        }
        assert(entries.take(vocab@.len() as int) =~= entries);
        let mut mapping: Vec<TokenId> = Vec::with_capacity(256);
        let mut identity: bool = true;
        for b in 0..256usize
            invariant
                vocab@.len() <= u32::MAX,
                entries == byte_seqs(vocab@),
                found@.len() == 256,
                forall|b: int|
                    0 <= b < 256 ==> match #[trigger] found@[b] {
                        Some(t) => byte_token(entries, b as u8) == Some(t as int),
                        None => byte_token(entries, b as u8) is None,
                    },
                mapping@.len() == b,
                forall|c: int| 0 <= c < b ==> #[trigger] mapping@[c] == byte_table(entries)[c],
                forall|c: u8| c < b ==> !#[trigger] lacks_byte(entries, c),
                identity == forall|c: int|
                    0 <= c < b ==> #[trigger] mapping@[c] == TokenId(c as u32),
        {
            let t: TokenId = match found[b] {
                Some(t) => TokenId(t),
                None => {
                    if is_valid_utf8_byte(b as u8) {
                        assert(found@[b as int] is None);
                        return Err(MissingByte(b as u8));
                    }
                    TokenId(0)
                },
            };
            let ghost before = mapping@;
            mapping.push(t);
            proof {
                assert(byte_table(entries)[b as int] == t);
                assert forall|c: u8| c < b + 1 implies !#[trigger] lacks_byte(entries, c) by {
                    if c == b {
                        assert(found@[b as int] is None ==> byte_token(entries, b as u8) is None);
                    }
                }
                assert forall|c: int| 0 <= c < b implies mapping@[c] == before[c] by {}
            }
            if t.0 != b as u32 {
                identity = false;
                assert(mapping@[b as int] != TokenId(b as u32));
            }
        }
        assert(mapping@ =~= byte_table(entries));
        if identity {
            assert(byte_table(entries) =~= identity_table());
            Ok(None)
        } else {
            proof {
                let c = choose|c: int| 0 <= c < 256 && #[trigger] mapping@[c] != TokenId(c as u32);
                assert(mapping@[c] != identity_table()[c]);
            }
            Ok(Some(ByteRemapping { mapping }))
        }
    }

    /// A copy of the table.
    pub fn copy(&self) -> (r: Self)
        ensures
            r@ == self@,
    {
        let mut mapping: Vec<TokenId> = Vec::with_capacity(256);
        for i in 0..self.mapping.len()
            invariant
                mapping@.len() == i,
                forall|k: int| 0 <= k < i ==> #[trigger] mapping@[k] == self.mapping@[k],
        {
            mapping.push(self.mapping[i]);
        }
        assert(mapping@ =~= self.mapping@);
        ByteRemapping { mapping }
    }

    /// The token of byte `b`.
    pub fn get(&self, b: u8) -> (t: TokenId)
        requires
            self.wf(),
        ensures
            t == self@[b as int],
    {
        self.mapping[b as usize]
    }
}

} // verus!
