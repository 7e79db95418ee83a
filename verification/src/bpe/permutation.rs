//! The byte permutation of a vocabulary whose first 256 entries are the bytes.

use vstd::prelude::*;

use crate::seqs::byte_seqs;

verus! {

/// The last symbol of `symbols` whose byte is `b`, or 0.
pub open spec fn symbol_of(symbols: Seq<u8>, b: u8) -> u8
    decreases symbols.len(),
{
    if symbols.len() == 0 {
        0
    } else if symbols.last() == b {
        (symbols.len() - 1) as u8
    } else {
        symbol_of(symbols.drop_last(), b)
    }
}

/// A vocabulary entry that should be one byte is not: its place.
#[derive(Debug, Clone, Copy, PartialEq, Eq, Structural)]
pub struct NotOneByte(pub usize);

/// The bytes that the first 256 entries of a vocabulary start with.
pub open spec fn symbol_bytes(vocab: Seq<Seq<u8>>) -> Seq<u8> {
    Seq::new(256, |i: int| vocab[i][0])
}

/// Maps string bytes to symbol bytes and back.
pub struct ByteRemapping {
    /// Maps string byte to symbol byte.
    mapping: Vec<u8>,
    /// Maps symbol byte to string byte.
    unmap: Vec<u8>,
}

/// Where every byte value is the byte of some symbol, [`symbol_of`] finds it.
pub proof fn lemma_symbol_of(symbols: Seq<u8>, b: u8, i: int)
    requires
        symbols.len() <= 256,
        0 <= i < symbols.len(),
        symbols[i] == b,
        forall|j: int| i < j < symbols.len() ==> symbols[j] != b,
    ensures
        symbol_of(symbols, b) == i as u8,
    decreases symbols.len(),
{
    if symbols.last() != b {
        lemma_symbol_of(symbols.drop_last(), b, i);
    }
}

impl ByteRemapping {
    /// The symbol byte of each string byte.
    pub closed spec fn to_symbol(self) -> Seq<u8> {
        self.mapping@
    }

    /// The string byte of each symbol byte.
    pub closed spec fn to_byte(self) -> Seq<u8> {
        self.unmap@
    }

    /// Both tables have an entry for each byte, and the first is read off the second.
    pub open spec fn wf(self) -> bool {
        &&& self.to_symbol().len() == 256
        &&& self.to_byte().len() == 256
        &&& forall|b: int|
            0 <= b < 256 ==> #[trigger] self.to_symbol()[b] == symbol_of(self.to_byte(), b as u8)
    }

    /// Read the permutation off the first 256 entries of `vocab`: entry `i` is the
    /// byte that symbol `i` stands for. `None` when every symbol stands for itself.
    /// An error names the first of them that is not one byte long.
    pub fn from_byte_vocab(vocab: &[Vec<u8>]) -> (r: Result<Option<Self>, NotOneByte>)
        requires
            vocab@.len() >= 256,
        ensures
            match r {
                Ok(found) => {
                    &&& forall|i: int| 0 <= i < 256 ==> (#[trigger] vocab@[i])@.len() == 1
                    &&& match found {
                        None => forall|i: int|
                            0 <= i < 256 ==> #[trigger] symbol_bytes(byte_seqs(vocab@))[i]
                                == i as u8,
                        Some(m) => {
                            &&& m.wf()
                            &&& m.to_byte() == symbol_bytes(byte_seqs(vocab@))
                            &&& exists|i: int|
                                0 <= i < 256 && #[trigger] symbol_bytes(byte_seqs(vocab@))[i]
                                    != i as u8
                        },
                    }
                },
                Err(NotOneByte(i)) => {
                    &&& i < 256
                    &&& vocab@[i as int]@.len() != 1
                    &&& forall|j: int| 0 <= j < i ==> (#[trigger] vocab@[j])@.len() == 1
                },
            },
    {
        let ghost lead = symbol_bytes(byte_seqs(vocab@));
        let mut unmap: Vec<u8> = Vec::with_capacity(256);
        let mut identity: bool = true;
        for i in 0..256usize
            invariant
                vocab@.len() >= 256,
                forall|j: int| 0 <= j < i ==> (#[trigger] vocab@[j])@.len() == 1,
                lead == symbol_bytes(byte_seqs(vocab@)),
                unmap@ == lead.take(i as int),
                identity == forall|c: int| 0 <= c < i ==> #[trigger] lead[c] == c as u8,
        {
            if vocab[i].len() != 1 {
                return Err(NotOneByte(i));
            }
            let b: u8 = vocab[i][0];
            assert(lead[i as int] == b);
            unmap.push(b);
            assert(lead.take(i as int + 1) =~= lead.take(i as int).push(b));
            if b != i as u8 {
                identity = false;
            }
        }
        assert(lead.take(256) =~= lead);
        if identity {
            return Ok(None);
        }
        let mut mapping: Vec<u8> = Vec::with_capacity(256);
        for b in 0..256usize
            invariant
                mapping@.len() == b,
                forall|c: int| 0 <= c < b ==> #[trigger] mapping@[c] == 0,
        {
            mapping.push(0);
        }
        for i in 0..256usize
            invariant
                unmap@ == lead,
                lead.len() == 256,
                mapping@.len() == 256,
                forall|b: int|
                    0 <= b < 256 ==> #[trigger] mapping@[b] == symbol_of(lead.take(i as int), b as u8),
        {
            let b: usize = unmap[i] as usize;
            mapping.set(b, i as u8);
            proof {
                let t = lead.take(i as int + 1);
                assert(t.drop_last() =~= lead.take(i as int));
                assert(t.last() == lead[i as int]);
            }
        }
        Ok(Some(ByteRemapping { mapping, unmap }))
    }

    /// The symbol bytes of a string.
    pub fn remap_bytes(&self, bytes: &[u8]) -> (r: Vec<u8>)
        requires
            self.wf(),
        ensures
            r@ == Seq::new(bytes@.len(), |i: int| self.to_symbol()[bytes@[i] as int]),
    {
        let mut r: Vec<u8> = Vec::with_capacity(bytes.len());
        for i in 0..bytes.len()
            invariant
                self.wf(),
                r@.len() == i,
                forall|k: int| 0 <= k < i ==> #[trigger] r@[k] == self.to_symbol()[bytes@[k] as int],
        {
            r.push(self.mapping[bytes[i] as usize]);
        }
        assert(r@ =~= Seq::new(bytes@.len(), |i: int| self.to_symbol()[bytes@[i] as int]));
        r
    }

    /// The string bytes of a sequence of symbol bytes.
    pub fn unmap_bytes(&self, bytes: &[u8]) -> (r: Vec<u8>)
        requires
            self.wf(),
        ensures
            r@ == Seq::new(bytes@.len(), |i: int| self.to_byte()[bytes@[i] as int]),
    {
        let mut r: Vec<u8> = Vec::with_capacity(bytes.len());
        for i in 0..bytes.len()
            invariant
                self.wf(),
                r@.len() == i,
                forall|k: int| 0 <= k < i ==> #[trigger] r@[k] == self.to_byte()[bytes@[k] as int],
        {
            r.push(self.unmap[bytes[i] as usize]);
        }
        assert(r@ =~= Seq::new(bytes@.len(), |i: int| self.to_byte()[bytes@[i] as int]));
        r
    }
}

/// Where no two symbols stand for the same byte, mapping a symbol to its byte
/// and back gives the symbol, so the two tables undo each other.
pub proof fn lemma_remap_undoes_unmap(m: ByteRemapping, symbol: u8)
    requires
        m.wf(),
        forall|i: int, j: int|
            0 <= i < j < 256 ==> #[trigger] m.to_byte()[i] != #[trigger] m.to_byte()[j],
    ensures
        m.to_symbol()[m.to_byte()[symbol as int] as int] == symbol,
{
    let b = m.to_byte()[symbol as int];
    lemma_symbol_of(m.to_byte(), b, symbol as int);
    assert(m.to_symbol()[b as int] == symbol_of(m.to_byte(), b));
}

} // verus!
