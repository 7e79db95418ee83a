//! The tables of a byte-level tokenizer, and how a pretoken is encoded with them.

use vstd::prelude::*;

use crate::bpe::merge::{bpe_merged, rules_by_id, MergeTable};
use crate::bpe::remap::ByteRemapping;
use crate::bpe::symbols::{bpe_merge_symbols_with_scratch, MergeScratch};
use crate::bpe::vocab::{
    decoded, in_vocab, lemma_decoded_concat, lemma_decoded_one, lemma_merged_in_vocab,
    lemma_merged_keeps_bytes, rules_keep_bytes,
};
use crate::byte_map::ByteMap;
use crate::seqs::{byte_seqs, copy_bytes};
use crate::token::TokenId;

verus! {

/// What the tables of a tokenizer hold.
#[verifier::ext_equal]
pub struct ModelView {
    /// The token that a pair merges into.
    pub merges: Map<(TokenId, TokenId), TokenId>,
    /// The bytes of each token.
    pub vocab: Seq<Seq<u8>>,
    /// The token of a byte string.
    pub inv: Map<Seq<u8>, TokenId>,
    /// The token of each byte, where it is not the byte's value.
    pub remap: Option<Seq<TokenId>>,
}

/// The token of each of the first `n` entries of a vocabulary; of a byte string
/// that occurs twice, the later.
pub open spec fn vocab_inverse(vocab: Seq<Seq<u8>>, n: int) -> Map<Seq<u8>, TokenId>
    decreases n,
{
    if n <= 0 {
        Map::empty()
    } else {
        vocab_inverse(vocab, n - 1).insert(vocab[n - 1], TokenId((n - 1) as u32))
    }
}

/// What [`vocab_inverse`] gives for a byte string is the highest id with it.
pub proof fn lemma_vocab_inverse(vocab: Seq<Seq<u8>>, n: int, p: Seq<u8>)
    requires
        0 <= n <= vocab.len(),
        vocab.len() <= u32::MAX,
    ensures
        vocab_inverse(vocab, n).contains_key(p) <==> exists|i: int|
            0 <= i < n && #[trigger] vocab[i] == p,
        vocab_inverse(vocab, n).contains_key(p) ==> {
            let id = vocab_inverse(vocab, n)[p].0;
            &&& id < n
            &&& vocab[id as int] == p
            &&& forall|i: int| id < i < n ==> #[trigger] vocab[i] != p
        },
    decreases n,
{
    if n > 0 {
        lemma_vocab_inverse(vocab, n - 1, p);
        if vocab_inverse(vocab, n - 1).contains_key(p) {
            let i = choose|i: int| 0 <= i < n - 1 && #[trigger] vocab[i] == p;
            assert(vocab[i] == p);
        }
    }
}

/// The initial symbols of a pretoken.
pub open spec fn initial_symbols(remap: Option<Seq<TokenId>>, bytes: Seq<u8>) -> Seq<TokenId> {
    Seq::new(
        bytes.len(),
        |i: int|
            match remap {
                Some(table) => table[bytes[i] as int],
                None => TokenId(bytes[i] as u32),
            },
    )
}

/// Pieces one after the other.
pub open spec fn joined(pieces: Seq<Seq<TokenId>>) -> Seq<TokenId>
    decreases pieces.len(),
{
    if pieces.len() == 0 {
        Seq::empty()
    } else {
        joined(pieces.drop_last()) + pieces.last()
    }
}

pub proof fn lemma_joined_concat(a: Seq<Seq<TokenId>>, b: Seq<Seq<TokenId>>)
    ensures
        joined(a + b) == joined(a) + joined(b),
    decreases b.len(),
{
    if b.len() == 0 {
        assert(a + b =~= a);
        assert(joined(a) + Seq::<TokenId>::empty() =~= joined(a));
    } else {
        lemma_joined_concat(a, b.drop_last());
        assert((a + b).drop_last() =~= a + b.drop_last());
        assert((a + b).last() == b.last());
        assert(joined(a + b) =~= joined(a) + joined(b));
    }
}

pub proof fn lemma_joined_one(piece: Seq<TokenId>)
    ensures
        joined(seq![piece]) == piece,
{
    assert(seq![piece].drop_last() =~= Seq::<Seq<TokenId>>::empty());
    assert(joined(Seq::<Seq<TokenId>>::empty()) =~= Seq::<TokenId>::empty());
    assert(joined(seq![piece]) =~= piece);
}

/// A vocabulary with empty entries up to `n` of them.
pub open spec fn extended(vocab: Seq<Seq<u8>>, n: int) -> Seq<Seq<u8>> {
    Seq::new(
        if vocab.len() < n {
            n as nat
        } else {
            vocab.len()
        },
        |i: int|
            if i < vocab.len() {
                vocab[i]
            } else {
                Seq::empty()
            },
    )
}

impl ModelView {
    /// Whether an id has no content.
    pub open spec fn unassigned(self, id: TokenId) -> bool {
        id.0 >= self.vocab.len() || self.vocab[id.0 as int].len() == 0
    }

    /// The tables once `id` has been given `content`, where it had none.
    pub open spec fn assigned(self, content: Seq<u8>, id: TokenId) -> ModelView {
        let wide = extended(self.vocab, id.0 + 1);
        if self.unassigned(id) {
            ModelView {
                vocab: wide.update(id.0 as int, content),
                inv: self.inv.insert(content, id),
                ..self
            }
        } else {
            ModelView { vocab: wide, ..self }
        }
    }

    /// The encoding of one pretoken: its own token where the vocabulary has
    /// it, else its bytes' tokens, merged.
    pub open spec fn pretoken_tokens(self, bytes: Seq<u8>) -> Seq<TokenId> {
        if self.inv.contains_key(bytes) {
            seq![self.inv[bytes]]
        } else {
            bpe_merged(rules_by_id(self.merges), initial_symbols(self.remap, bytes))
        }
    }

    /// The encoding of each pretoken of a list.
    pub open spec fn pieces_of(self, pretokens: Seq<Seq<u8>>) -> Seq<Seq<TokenId>> {
        pretokens.map_values(|p: Seq<u8>| self.pretoken_tokens(p))
    }

    /// The encoding of a list of pretokens.
    pub open spec fn tokens_of(self, pretokens: Seq<Seq<u8>>) -> Seq<TokenId> {
        joined(self.pieces_of(pretokens))
    }

    /// The encoding of two lists, one after the other.
    pub proof fn lemma_tokens_concat(self, a: Seq<Seq<u8>>, b: Seq<Seq<u8>>)
        ensures
            self.pieces_of(a + b) == self.pieces_of(a) + self.pieces_of(b),
            self.tokens_of(a + b) == self.tokens_of(a) + self.tokens_of(b),
    {
        assert(self.pieces_of(a + b) =~= self.pieces_of(a) + self.pieces_of(b));
        lemma_joined_concat(self.pieces_of(a), self.pieces_of(b));
    }

    /// The encoding of one pretoken, as a list.
    pub proof fn lemma_tokens_one(self, p: Seq<u8>)
        ensures
            self.pieces_of(seq![p]) == seq![self.pretoken_tokens(p)],
            self.tokens_of(seq![p]) == self.pretoken_tokens(p),
    {
        assert(self.pieces_of(seq![p]) =~= seq![self.pretoken_tokens(p)]);
        lemma_joined_one(self.pretoken_tokens(p));
    }
}

/// Tables of a byte-level tokenizer.
pub struct Model {
    pub merges: MergeTable,
    pub vocab: Vec<Vec<u8>>,
    pub vocab_inv: ByteMap<TokenId>,
    pub byte_remapping: Option<ByteRemapping>,
}

/// The contents of an optional byte table.
pub open spec fn remap_view(r: Option<ByteRemapping>) -> Option<Seq<TokenId>> {
    match r {
        Some(b) => Some(b@),
        None => None,
    }
}

impl View for Model {
    type V = ModelView;

    open spec fn view(&self) -> ModelView {
        ModelView {
            merges: self.merges@,
            vocab: byte_seqs(self.vocab@),
            inv: self.vocab_inv@,
            remap: remap_view(self.byte_remapping),
        }
    }
}

/// A copy of a list of byte strings.
pub fn copy_vocab(vocab: &[Vec<u8>]) -> (r: Vec<Vec<u8>>)
    ensures
        byte_seqs(r@) == byte_seqs(vocab@),
{
    let mut r: Vec<Vec<u8>> = Vec::with_capacity(vocab.len());
    for i in 0..vocab.len()
        invariant
            r@.len() == i,
            forall|k: int| 0 <= k < i ==> (#[trigger] r@[k])@ == vocab@[k]@,
    {
        r.push(copy_bytes(vocab[i].as_slice()));
    }
    assert(byte_seqs(r@) =~= byte_seqs(vocab@));
    r
}

impl Model {
    /// The tables are in order, the reverse vocabulary agrees with the vocabulary,
    /// and ids fit in 32 bits.
    pub open spec fn wf(self) -> bool {
        &&& self.merges.wf()
        &&& self.vocab_inv.wf()
        &&& self.vocab@.len() <= u32::MAX
        &&& self@.inverse_agrees()
        &&& match self.byte_remapping {
            Some(b) => b.wf(),
            None => true,
        }
    }

    /// Tables with the reverse of `vocab`.
    pub fn new(
        merges: MergeTable,
        vocab: Vec<Vec<u8>>,
        byte_remapping: Option<ByteRemapping>,
    ) -> (m: Self)
        requires
            merges.wf(),
            vocab@.len() <= u32::MAX,
            byte_remapping matches Some(b) ==> b.wf(),
        ensures
            m.wf(),
            m@ == (ModelView {
                merges: merges@,
                vocab: byte_seqs(vocab@),
                inv: vocab_inverse(byte_seqs(vocab@), vocab@.len() as int),
                remap: remap_view(byte_remapping),
            }),
    {
        let vocab_inv: ByteMap<TokenId> = invert_vocab(vocab.as_slice());
        proof {
            let entries = byte_seqs(vocab@);
            assert forall|p: Seq<u8>| #[trigger] vocab_inv@.contains_key(p) implies vocab_inv@[p].0
                < entries.len() && entries[vocab_inv@[p].0 as int] == p by {
                lemma_vocab_inverse(entries, entries.len() as int, p);
            }
        }
        Model { merges, vocab, vocab_inv, byte_remapping }
    }

    /// A copy of the tables.
    pub fn copy(&self) -> (m: Self)
        requires
            self.wf(),
        ensures
            m.wf(),
            m@ == self@,
    {
        let vocab: Vec<Vec<u8>> = copy_vocab(self.vocab.as_slice());
        let byte_remapping: Option<ByteRemapping> = match &self.byte_remapping {
            Some(b) => Some(b.copy()),
            None => None,
        };
        proof {
            assert(byte_seqs(vocab@).len() == byte_seqs(self.vocab@).len());
        }
        let m = Model {
            merges: self.merges.copy(),
            vocab,
            vocab_inv: self.vocab_inv.copy(),
            byte_remapping,
        };
        assert(m@ =~= self@);
        m
    }

    /// Give the content of an id that has none, extending the vocabulary where
    /// the id lies outside it. Returns whether it had none.
    pub fn assign(&mut self, content: &[u8], id: TokenId) -> (r: bool)
        requires
            old(self).wf(),
            id.0 < u32::MAX,
        ensures
            final(self).wf(),
            final(self)@ == old(self)@.assigned(content@, id),
            r == old(self)@.unassigned(id),
    {
        let ghost before = self@;
        let idx: usize = id.index();
        let ghost n = self.vocab@.len();
        proof {
            before.lemma_assigned_agrees(content@, id);
        }
        while self.vocab.len() <= idx
            invariant
                self.merges.wf(),
                self.vocab_inv.wf(),
                self.vocab@.len() <= u32::MAX,
                match self.byte_remapping {
                    Some(b) => b.wf(),
                    None => true,
                },
                idx == id.0,
                idx < u32::MAX,
                self.vocab@.len() >= n,
                self.vocab@.len() <= idx + 1 || self.vocab@.len() == n,
                n == before.vocab.len(),
                self@.merges == before.merges,
                self@.inv == before.inv,
                self@.remap == before.remap,
                forall|k: int| 0 <= k < n ==> #[trigger] self@.vocab[k] == before.vocab[k],
                forall|k: int|
                    n <= k < self.vocab@.len() ==> #[trigger] self@.vocab[k]
                        == Seq::<u8>::empty(),
            decreases idx + 1 - self.vocab@.len(),
        {
            let ghost prior = self@.vocab;
            self.vocab.push(Vec::new());
            assert(self@.vocab =~= prior.push(Seq::<u8>::empty()));
        }
        let ghost wide = self@.vocab;
        assert(wide =~= extended(before.vocab, idx + 1));
        assert(wide[idx as int] == self.vocab@[idx as int]@);
        if self.vocab[idx].len() > 0 {
            assert(self@ =~= before.assigned(content@, id));
            return false;
        }
        assert(wide[idx as int] =~= Seq::<u8>::empty());
        self.vocab.set(idx, copy_bytes(content));
        self.vocab_inv.insert(content, id);
        assert(self@.vocab =~= wide.update(idx as int, content@));
        assert(self@ =~= before.assigned(content@, id));
        true
    }

    /// Encode one pretoken, without a cache.
    pub fn encode_pretoken(&self, bytes: &[u8], scratch: &mut MergeScratch) -> (symbols: Vec<TokenId>)
        requires
            self.wf(),
            old(scratch).wf(),
        ensures
            symbols@ == self@.pretoken_tokens(bytes@),
            final(scratch).wf(),
    {
        let mut symbols: Vec<TokenId> = Vec::with_capacity(bytes.len());
        if let Some(id) = self.vocab_inv.get(bytes) {
            symbols.push(id);
            assert(symbols@ =~= seq![id]);
            return symbols;
        }
        for i in 0..bytes.len()
            invariant
                self.wf(),
                symbols@.len() == i,
                forall|k: int|
                    0 <= k < i ==> #[trigger] symbols@[k] == initial_symbols(
                        self@.remap,
                        bytes@,
                    )[k],
        {
            let t: TokenId = match &self.byte_remapping {
                Some(b) => b.get(bytes[i]),
                None => TokenId(bytes[i] as u32),
            };
            symbols.push(t);
        }
        assert(symbols@ =~= initial_symbols(self@.remap, bytes@));
        bpe_merge_symbols_with_scratch(&self.merges, &mut symbols, scratch);
        symbols
    }
}

/// The reverse of a vocabulary.
pub fn invert_vocab(vocab: &[Vec<u8>]) -> (inv: ByteMap<TokenId>)
    requires
        vocab@.len() <= u32::MAX,
    ensures
        inv.wf(),
        inv@ == vocab_inverse(byte_seqs(vocab@), vocab@.len() as int),
{
    let mut inv: ByteMap<TokenId> = ByteMap::new();
    for i in 0..vocab.len()
        invariant
            vocab@.len() <= u32::MAX,
            inv.wf(),
            inv@ == vocab_inverse(byte_seqs(vocab@), i as int),
    {
        inv.insert(vocab[i].as_slice(), TokenId(i as u32));
        assert(byte_seqs(vocab@)[i as int] == vocab@[i as int]@);
    }
    inv
}

// ---------------------------------------------------------------------------
// What the tables must agree on
// ---------------------------------------------------------------------------

impl ModelView {
    /// The token of a byte.
    pub open spec fn byte_id(self, b: u8) -> TokenId {
        match self.remap {
            Some(table) => table[b as int],
            None => TokenId(b as u32),
        }
    }

    /// Whether the token of byte `b` stands for that byte.
    pub open spec fn byte_decodes(self, b: u8) -> bool {
        self.byte_id(b).0 < self.vocab.len() && self.vocab[self.byte_id(b).0 as int] == seq![b]
    }

    /// Whether the reverse vocabulary gives tokens that stand for their bytes.
    pub open spec fn inverse_agrees(self) -> bool {
        forall|p: Seq<u8>| #[trigger]
            self.inv.contains_key(p) && p.len() > 0 ==> self.inv[p].0 < self.vocab.len()
                && self.vocab[self.inv[p].0 as int] == p
    }

    /// Whether each merge yields a token of the pair's bytes.
    pub open spec fn merges_agree(self) -> bool {
        &&& rules_keep_bytes(rules_by_id(self.merges), self.vocab)
        &&& forall|p: (TokenId, TokenId)| #[trigger]
            self.merges.contains_key(p) ==> self.merges[p].0 < self.vocab.len()
    }

    /// Whether each merge yields the token of the pair's bytes, and the reverse
    /// vocabulary gives tokens that stand for their bytes.
    pub open spec fn consistent(self) -> bool {
        self.merges_agree() && self.inverse_agrees()
    }

    /// Whether merges are of and give tokens below `n` alone.
    pub open spec fn merges_below(self, n: int) -> bool {
        forall|p: (TokenId, TokenId)| #[trigger]
            self.merges.contains_key(p) ==> p.0.0 < n && p.1.0 < n && self.merges[p].0 < n
    }

    /// Giving an id behind those that merge its content keeps the tables in
    /// agreement.
    pub proof fn lemma_assigned_consistent(self, n: int, content: Seq<u8>, id: TokenId)
        requires
            self.consistent(),
            self.merges_below(n),
            n <= self.vocab.len(),
            n <= id.0,
        ensures
            self.assigned(content, id).consistent(),
            self.assigned(content, id).merges_below(n),
            n <= self.assigned(content, id).vocab.len(),
    {
        let after = self.assigned(content, id);
        let rules = rules_by_id(self.merges);
        self.lemma_assigned_agrees(content, id);
        assert forall|k: int| 0 <= k < n implies #[trigger] after.vocab[k] == self.vocab[k] by {}
        assert forall|p: (TokenId, TokenId)| #[trigger]
            rules.contains_key(p) implies after.vocab[rules[p].0.0 as int]
            == after.vocab[p.0.0 as int] + after.vocab[p.1.0 as int] by {
            assert(self.merges.contains_key(p));
        }
    }

    /// Giving an id its content keeps the reverse vocabulary in agreement.
    proof fn lemma_assigned_agrees(self, content: Seq<u8>, id: TokenId)
        requires
            self.inverse_agrees(),
        ensures
            self.assigned(content, id).inverse_agrees(),
    {
        let after = self.assigned(content, id);
        assert forall|p: Seq<u8>| #[trigger] after.inv.contains_key(p) && p.len()
            > 0 implies after.inv[p].0 < after.vocab.len() && after.vocab[after.inv[p].0 as int]
            == p by {
            if !(self.unassigned(id) && p == content) {
                assert(self.inv.contains_key(p));
            }
        }
    }

    /// Whether every byte of a text has a token that stands for it.
    pub open spec fn bytes_decode(self, s: Seq<u8>) -> bool {
        forall|i: int| 0 <= i < s.len() ==> self.byte_decodes(#[trigger] s[i])
    }

    proof fn lemma_initial_symbols_decode(self, p: Seq<u8>)
        requires
            self.bytes_decode(p),
        ensures
            in_vocab(self.vocab, initial_symbols(self.remap, p)),
            decoded(self.vocab, initial_symbols(self.remap, p)) == p,
        decreases p.len(),
    {
        let s = initial_symbols(self.remap, p);
        if p.len() > 0 {
            let init = p.drop_last();
            assert forall|i: int| 0 <= i < init.len() implies self.byte_decodes(
                #[trigger] init[i],
            ) by {
                assert(self.byte_decodes(p[i]));
            }
            self.lemma_initial_symbols_decode(init);
            assert(s.drop_last() =~= initial_symbols(self.remap, init));
            assert(self.byte_decodes(p.last()));
            assert(s.last() == self.byte_id(p.last()));
            assert(decoded(self.vocab, s) =~= init + seq![p.last()]);
            assert(init + seq![p.last()] =~= p);
            assert forall|i: int| 0 <= i < s.len() implies (#[trigger] s[i]).0
                < self.vocab.len() by {
                assert(self.byte_decodes(p[i]));
            }
        }
    }

    /// The tokens of a pretoken stand for its bytes.
    pub proof fn lemma_pretoken_round_trip(self, p: Seq<u8>)
        requires
            self.consistent(),
            p.len() > 0,
            self.bytes_decode(p),
        ensures
            in_vocab(self.vocab, self.pretoken_tokens(p)),
            decoded(self.vocab, self.pretoken_tokens(p)) == p,
    {
        if self.inv.contains_key(p) {
            lemma_decoded_one(self.vocab, self.inv[p]);
        } else {
            let rules = rules_by_id(self.merges);
            let s = initial_symbols(self.remap, p);
            self.lemma_initial_symbols_decode(p);
            lemma_merged_keeps_bytes(rules, self.vocab, s);
            assert forall|q: (TokenId, TokenId)| #[trigger]
                rules.contains_key(q) implies rules[q].0.0 < self.vocab.len() by {
                assert(self.merges.contains_key(q));
            }
            lemma_merged_in_vocab(rules, self.vocab, s);
        }
    }
}

// ---------------------------------------------------------------------------
// Merges from ranks
// ---------------------------------------------------------------------------

/// The symbols of a token's bytes: the low byte of each byte's token id.
pub open spec fn rank_symbols(inv: Map<Seq<u8>, TokenId>, bytes: Seq<u8>) -> Seq<TokenId> {
    Seq::new(bytes.len(), |i: int| TokenId((inv[seq![bytes[i]]].0 % 256) as u32))
}

/// Whether each byte of a token has a token of its own.
pub open spec fn bytes_known(inv: Map<Seq<u8>, TokenId>, bytes: Seq<u8>) -> bool {
    forall|i: int| 0 <= i < bytes.len() ==> inv.contains_key(seq![#[trigger] bytes[i]])
}

/// What token `i` falls apart into under the merges of the tokens before it.
pub open spec fn rank_parts(vocab: Seq<Seq<u8>>, inv: Map<Seq<u8>, TokenId>, i: int) -> Seq<TokenId>
    decreases i, 1int,
{
    bpe_merged(rules_by_id(rank_merges(vocab, inv, i)), rank_symbols(inv, vocab[i]))
}

/// The merges of the first `n` tokens of a vocabulary in rank order: each token
/// of two or more bytes is the merge of what it falls apart into.
pub open spec fn rank_merges(
    vocab: Seq<Seq<u8>>,
    inv: Map<Seq<u8>, TokenId>,
    n: int,
) -> Map<(TokenId, TokenId), TokenId>
    decreases n, 0int,
{
    if n <= 0 {
        Map::empty()
    } else if vocab[n - 1].len() < 2 {
        rank_merges(vocab, inv, n - 1)
    } else {
        let parts = rank_parts(vocab, inv, n - 1);
        rank_merges(vocab, inv, n - 1).insert((parts[0], parts[1]), TokenId((n - 1) as u32))
    }
}

/// Whether token `i` can be given a merge: it is a single byte or empty, or its
/// bytes are known and it falls apart into two.
pub open spec fn rank_ok(vocab: Seq<Seq<u8>>, inv: Map<Seq<u8>, TokenId>, i: int) -> bool {
    vocab[i].len() < 2 || (bytes_known(inv, vocab[i]) && rank_parts(vocab, inv, i).len() == 2)
}

/// Whether every token of a vocabulary in rank order can be given a merge.
pub open spec fn ranks_mergeable(vocab: Seq<Seq<u8>>) -> bool {
    forall|i: int|
        0 <= i < vocab.len() ==> #[trigger] rank_ok(
            vocab,
            vocab_inverse(vocab, vocab.len() as int),
            i,
        )
}

/// Every merge made from ranks yields the token of the pair's bytes, where the
/// tokens of the single bytes come first.
pub proof fn lemma_rank_merges_keep_bytes(vocab: Seq<Seq<u8>>, n: int)
    requires
        vocab.len() <= u32::MAX,
        0 <= n <= vocab.len(),
        ranks_mergeable(vocab),
        forall|b: u8| #[trigger]
            vocab_inverse(vocab, vocab.len() as int).contains_key(seq![b]) ==> vocab_inverse(
                vocab,
                vocab.len() as int,
            )[seq![b]].0 < 256,
    ensures
        ({
            let merges = rank_merges(vocab, vocab_inverse(vocab, vocab.len() as int), n);
            &&& rules_keep_bytes(rules_by_id(merges), vocab)
            &&& forall|p: (TokenId, TokenId)| #[trigger]
                merges.contains_key(p) ==> merges[p].0 < n && p.0.0 < vocab.len() && p.1.0
                    < vocab.len()
        }),
    decreases n,
{
    let inv = vocab_inverse(vocab, vocab.len() as int);
    if n > 0 {
        lemma_rank_merges_keep_bytes(vocab, n - 1);
        let before = rank_merges(vocab, inv, n - 1);
        let t = vocab[n - 1];
        assert(rank_ok(vocab, inv, n - 1));
        if t.len() >= 2 {
            let s = rank_symbols(inv, t);
            let parts = rank_parts(vocab, inv, n - 1);
            lemma_rank_symbols_decode(vocab, t);
            lemma_merged_keeps_bytes(rules_by_id(before), vocab, s);
            assert forall|p: (TokenId, TokenId)| #[trigger]
                rules_by_id(before).contains_key(p) implies rules_by_id(before)[p].0.0
                < vocab.len() by {
                assert(before.contains_key(p));
            }
            lemma_merged_in_vocab(rules_by_id(before), vocab, s);
            assert(parts[0].0 < vocab.len() && parts[1].0 < vocab.len());
            assert(parts =~= seq![parts[0]] + seq![parts[1]]);
            lemma_decoded_concat(vocab, seq![parts[0]], seq![parts[1]]);
            lemma_decoded_one(vocab, parts[0]);
            lemma_decoded_one(vocab, parts[1]);
            let rules = rules_by_id(rank_merges(vocab, inv, n));
            assert forall|p: (TokenId, TokenId)| #[trigger]
                rules.contains_key(p) implies vocab[rules[p].0.0 as int] == vocab[p.0.0 as int]
                + vocab[p.1.0 as int] by {
                if p != (parts[0], parts[1]) {
                    assert(rules_by_id(before).contains_key(p));
                }
            }
        }
    }
}

proof fn lemma_rank_symbols_decode(vocab: Seq<Seq<u8>>, t: Seq<u8>)
    requires
        vocab.len() <= u32::MAX,
        bytes_known(vocab_inverse(vocab, vocab.len() as int), t),
        forall|b: u8| #[trigger]
            vocab_inverse(vocab, vocab.len() as int).contains_key(seq![b]) ==> vocab_inverse(
                vocab,
                vocab.len() as int,
            )[seq![b]].0 < 256,
    ensures
        decoded(vocab, rank_symbols(vocab_inverse(vocab, vocab.len() as int), t)) == t,
        in_vocab(vocab, rank_symbols(vocab_inverse(vocab, vocab.len() as int), t)),
    decreases t.len(),
{
    let inv = vocab_inverse(vocab, vocab.len() as int);
    let s = rank_symbols(inv, t);
    if t.len() > 0 {
        let init = t.drop_last();
        assert forall|i: int| 0 <= i < init.len() implies inv.contains_key(
            seq![#[trigger] init[i]],
        ) by {
            assert(inv.contains_key(seq![t[i]]));
        }
        lemma_rank_symbols_decode(vocab, init);
        assert(s.drop_last() =~= rank_symbols(inv, init));
        let b = t[t.len() - 1];
        assert(inv.contains_key(seq![b]));
        lemma_vocab_inverse(vocab, vocab.len() as int, seq![b]);
        assert(inv[seq![b]].0 % 256 == inv[seq![b]].0);
        assert(init + seq![b] =~= t);
        assert forall|i: int| 0 <= i < s.len() implies (#[trigger] s[i]).0 < vocab.len() by {
            if i < init.len() {
                assert(s[i] == rank_symbols(inv, init)[i]);
            }
        }
    }
}

/// The token that cannot be given a merge.
#[derive(Debug, Clone, Copy, PartialEq, Eq, Structural)]
pub struct Unmergeable(pub u32);

/// Given a list of tokens in rank order (by merge order), reconstruct the
/// merges. An error names the first token that does not fall apart into two
/// tokens before it.
pub fn merges_from_ranks(vocab: &[Vec<u8>]) -> (r: Result<MergeTable, Unmergeable>)
    requires
        vocab@.len() <= u32::MAX,
    ensures
        match r {
            Ok(m) => {
                &&& m.wf()
                &&& ranks_mergeable(byte_seqs(vocab@))
                &&& m@ == rank_merges(
                    byte_seqs(vocab@),
                    vocab_inverse(byte_seqs(vocab@), vocab@.len() as int),
                    vocab@.len() as int,
                )
            },
            Err(Unmergeable(i)) => {
                let inv = vocab_inverse(byte_seqs(vocab@), vocab@.len() as int);
                &&& i < vocab@.len()
                &&& !rank_ok(byte_seqs(vocab@), inv, i as int)
                &&& forall|j: int| 0 <= j < i ==> #[trigger] rank_ok(byte_seqs(vocab@), inv, j)
            },
        },
{
    let ghost entries = byte_seqs(vocab@);
    let vocab_inv: ByteMap<TokenId> = invert_vocab(vocab);
    let ghost inv = vocab_inv@;
    let mut merges: MergeTable = MergeTable::new();
    let mut scratch: MergeScratch = MergeScratch::new();
    for i in 0..vocab.len()
        invariant
            vocab@.len() <= u32::MAX,
            entries == byte_seqs(vocab@),
            vocab_inv.wf(),
            inv == vocab_inv@,
            inv == vocab_inverse(entries, vocab@.len() as int),
            merges.wf(),
            scratch.wf(),
            merges@ == rank_merges(entries, inv, i as int),
            forall|j: int| 0 <= j < i ==> #[trigger] rank_ok(entries, inv, j),
    {
        let bytes: &[u8] = vocab[i].as_slice();
        assert(entries[i as int] == bytes@);
        if bytes.len() >= 2 {
            let mut symbols: Vec<TokenId> = Vec::with_capacity(bytes.len());
            for k in 0..bytes.len()
                invariant
                    vocab@.len() <= u32::MAX,
                    i < vocab@.len(),
                    entries == byte_seqs(vocab@),
                    entries[i as int] == bytes@,
                    bytes@.len() >= 2,
                    vocab_inv.wf(),
                    inv == vocab_inv@,
                    inv == vocab_inverse(entries, vocab@.len() as int),
                    forall|j: int| 0 <= j < i ==> #[trigger] rank_ok(entries, inv, j),
                    symbols@.len() == k,
                    forall|j: int|
                        0 <= j < k ==> #[trigger] symbols@[j] == rank_symbols(inv, bytes@)[j],
                    forall|j: int| 0 <= j < k ==> inv.contains_key(seq![#[trigger] bytes@[j]]),
            {
                let one: Vec<u8> = single(bytes[k]);
                match vocab_inv.get(one.as_slice()) {
                    Some(id) => symbols.push(TokenId(id.0 % 256)),
                    None => {
                        assert(!inv.contains_key(seq![bytes@[k as int]]));
                        return Err(Unmergeable(i as u32));
                    },
                }
            }
            assert(symbols@ =~= rank_symbols(inv, bytes@));
            bpe_merge_symbols_with_scratch(&merges, &mut symbols, &mut scratch);
            assert(symbols@ == rank_parts(entries, inv, i as int));
            if symbols.len() != 2 {
                return Err(Unmergeable(i as u32));
            }
            merges.insert(symbols[0], symbols[1], TokenId(i as u32));
        }
        assert(rank_ok(entries, inv, i as int));
    }
    Ok(merges)
}

/// A byte string of one byte.
pub fn single(b: u8) -> (v: Vec<u8>)
    ensures
        v@ == seq![b],
{
    let mut v: Vec<u8> = Vec::new();
    v.push(b);
    assert(v@ =~= seq![b]);
    v
}

} // verus!
