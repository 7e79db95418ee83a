//! A tokenizer that mirrors SentencePiece BPE with byte fallback.

use vstd::prelude::*;
use vstd::utf8::{encode_utf8, valid_utf8};

use crate::bpe::merge::{MergeLookup, RankedMergeTable};
use crate::bpe::ranked::{lemma_rank_sorted_covers, rank_sorted, sort_by_rank};
use crate::bpe::symbols::bpe_merge_symbols_ranked;
use crate::bpe::tiktoken::byte_pair_views;
use crate::bpe::values::append_tokens;
use crate::bpe::vocab::{assigned_entries, entry_views, vocab_entries};
use crate::byte_map::ByteMap;
use crate::pretokenize::scan::{char_at, width_at};
use crate::sentencepiece::charsmap::PrecompiledCharsmap;
use crate::sentencepiece::matching::TokenSpecs;
use crate::sentencepiece::model::{
    has_adjacent, mark, mark_char_at, mark_inside, marks_spaces, metaspaced, prepends_mark,
    steps_applied, Metaspace, NormStep, PrependScheme, RawPrepend, SpModel, WordSplit,
};
use crate::seqs::{append_bytes, byte_seqs, bytes_equal, copy_bytes};
use crate::strings::{collapse_space_runs, ink_len, replace_bytes, skip_spaces, trimmed_end};
use crate::text::{text_of, text_of_lossy};
use crate::token::TokenId;

verus! {

/// One step of a `normalizer` sequence, applied in order to each text chunk
/// between added tokens.
pub enum NormOp {
    /// `Prepend`: unconditional prefix. Empty chunks stay empty.
    Prepend(String),
    /// `Replace` with a literal `String` pattern.
    Replace { pattern: String, content: String },
    /// Each run of 2+ ASCII spaces becomes `content`.
    CollapseSpaces { content: String },
    /// `Strip` Unicode whitespace.
    Strip { left: bool, right: bool },
    /// `Precompiled` charsmap.
    Precompiled(PrecompiledCharsmap),
}

impl View for NormOp {
    type V = NormStep;

    open spec fn view(&self) -> NormStep {
        match *self {
            NormOp::Prepend(prefix) => NormStep::Prepend(encode_utf8(prefix@)),
            NormOp::Replace { pattern, content } => NormStep::Replace {
                pattern: encode_utf8(pattern@),
                content: encode_utf8(content@),
            },
            NormOp::CollapseSpaces { content } => NormStep::CollapseSpaces {
                content: encode_utf8(content@),
            },
            NormOp::Strip { left, right } => NormStep::Strip { left, right },
            NormOp::Precompiled(charsmap) => NormStep::Precompiled(charsmap@),
        }
    }
}

impl NormOp {
    /// A charsmap is in order.
    pub open spec fn wf(self) -> bool {
        match self {
            NormOp::Precompiled(charsmap) => charsmap.wf(),
            _ => true,
        }
    }

    /// What a text becomes.
    pub fn apply(&self, s: Vec<u8>) -> (r: Vec<u8>)
        requires
            self.wf(),
        ensures
            r@ == self@.applied(s@),
    {
        match self {
            NormOp::Prepend(prefix) => {
                if s.len() == 0 {
                    return s;
                }
                let mut out: Vec<u8> = copy_bytes(prefix.as_str().as_bytes());
                append_bytes(&mut out, s.as_slice());
                out
            },
            NormOp::Replace { pattern, content } => replace_bytes(
                s.as_slice(),
                pattern.as_str().as_bytes(),
                content.as_str().as_bytes(),
            ),
            NormOp::CollapseSpaces { content } => collapse_space_runs(
                s.as_slice(),
                content.as_str().as_bytes(),
            ),
            NormOp::Strip { left, right } => {
                let n: usize = s.len();
                let start: usize = if *left {
                    skip_spaces(s.as_slice(), 0)
                } else {
                    0
                };
                let ghost t = s@.subrange(start as int, n as int);
                proof {
                    assert(s@.subrange(0, n as int) =~= s@);
                    assert(t =~= s@.skip(start as int));
                }
                let rest: &[u8] = &s[start..n];
                if *right {
                    let len: usize = ink_len(rest);
                    assert(rest@.subrange(0, len as int) =~= trimmed_end(rest@));
                    copy_bytes(&rest[0..len])
                } else {
                    copy_bytes(rest)
                }
            },
            NormOp::Precompiled(charsmap) => {
                if text_of(s.as_slice()).is_none() {
                    return s;
                }
                let mut out: Vec<u8> = Vec::new();
                charsmap.normalize_into(s.as_slice(), &mut out);
                assert(out@ =~= self@.applied(s@));
                out
            },
        }
    }
}

/// The steps of a list of operations.
pub open spec fn step_views(ops: Seq<NormOp>) -> Seq<NormStep> {
    ops.map_values(|o: NormOp| o@)
}

/// What a text becomes under operations in order.
pub fn apply_norm_ops(ops: &[NormOp], input: &[u8]) -> (r: Vec<u8>)
    requires
        forall|i: int| 0 <= i < ops@.len() ==> (#[trigger] ops@[i]).wf(),
    ensures
        r@ == steps_applied(step_views(ops@), input@),
{
    let ghost steps = step_views(ops@);
    let mut s: Vec<u8> = copy_bytes(input);
    assert(steps.take(0) =~= Seq::<NormStep>::empty());
    for i in 0..ops.len()
        invariant
            steps == step_views(ops@),
            forall|i: int| 0 <= i < ops@.len() ==> (#[trigger] ops@[i]).wf(),
            s@ == steps_applied(steps.take(i as int), input@),
    {
        proof {
            let t = steps.take(i as int + 1);
            assert(t.drop_last() =~= steps.take(i as int));
            assert(t.last() == ops@[i as int]@);
        }
        s = ops[i].apply(s);
    }
    assert(steps.take(ops@.len() as int) =~= steps);
    s
}

/// The space marker in UTF-8.
fn mark_bytes() -> (r: [u8; 3])
    ensures
        r@ == mark(),
{
    let r: [u8; 3] = [0xE2, 0x96, 0x81];
    assert(r@ =~= mark());
    r
}

/// Whether a space marker stands at `p`.
pub fn is_mark_char(s: &[u8], p: usize) -> (r: bool)
    ensures
        r == mark_char_at(s@, p as int),
{
    let n: usize = s.len();
    n >= 3 && p <= n - 3 && s[p] == 0xE2 && s[p + 1] == 0x96 && s[p + 2] == 0x81
}

/// The Metaspace pre-tokenizer's space replacement and prepend.
pub fn apply_metaspace(metaspace: Option<Metaspace>, input: &[u8], first_chunk: bool) -> (r: Vec<u8>)
    ensures
        r@ == metaspaced(metaspace, input@, first_chunk),
{
    match metaspace {
        None => copy_bytes(input),
        Some(ms) => {
            let space: [u8; 1] = [0x20];
            assert(space@ =~= seq![0x20u8]);
            let m: [u8; 3] = mark_bytes();
            let s: Vec<u8> = replace_bytes(input, &space, &m);
            let prepend: bool = match ms.prepend {
                PrependScheme::Always => true,
                PrependScheme::First => first_chunk,
                PrependScheme::Never => false,
            };
            if prepend && s.len() > 0 && !is_mark_char(s.as_slice(), 0) {
                let mut out: Vec<u8> = copy_bytes(&m);
                append_bytes(&mut out, s.as_slice());
                out
            } else {
                s
            }
        },
    }
}

/// A tokenizer that mirrors SentencePiece BPE with `byte_fallback`.
///
/// This struct holds the immutable model data (vocab, merges, added tokens,
/// normalizer configuration). For encoding, create an encoder, which processes
/// text through normalize, character init and BPE merge.
pub struct SentencePieceBPE {
    merges: RankedMergeTable,
    vocab: Vec<Vec<u8>>,
    vocab_inv: ByteMap<TokenId>,
    byte_fallback_ids: Vec<Option<TokenId>>,
    added_tokens: TokenSpecs,
    norm_added_tokens: TokenSpecs,
    norm_ops: Vec<NormOp>,
    metaspace: Option<Metaspace>,
    /// Unit-splitting mode.
    word_split: WordSplit,
    /// `Some` when the whole normalizer pipeline reduces to an optional mark
    /// prepend and space to mark, so that encoding can split raw text directly.
    raw_prepend: Option<RawPrepend>,
    /// Initial symbol(s) for the space marker.
    space_init: Vec<TokenId>,
    /// Initial symbol for each ASCII char.
    ascii_init: Vec<Option<TokenId>>,
    /// Which bytes stand right before which in a vocab piece.
    adjacent: Vec<bool>,
}

/// Whether `x` stands right before `y` in one of the first `n` pieces.
spec fn adjacent_in(vocab: Seq<Seq<u8>>, n: int, x: u8, y: u8) -> bool {
    exists|k: int| 0 <= k < n && has_adjacent(#[trigger] vocab[k], x, y)
}

/// The place of a pair of bytes in a table.
spec fn slot(x: u8, y: u8) -> int {
    x as int * 256 + y as int
}

/// Whether a table says which bytes stand right before which in the first `n`
/// pieces.
spec fn table_says(table: Seq<bool>, vocab: Seq<Seq<u8>>, n: int) -> bool {
    &&& table.len() == 0x1_0000
    &&& forall|x: u8, y: u8| table[#[trigger] slot(x, y)] == adjacent_in(vocab, n, x, y)
}

impl View for SentencePieceBPE {
    type V = SpModel;

    closed spec fn view(&self) -> SpModel {
        SpModel {
            rules: self.merges@,
            vocab: byte_seqs(self.vocab@),
            inv: self.vocab_inv@,
            fallback: self.byte_fallback_ids@,
            added: self.added_tokens@,
            norm_added: self.norm_added_tokens@,
            steps: step_views(self.norm_ops@),
            metaspace: self.metaspace,
        }
    }
}

impl SentencePieceBPE {
    /// The tables are in order, and what was computed from them is right.
    pub closed spec fn wf(self) -> bool {
        &&& self.parts_wf()
        &&& self.word_split == self@.word_split()
        &&& self.raw_prepend == self@.raw_prepend()
        &&& self.space_init@ == self@.char_symbols(mark())
        &&& self.ascii_init@.len() == 128
        &&& forall|b: int|
            0 <= b < 128 ==> (match #[trigger] self.ascii_init@[b] {
                Some(id) => self@.char_symbols(seq![b as u8]) == seq![id],
                None => self@.char_symbols(seq![b as u8]) == Seq::<TokenId>::empty(),
            })
        &&& table_says(self.adjacent@, self@.vocab, self@.vocab.len() as int)
    }

    /// The tables are in order.
    closed spec fn parts_wf(self) -> bool {
        &&& self.merges.wf()
        &&& self.vocab@.len() <= u32::MAX
        &&& self.vocab_inv.wf()
        &&& self.byte_fallback_ids@.len() == 256
        &&& self.added_tokens.wf()
        &&& self.norm_added_tokens.wf()
        &&& forall|i: int| 0 <= i < self.norm_ops@.len() ==> (#[trigger] self.norm_ops@[i]).wf()
    }

    /// The tokens of bytes through byte fallback.
    fn push_fallback(&self, bytes: &[u8], symbols: &mut Vec<TokenId>)
        requires
            self.byte_fallback_ids@.len() == 256,
        ensures
            final(symbols)@ == old(symbols)@ + self@.fallback_tokens(bytes@),
    {
        let ghost before = symbols@;
        assert(bytes@.take(0) =~= Seq::<u8>::empty());
        assert(symbols@ =~= before + self@.fallback_tokens(bytes@.take(0)));
        for i in 0..bytes.len()
            invariant
                self.byte_fallback_ids@.len() == 256,
                symbols@ == before + self@.fallback_tokens(bytes@.take(i as int)),
        {
            proof {
                let t = bytes@.take(i as int + 1);
                assert(t.drop_last() =~= bytes@.take(i as int));
                assert(t.last() == bytes@[i as int]);
            }
            let ghost prior = symbols@;
            match self.byte_fallback_ids[bytes[i] as usize] {
                Some(id) => {
                    symbols.push(id);
                    assert(symbols@ =~= prior + seq![id]);
                },
                None => {
                    assert(symbols@ =~= prior + Seq::<TokenId>::empty());
                },
            }
            assert(symbols@ =~= before + self@.fallback_tokens(bytes@.take(i as int + 1)));
        }
        assert(bytes@.take(bytes@.len() as int) =~= bytes@);
    }

    /// The initial symbols of a character.
    fn push_char_symbols(&self, ch: &[u8], symbols: &mut Vec<TokenId>)
        requires
            self.byte_fallback_ids@.len() == 256,
            self.vocab_inv.wf(),
        ensures
            final(symbols)@ == old(symbols)@ + self@.char_symbols(ch@),
    {
        let ghost before = symbols@;
        match self.vocab_inv.get(ch) {
            Some(id) => {
                symbols.push(id);
                assert(symbols@ =~= before + seq![id]);
            },
            None => self.push_fallback(ch, symbols),
        }
    }

    /// Character init: each char's vocab piece, or its UTF-8 bytes through
    /// byte fallback. In raw mode spaces initialize as the space marker.
    pub fn init_symbols(&self, text: &[u8], raw: bool) -> (symbols: Vec<TokenId>)
        requires
            self.wf(),
        ensures
            symbols@ == self@.symbols_from(text@, 0, raw),
    {
        let mut symbols: Vec<TokenId> = Vec::with_capacity(text.len());
        let n: usize = text.len();
        let mut pos: usize = 0;
        while pos < n
            invariant
                self.wf(),
                n == text@.len(),
                pos <= n,
                symbols@ + self@.symbols_from(text@, pos as int, raw) =~= self@.symbols_from(
                    text@,
                    0,
                    raw,
                ),
            decreases n - pos,
        {
            let b: u8 = text[pos];
            let ghost prior = symbols@;
            if b < 0x80 {
                assert(width_at(text@, pos as int) == 1);
                assert(text@.subrange(pos as int, pos + 1) =~= seq![b]);
                if raw && b == 0x20 {
                    append_tokens(&mut symbols, self.space_init.as_slice());
                } else {
                    match self.ascii_init[b as usize] {
                        Some(id) => {
                            symbols.push(id);
                            assert(symbols@ =~= prior + seq![id]);
                        },
                        None => {
                            assert(symbols@ =~= prior + Seq::<TokenId>::empty());
                        },
                    }
                }
                pos = pos + 1;
            } else {
                let (_, w): (_, usize) = char_at(text, pos);
                self.push_char_symbols(&text[pos..pos + w], &mut symbols);
                pos = pos + w;
            }
        }
        symbols
    }
}

/// Whether a piece has a mark behind another char.
fn has_mark_inside(piece: &[u8]) -> (r: bool)
    ensures
        r == mark_inside(piece@, 0, true),
{
    let n: usize = piece.len();
    let mut i: usize = 0;
    let mut prev: bool = true;
    while i < n
        invariant
            n == piece@.len(),
            i <= n,
            mark_inside(piece@, i as int, prev) == mark_inside(piece@, 0, true),
        decreases n - i,
    {
        let (_, w): (_, usize) = char_at(piece, i);
        if is_mark_char(piece, i) {
            if !prev {
                return true;
            }
            prev = true;
            i = i + 3;
        } else {
            prev = false;
            i = i + w;
        }
    }
    false
}

/// Whether a text is one space.
fn is_space_text(s: &String) -> (r: bool)
    ensures
        r == (encode_utf8(s@) == seq![0x20u8]),
{
    let space: [u8; 1] = [0x20];
    assert(space@ =~= seq![0x20u8]);
    bytes_equal(s.as_str().as_bytes(), &space)
}

/// Whether a text is the space marker.
fn is_mark_text(s: &String) -> (r: bool)
    ensures
        r == (encode_utf8(s@) == mark()),
{
    let m: [u8; 3] = mark_bytes();
    bytes_equal(s.as_str().as_bytes(), &m)
}

impl NormOp {
    /// Whether this prepends a mark.
    fn prepends_mark(&self) -> (r: bool)
        ensures
            r == prepends_mark(self@),
    {
        match self {
            NormOp::Prepend(prefix) => is_mark_text(prefix),
            _ => false,
        }
    }

    /// Whether this makes each space a mark.
    fn marks_spaces(&self) -> (r: bool)
        ensures
            r == marks_spaces(self@),
    {
        match self {
            NormOp::Replace { pattern, content } => is_space_text(pattern) && is_mark_text(content),
            _ => false,
        }
    }
}

/// Which bytes stand right before which in the pieces of a vocabulary.
fn adjacent_bytes(vocab: &[Vec<u8>]) -> (r: Vec<bool>)
    ensures
        table_says(r@, byte_seqs(vocab@), vocab@.len() as int),
{
    let ghost pieces = byte_seqs(vocab@);
    let mut r: Vec<bool> = Vec::with_capacity(0x1_0000);
    for i in 0..0x1_0000usize
        invariant
            r@.len() == i,
            forall|j: int| 0 <= j < i ==> !#[trigger] r@[j],
    {
        r.push(false);
    }
    assert(table_says(r@, pieces, 0)) by {
        assert forall|x: u8, y: u8| r@[#[trigger] slot(x, y)] == adjacent_in(pieces, 0, x, y) by {
            assert(0 <= slot(x, y) < 0x1_0000);
        }
    }
    for k in 0..vocab.len()
        invariant
            pieces == byte_seqs(vocab@),
            table_says(r@, pieces, k as int),
    {
        note_adjacent(&mut r, vocab[k].as_slice(), Ghost(pieces), Ghost(k as int));
    }
    r
}

/// Note which bytes stand right before which in one more piece.
fn note_adjacent(r: &mut Vec<bool>, piece: &[u8], pieces: Ghost<Seq<Seq<u8>>>, k: Ghost<int>)
    requires
        0 <= k@ < pieces@.len(),
        piece@ == pieces@[k@],
        table_says(old(r)@, pieces@, k@),
    ensures
        table_says(final(r)@, pieces@, k@ + 1),
{
    let ghost before = r@;
    let n: usize = piece.len();
    let mut i: usize = 0;
    while n > 0 && i < n - 1
        invariant
            n == piece@.len(),
            i <= n,
            before.len() == 0x1_0000,
            r@.len() == 0x1_0000,
            forall|x: u8, y: u8|
                r@[#[trigger] slot(x, y)] == (before[slot(x, y)] || exists|j: int|
                    0 <= j < i && j + 1 < n && #[trigger] piece@[j] == x && piece@[j + 1] == y),
        decreases n - i,
    {
        let a: u8 = piece[i];
        let b: u8 = piece[i + 1];
        let at: usize = a as usize * 256 + b as usize;
        let ghost prior = r@;
        r.set(at, true);
        proof {
            assert forall|x: u8, y: u8|
                r@[#[trigger] slot(x, y)] == (before[slot(x, y)] || exists|j: int|
                    0 <= j < i + 1 && j + 1 < n && #[trigger] piece@[j] == x && piece@[j + 1]
                        == y) by {
                assert(0 <= slot(x, y) < 0x1_0000);
                if x == a && y == b {
                    assert(piece@[i as int] == x && piece@[i + 1] == y);
                } else {
                    assert(slot(x, y) != at);
                    assert(r@[slot(x, y)] == prior[slot(x, y)]);
                }
            }
        }
        i = i + 1;
    }
    proof {
        assert forall|x: u8, y: u8|
            r@[#[trigger] slot(x, y)] == adjacent_in(pieces@, k@ + 1, x, y) by {
            assert(before[slot(x, y)] == adjacent_in(pieces@, k@, x, y));
            if adjacent_in(pieces@, k@ + 1, x, y) {
                let j = choose|j: int|
                    0 <= j < k@ + 1 && has_adjacent(#[trigger] pieces@[j], x, y);
                if j < k@ {
                    assert(has_adjacent(pieces@[j], x, y));
                } else {
                    let m = choose|m: int|
                        0 <= m && m + 1 < pieces@[j].len() && #[trigger] pieces@[j][m] == x
                            && pieces@[j][m + 1] == y;
                    assert(piece@[m] == x);
                }
            }
            if adjacent_in(pieces@, k@, x, y) {
                let j = choose|j: int| 0 <= j < k@ && has_adjacent(#[trigger] pieces@[j], x, y);
                assert(has_adjacent(pieces@[j], x, y));
            }
            if exists|j: int|
                0 <= j < i && j + 1 < n && #[trigger] piece@[j] == x && piece@[j + 1] == y {
                let j = choose|j: int|
                    0 <= j < i && j + 1 < n && #[trigger] piece@[j] == x && piece@[j + 1] == y;
                assert(pieces@[k@][j] == x && pieces@[k@][j + 1] == y);
                assert(has_adjacent(pieces@[k@], x, y));
            }
        }
    }
}

impl SentencePieceBPE {
    /// Assemble a model, computing the encode fast-path configuration from its
    /// parts.
    pub fn new(
        merges: RankedMergeTable,
        vocab: Vec<Vec<u8>>,
        vocab_inv: ByteMap<TokenId>,
        byte_fallback_ids: Vec<Option<TokenId>>,
        added_tokens: TokenSpecs,
        norm_added_tokens: TokenSpecs,
        norm_ops: Vec<NormOp>,
        metaspace: Option<Metaspace>,
    ) -> (r: Self)
        requires
            merges.wf(),
            vocab@.len() <= u32::MAX,
            vocab_inv.wf(),
            byte_fallback_ids@.len() == 256,
            added_tokens.wf(),
            norm_added_tokens.wf(),
            forall|i: int| 0 <= i < norm_ops@.len() ==> (#[trigger] norm_ops@[i]).wf(),
        ensures
            r.wf(),
            r@ == (SpModel {
                rules: merges@,
                vocab: byte_seqs(vocab@),
                inv: vocab_inv@,
                fallback: byte_fallback_ids@,
                added: added_tokens@,
                norm_added: norm_added_tokens@,
                steps: step_views(norm_ops@),
                metaspace,
            }),
    {
        let adjacent: Vec<bool> = adjacent_bytes(vocab.as_slice());
        let mut r = SentencePieceBPE {
            merges,
            vocab,
            vocab_inv,
            byte_fallback_ids,
            added_tokens,
            norm_added_tokens,
            norm_ops,
            metaspace,
            word_split: WordSplit::Whole,
            raw_prepend: None,
            space_init: Vec::new(),
            ascii_init: Vec::new(),
            adjacent,
        };
        r.finalize_speed_paths();
        r
    }

    /// Compute the encode fast-path configuration from the assembled model.
    fn finalize_speed_paths(&mut self)
        requires
            old(self).parts_wf(),
            table_says(old(self).adjacent@, old(self)@.vocab, old(self)@.vocab.len() as int),
        ensures
            final(self).wf(),
            final(self)@ == old(self)@,
    {
        let ghost m = self@;
        let mut space_init: Vec<TokenId> = Vec::new();
        let mark3: [u8; 3] = mark_bytes();
        self.push_char_symbols(&mark3, &mut space_init);
        assert(space_init@ =~= m.char_symbols(mark()));
        let mut ascii_init: Vec<Option<TokenId>> = Vec::with_capacity(128);
        for b in 0..128u8
            invariant
                self.parts_wf(),
                m == self@,
                ascii_init@.len() == b,
                forall|c: int|
                    0 <= c < b ==> (match #[trigger] ascii_init@[c] {
                        Some(id) => m.char_symbols(seq![c as u8]) == seq![id],
                        None => m.char_symbols(seq![c as u8]) == Seq::<TokenId>::empty(),
                    }),
        {
            let one: [u8; 1] = [b];
            assert(one@ =~= seq![b]);
            let t: Option<TokenId> = match self.vocab_inv.get(&one) {
                Some(id) => Some(id),
                None => self.byte_fallback_ids[b as usize],
            };
            proof {
                assert(seq![b].drop_last() =~= Seq::<u8>::empty());
                assert(m.fallback_tokens(Seq::<u8>::empty()) =~= Seq::<TokenId>::empty());
                if !m.inv.contains_key(seq![b]) {
                    match m.fallback[b as int] {
                        Some(id) => {
                            assert(m.fallback_tokens(seq![b]) =~= seq![id]);
                        },
                        None => {
                            assert(m.fallback_tokens(seq![b]) =~= Seq::<TokenId>::empty());
                        },
                    }
                }
            }
            ascii_init.push(t);
        }
        let splits: bool = match self.metaspace {
            Some(ms) => ms.split,
            None => false,
        };
        let word_split: WordSplit = if splits {
            WordSplit::EveryMark
        } else if self.vocab_units_are_merge_safe() {
            WordSplit::SpaceRuns
        } else {
            WordSplit::Whole
        };
        let raw_prepend: Option<RawPrepend> = self.compute_raw_prepend(word_split);
        self.space_init = space_init;
        self.ascii_init = ascii_init;
        self.word_split = word_split;
        self.raw_prepend = raw_prepend;
        assert(self@ =~= m);
    }

    /// Whether every vocab piece stays inside one unit: no piece may contain a
    /// mark that follows another char.
    fn vocab_units_are_merge_safe(&self) -> (r: bool)
        ensures
            r == self@.units_merge_safe(),
    {
        for k in 0..self.vocab.len()
            invariant
                forall|j: int|
                    0 <= j < k && valid_utf8(#[trigger] self@.vocab[j]) ==> !mark_inside(
                        self@.vocab[j],
                        0,
                        true,
                    ),
        {
            let piece: &[u8] = self.vocab[k].as_slice();
            assert(self@.vocab[k as int] == piece@);
            if text_of(piece).is_some() && has_mark_inside(piece) {
                return false;
            }
        }
        true
    }

    /// Raw-fast-path eligibility.
    fn compute_raw_prepend(&self, word_split: WordSplit) -> (r: Option<RawPrepend>)
        requires
            word_split == self@.word_split(),
        ensures
            r == self@.raw_prepend(),
    {
        if word_split == WordSplit::Whole || self.norm_added_tokens.len() > 0 {
            return None;
        }
        let from_metaspace: RawPrepend = match self.metaspace {
            None => RawPrepend::Never,
            Some(ms) => match ms.prepend {
                PrependScheme::Never => RawPrepend::Never,
                PrependScheme::Always => RawPrepend::GuardedAlways,
                PrependScheme::First => RawPrepend::GuardedFirst,
            },
        };
        let n: usize = self.norm_ops.len();
        assert(self@.steps.len() == n);
        if n == 2 {
            assert(self@.steps[0] == self.norm_ops@[0]@);
            assert(self@.steps[1] == self.norm_ops@[1]@);
            if self.norm_ops[0].prepends_mark() && self.norm_ops[1].marks_spaces() {
                return if word_split == WordSplit::EveryMark {
                    None
                } else {
                    Some(RawPrepend::Unguarded)
                };
            }
        }
        if n == 1 {
            assert(self@.steps[0] == self.norm_ops@[0]@);
            if self.norm_ops[0].marks_spaces() {
                return Some(from_metaspace);
            }
        }
        if n == 0 && self.metaspace.is_some() {
            return Some(from_metaspace);
        }
        None
    }
}

impl SentencePieceBPE {
    /// How text divides into units.
    pub fn word_split(&self) -> (r: WordSplit)
        requires
            self.wf(),
        ensures
            r == self@.word_split(),
    {
        self.word_split
    }

    /// Raw-fast-path eligibility.
    pub fn raw_prepend(&self) -> (r: Option<RawPrepend>)
        requires
            self.wf(),
        ensures
            r == self@.raw_prepend(),
    {
        self.raw_prepend
    }

    /// The added tokens that are matched in the raw input.
    pub fn added_tokens(&self) -> (r: &TokenSpecs)
        requires
            self.wf(),
        ensures
            r.wf(),
            r@ == self@.added,
    {
        &self.added_tokens
    }

    /// The added tokens that are matched against normalizer output.
    pub fn norm_added_tokens(&self) -> (r: &TokenSpecs)
        requires
            self.wf(),
        ensures
            r.wf(),
            r@ == self@.norm_added,
    {
        &self.norm_added_tokens
    }

    /// The normalizer sequence only (no Metaspace step).
    pub fn apply_norm_ops(&self, input: &[u8]) -> (r: Vec<u8>)
        requires
            self.wf(),
        ensures
            r@ == steps_applied(self@.steps, input@),
    {
        apply_norm_ops(self.norm_ops.as_slice(), input)
    }

    /// The Metaspace pre-tokenizer's space replacement and prepend.
    pub fn apply_metaspace(&self, input: &[u8], first_chunk: bool) -> (r: Vec<u8>)
        ensures
            r@ == metaspaced(self@.metaspace, input@, first_chunk),
    {
        apply_metaspace(self.metaspace, input, first_chunk)
    }

    /// Apply the normalizer ops and Metaspace replacement/prepend to one text
    /// chunk. `first_chunk` is true only for the chunk at the very start of
    /// the input.
    pub fn normalize(&self, input: &str, first_chunk: bool) -> (r: Vec<u8>)
        requires
            self.wf(),
        ensures
            r@ == metaspaced(
                self@.metaspace,
                steps_applied(self@.steps, encode_utf8(input@)),
                first_chunk,
            ),
    {
        let s: Vec<u8> = self.apply_norm_ops(input.as_bytes());
        self.apply_metaspace(s.as_slice(), first_chunk)
    }

    /// The tokens of one unit, merged afresh.
    pub fn merge_unit(&self, unit: &[u8], raw: bool) -> (symbols: Vec<TokenId>)
        requires
            self.wf(),
        ensures
            symbols@ == self@.unit_tokens(unit@, raw),
    {
        let mut symbols: Vec<TokenId> = self.init_symbols(unit, raw);
        bpe_merge_symbols_ranked(&self.merges, &mut symbols);
        symbols
    }

    /// Whether a unit ends at `p`.
    pub fn ends_unit(&self, s: &[u8], p: usize, raw: bool) -> (r: bool)
        requires
            self.wf(),
            p < s@.len(),
        ensures
            r == self@.unit_ends(s@, p as int, raw),
    {
        if p == 0 {
            return false;
        }
        let b: u8 = s[p];
        if (raw && b == 0x20) || is_mark_char(s, p) {
            let after_mark: bool = (raw && s[p - 1] == 0x20) || (p >= 3 && is_mark_char(s, p - 3));
            return self.word_split == WordSplit::EveryMark || !after_mark;
        }
        if b == 0x2E || b == 0x2C || b == 0x22 || b == 0x29 || b == 0x3B || b == 0x3A || b == 0x21
            || b == 0x3F {
            let prev: u8 = if raw && s[p - 1] == 0x20 {
                0x81
            } else {
                s[p - 1]
            };
            let at: usize = prev as usize * 256 + b as usize;
            assert(at == slot(prev, b));
            return !self.adjacent[at];
        }
        false
    }

    /// Size of the vocabulary: one greater than the largest token ID, with
    /// added tokens (IDs with no assigned content count too).
    pub fn vocab_size(&self) -> (n: usize)
        ensures
            n == self@.vocab.len(),
    {
        self.vocab.len()
    }

    /// Vocabulary entries as `(id, bytes)` pairs in ID order, with added tokens
    /// and without IDs with no assigned content.
    pub fn vocab_entries(&self) -> (r: Vec<(u32, &[u8])>)
        requires
            self.wf(),
        ensures
            entry_views(r@) == assigned_entries(self@.vocab, self@.vocab.len() as int),
    {
        vocab_entries(self.vocab.as_slice())
    }

    /// Merge rules as `(left, right)` byte pairs in rank order.
    pub fn merge_entries(&self) -> (r: Vec<(&[u8], &[u8])>)
        requires
            self.wf(),
            self@.rules_in_vocab(),
        ensures
            exists|pairs: Seq<(TokenId, TokenId)>| #[trigger]
                self@.merge_order(pairs) && byte_pair_views(r@) == self@.pair_bytes(pairs),
    {
        let ghost m = self@;
        let n: usize = self.merges.len();
        let ghost order = self.merges.order();
        let mut ranks: Vec<u32> = Vec::with_capacity(n);
        for i in 0..n
            invariant
                self.wf(),
                m == self@,
                order == self.merges.order(),
                n == order.len(),
                ranks@.len() == i,
                forall|k: int| 0 <= k < i ==> #[trigger] ranks@[k] == m.rules[order[k]].1,
        {
            let (a, b): (TokenId, TokenId) = self.merges.pair(i);
            assert(order.contains(order[i as int]));
            match self.merges.lookup(a, b) {
                Some((_, rank)) => ranks.push(rank),
                None => {
                    assert(false);
                },
            }
        }
        let perm: Vec<usize> = sort_by_rank(ranks.as_slice());
        let ghost pairs = Seq::new(n as nat, |i: int| order[perm@[i] as int]);
        let mut r: Vec<(&[u8], &[u8])> = Vec::with_capacity(n);
        for i in 0..n
            invariant
                self.wf(),
                m == self@,
                m.rules_in_vocab(),
                order == self.merges.order(),
                n == order.len(),
                n == perm@.len(),
                n == ranks@.len(),
                rank_sorted(ranks@, perm@),
                pairs == Seq::new(n as nat, |i: int| order[perm@[i] as int]),
                r@.len() == i,
                forall|k: int|
                    0 <= k < i ==> (#[trigger] r@[k]).0@ == m.vocab[pairs[k].0.0 as int]
                        && r@[k].1@ == m.vocab[pairs[k].1.0 as int],
        {
            let at: usize = perm[i];
            let (a, b): (TokenId, TokenId) = self.merges.pair(at);
            proof {
                assert(order.contains(order[at as int]));
                assert(m.rules.contains_key((a, b)));
                assert(m.vocab[a.0 as int] == self.vocab@[a.0 as int]@);
                assert(m.vocab[b.0 as int] == self.vocab@[b.0 as int]@);
            }
            let left: &[u8] = self.vocab[a.index()].as_slice();
            let right: &[u8] = self.vocab[b.index()].as_slice();
            r.push((left, right));
        }
        proof {
            assert(byte_pair_views(r@) =~= m.pair_bytes(pairs));
            assert forall|p: (TokenId, TokenId)| #[trigger]
                m.rules.contains_key(p) <==> pairs.contains(p) by {
                if m.rules.contains_key(p) {
                    assert(order.contains(p));
                    let k = choose|k: int| 0 <= k < n && order[k] == p;
                    lemma_rank_sorted_covers(ranks@, perm@, k);
                    let i = choose|i: int| 0 <= i < n && perm@[i] == k;
                    assert(pairs[i] == p);
                }
                if pairs.contains(p) {
                    let i = choose|i: int| 0 <= i < pairs.len() && pairs[i] == p;
                    assert(perm@[i] < n);
                    assert(order.contains(order[perm@[i] as int]));
                }
            }
            assert forall|i: int, j: int| 0 <= i < pairs.len() && 0 <= j < pairs.len() && i
                != j implies pairs[i] != pairs[j] by {
                assert(perm@[i] != perm@[j]);
                assert(perm@[i] < n && perm@[j] < n);
            }
            assert forall|i: int, j: int| 0 <= i < j < pairs.len() implies m.rules[#[trigger] pairs[i]].1
                <= m.rules[#[trigger] pairs[j]].1 by {
                assert(perm@[i] < n && perm@[j] < n);
            }
            assert(m.merge_order(pairs));
        }
        r
    }

    /// Whether encoding puts a mark in front of ordinary text: decode then
    /// strips the resulting leading space.
    pub fn prepends_space(&self) -> (r: bool)
        ensures
            r == self@.prepends_space(),
    {
        if let Some(ms) = self.metaspace {
            if ms.prepend != PrependScheme::Never {
                return true;
            }
        }
        for i in 0..self.norm_ops.len()
            invariant
                forall|j: int| 0 <= j < i ==> !((#[trigger] self@.steps[j]) is Prepend),
        {
            assert(self@.steps[i as int] == self.norm_ops@[i as int]@);
            if let NormOp::Prepend(_) = &self.norm_ops[i] {
                return true;
            }
        }
        false
    }

    /// Decode token IDs back to UTF-8 text.
    pub fn decode(&self, tokens: &[TokenId]) -> (r: Vec<u8>)
        ensures
            r@ == self@.decoded(tokens@),
    {
        let ghost m = self@;
        let mut raw: Vec<u8> = Vec::new();
        assert(tokens@.take(0) =~= Seq::<TokenId>::empty());
        for i in 0..tokens.len()
            invariant
                m == self@,
                raw@ == m.raw_bytes(tokens@.take(i as int)),
        {
            let idx: usize = tokens[i].index();
            proof {
                let t = tokens@.take(i as int + 1);
                assert(t.drop_last() =~= tokens@.take(i as int));
                assert(t.last() == tokens@[i as int]);
                assert(m.vocab.len() == self.vocab@.len());
            }
            if idx < self.vocab.len() {
                assert(m.vocab[idx as int] == self.vocab@[idx as int]@);
                append_bytes(&mut raw, self.vocab[idx].as_slice());
            } else {
                assert(raw@ + Seq::<u8>::empty() =~= raw@);
            }
        }
        assert(tokens@.take(tokens@.len() as int) =~= tokens@);
        let text: String = text_of_lossy(raw.as_slice());
        let space: [u8; 1] = [0x20];
        assert(space@ =~= seq![0x20u8]);
        let m3: [u8; 3] = mark_bytes();
        let out: Vec<u8> = replace_bytes(text.as_str().as_bytes(), &m3, &space);
        let n: usize = out.len();
        if n > 0 && out[0] == 0x20 && self.prepends_space() {
            assert(out@.subrange(1, n as int) =~= out@.skip(1));
            copy_bytes(&out[1..n])
        } else {
            out
        }
    }
}

} // verus!
