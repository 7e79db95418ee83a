//! A high-throughput encoder of lines: each pretoken by its bytes' merges alone,
//! remembered in a [`SlotTable`].

use vstd::prelude::*;

use crate::batch::chunks::lemma_total_grows;
use crate::bpe::merge::{bpe_merged, lemma_merge_done, lemma_merged_len, mergeable, rules_by_id};
use crate::bpe::model::{
    initial_symbols, joined, lemma_joined_concat, lemma_joined_one, Model, ModelView,
};
use crate::bpe::symbols::{bpe_merge_symbols_with_scratch, MergeScratch};
use crate::bpe::tiktoken::{total_len, Tokenizer};
use crate::bpe::values::append_tokens;
use crate::encode::slots::{Coder, SlotTable};
use crate::pretokenize::gpt2::pretokens;
use crate::pretokenize::pretoken_fast::FastPretokenizer;
use crate::token::TokenId;

verus! {

/// The tokens of a pretoken by merges alone.
pub open spec fn merged_tokens(m: ModelView, p: Seq<u8>) -> Seq<TokenId> {
    bpe_merged(rules_by_id(m.merges), initial_symbols(m.remap, p))
}

/// The tokens of each of a list of pretokens.
pub open spec fn merged_pieces(m: ModelView, ps: Seq<Seq<u8>>) -> Seq<Seq<TokenId>> {
    ps.map_values(|p: Seq<u8>| merged_tokens(m, p))
}

/// The tokens of a line.
pub open spec fn line_tokens(m: ModelView, line: Seq<u8>) -> Seq<TokenId> {
    joined(merged_pieces(m, pretokens(line)))
}

/// The tokens of the first `k` lines.
pub open spec fn lines_tokens(m: ModelView, lines: Seq<Seq<u8>>, k: int) -> Seq<TokenId>
    decreases k,
{
    if k <= 0 {
        Seq::empty()
    } else {
        lines_tokens(m, lines, k - 1) + line_tokens(m, lines[k - 1])
    }
}

/// The contents of a list of lines.
pub open spec fn line_views(lines: Seq<&[u8]>) -> Seq<Seq<u8>> {
    lines.map_values(|l: &[u8]| l@)
}

/// How pretokens become tokens by merges alone.
spec fn coder(m: ModelView) -> Coder {
    |p: Seq<u8>| merged_tokens(m, p)
}

/// The total length of lines.
fn total_bytes(lines: &[&[u8]]) -> (n: usize)
    requires
        total_len(line_views(lines@)) <= usize::MAX,
    ensures
        n == total_len(line_views(lines@)),
{
    let ghost views = line_views(lines@);
    let mut n: usize = 0;
    assert(views.take(0) =~= Seq::<Seq<u8>>::empty());
    for i in 0..lines.len()
        invariant
            views == line_views(lines@),
            total_len(views) <= usize::MAX,
            n == total_len(views.take(i as int)),
    {
        proof {
            let t = views.take(i as int + 1);
            assert(t.drop_last() =~= views.take(i as int));
            assert(t.last() == views[i as int]);
            lemma_total_grows(views, i as int + 1);
        }
        n = n + lines[i].len();
    }
    assert(views.take(views.len() as int) =~= views);
    n
}

/// The tokens of bytes, before merging.
fn byte_tokens(model: &Model, bytes: &[u8], symbols: &mut Vec<TokenId>)
    requires
        model.wf(),
    ensures
        final(symbols)@ == initial_symbols(model@.remap, bytes@),
{
    symbols.clear();
    for i in 0..bytes.len()
        invariant
            model.wf(),
            symbols@.len() == i,
            forall|k: int|
                0 <= k < i ==> #[trigger] symbols@[k] == initial_symbols(model@.remap, bytes@)[k],
    {
        let t: TokenId = match &model.byte_remapping {
            Some(b) => b.get(bytes[i]),
            None => TokenId(bytes[i] as u32),
        };
        symbols.push(t);
    }
    assert(symbols@ =~= initial_symbols(model@.remap, bytes@));
}

/// A single byte has nothing to merge.
proof fn lemma_one_byte(m: ModelView, p: Seq<u8>)
    requires
        p.len() == 1,
    ensures
        merged_tokens(m, p) == initial_symbols(m.remap, p),
{
    let s = initial_symbols(m.remap, p);
    let rules = rules_by_id(m.merges);
    assert forall|i: int| !#[trigger] mergeable(rules, s, i) by {}
    lemma_merge_done(rules, s);
}

/// Encode the pretokens of one line, remembering them.
fn encode_line<'a>(
    line: &'a [u8],
    model: &Model,
    table: &mut SlotTable<'a>,
    scratch: &mut Vec<TokenId>,
    merge_scratch: &mut MergeScratch,
    out: &mut Vec<TokenId>,
)
    requires
        model.wf(),
        old(table).wf(),
        old(table).sound(coder(model@)),
        old(merge_scratch).wf(),
    ensures
        final(table).wf(),
        final(table).sound(coder(model@)),
        final(merge_scratch).wf(),
        final(out)@ == old(out)@ + line_tokens(model@, line@),
{
    let ghost m = model@;
    let ghost code = coder(m);
    let ghost before = out@;
    let ghost all = pretokens(line@);
    let ghost mut done: Seq<Seq<u8>> = Seq::empty();
    let mut pt = FastPretokenizer::new(line);
    let mut more: bool = true;
    assert(done + all =~= all);
    assert(merged_pieces(m, done) =~= Seq::<Seq<TokenId>>::empty());
    assert(before + joined(merged_pieces(m, done)) =~= before);
    while more
        invariant
            model.wf(),
            m == model@,
            code == coder(m),
            table.wf(),
            table.sound(code),
            merge_scratch.wf(),
            pt.doc() == line@,
            pt.at() <= line@.len(),
            all == pretokens(line@),
            all == done + pt.rest(),
            !more ==> done == all,
            out@ == before + joined(merged_pieces(m, done)),
        decreases pt.doc().len() - pt.at() + if more {
            1int
        } else {
            0
        },
    {
        let ghost rest = pt.rest();
        match pt.next() {
            None => {
                more = false;
                assert(done + rest =~= done);
            },
            Some(pretoken) => {
                let bytes: &'a [u8] = pretoken.0;
                let ghost p = bytes@;
                let ghost sofar = out@;
                assert(p.len() > 0);
                if bytes.len() == 1 {
                    byte_tokens(model, bytes, scratch);
                    append_tokens(out, scratch.as_slice());
                    proof {
                        lemma_one_byte(m, p);
                    }
                } else if !table.emit(bytes, out) {
                    byte_tokens(model, bytes, scratch);
                    bpe_merge_symbols_with_scratch(&model.merges, scratch, merge_scratch);
                    append_tokens(out, scratch.as_slice());
                    table.store(bytes, scratch.as_slice());
                }
                proof {
                    assert(out@ == sofar + merged_tokens(m, p));
                    let next = done.push(p);
                    assert(all =~= next + pt.rest());
                    assert(merged_pieces(m, next) =~= merged_pieces(m, done) + seq![
                        merged_tokens(m, p),
                    ]);
                    lemma_joined_concat(merged_pieces(m, done), seq![merged_tokens(m, p)]);
                    lemma_joined_one(merged_tokens(m, p));
                    assert(before + joined(merged_pieces(m, done)) + merged_tokens(m, p) =~= before
                        + joined(merged_pieces(m, next)));
                    done = next;
                }
            },
        }
    }
}

/// Encode lines, each pretoken by its bytes' merges alone: the tokens of all of
/// them one after the other, and where those of each line start, with the end
/// of the last.
pub fn encode_lines(lines: &[&[u8]], tokenizer: &Tokenizer) -> (r: (Vec<TokenId>, Vec<usize>))
    requires
        tokenizer.wf(),
        total_len(line_views(lines@)) <= usize::MAX,
    ensures
        r.0@ == lines_tokens(tokenizer.encoding().model, line_views(lines@), lines@.len() as int),
        r.1@.len() == lines@.len() + 1,
        forall|k: int|
            0 <= k <= lines@.len() ==> #[trigger] r.1@[k] == lines_tokens(
                tokenizer.encoding().model,
                line_views(lines@),
                k,
            ).len(),
{
    let model: &Model = tokenizer.model();
    let ghost m = model@;
    let ghost views = line_views(lines@);
    let total: usize = total_bytes(lines);
    let mut table: SlotTable = SlotTable::for_text(total);
    let mut scratch: Vec<TokenId> = Vec::with_capacity(128);
    let mut merge_scratch: MergeScratch = MergeScratch::new();
    let mut output: Vec<TokenId> = Vec::new();
    let mut boundaries: Vec<usize> = Vec::with_capacity(lines.len());
    boundaries.push(0);
    for i in 0..lines.len()
        invariant
            model.wf(),
            m == model@,
            views == line_views(lines@),
            table.wf(),
            table.sound(coder(m)),
            merge_scratch.wf(),
            output@ == lines_tokens(m, views, i as int),
            boundaries@.len() == i + 1,
            forall|k: int|
                0 <= k <= i ==> #[trigger] boundaries@[k] == lines_tokens(m, views, k).len(),
    {
        encode_line(lines[i], model, &mut table, &mut scratch, &mut merge_scratch, &mut output);
        boundaries.push(output.len());
    }
    (output, boundaries)
}

/// Count the tokens of one line, remembering its pretokens.
fn count_line<'a>(
    line: &'a [u8],
    model: &Model,
    table: &mut SlotTable<'a>,
    scratch: &mut Vec<TokenId>,
    merge_scratch: &mut MergeScratch,
) -> (n: usize)
    requires
        model.wf(),
        old(table).wf(),
        old(table).sound(coder(model@)),
        old(merge_scratch).wf(),
    ensures
        final(table).wf(),
        final(table).sound(coder(model@)),
        final(merge_scratch).wf(),
        n == line_tokens(model@, line@).len(),
        n <= line@.len(),
{
    let ghost m = model@;
    let ghost code = coder(m);
    let ghost all = pretokens(line@);
    let ghost mut done: Seq<Seq<u8>> = Seq::empty();
    let len: usize = line.len();
    let mut pt = FastPretokenizer::new(line);
    let mut n: usize = 0;
    let mut more: bool = true;
    assert(done + all =~= all);
    assert(merged_pieces(m, done) =~= Seq::<Seq<TokenId>>::empty());
    while more
        invariant
            model.wf(),
            m == model@,
            code == coder(m),
            table.wf(),
            table.sound(code),
            merge_scratch.wf(),
            len == line@.len(),
            pt.doc() == line@,
            pt.at() <= len,
            all == pretokens(line@),
            all == done + pt.rest(),
            !more ==> done == all,
            n == joined(merged_pieces(m, done)).len(),
            n <= pt.at(),
        decreases pt.doc().len() - pt.at() + if more {
            1int
        } else {
            0
        },
    {
        let ghost rest = pt.rest();
        let ghost at = pt.at();
        match pt.next() {
            None => {
                more = false;
                assert(done + rest =~= done);
            },
            Some(pretoken) => {
                let bytes: &'a [u8] = pretoken.0;
                let ghost p = bytes@;
                proof {
                    assert(p.len() == pt.at() - at);
                    lemma_merged_len(rules_by_id(m.merges), initial_symbols(m.remap, p));
                    let next = done.push(p);
                    assert(all =~= next + pt.rest());
                    assert(merged_pieces(m, next) =~= merged_pieces(m, done) + seq![
                        merged_tokens(m, p),
                    ]);
                    lemma_joined_concat(merged_pieces(m, done), seq![merged_tokens(m, p)]);
                    lemma_joined_one(merged_tokens(m, p));
                    done = next;
                }
                if bytes.len() == 1 {
                    proof {
                        lemma_one_byte(m, p);
                    }
                    n = n + 1;
                } else {
                    match table.count(bytes) {
                        Some(k) => {
                            assert(k == code(p).len());
                            n = n + k;
                        },
                        None => {
                            byte_tokens(model, bytes, scratch);
                            bpe_merge_symbols_with_scratch(&model.merges, scratch, merge_scratch);
                            n = n + scratch.len();
                            table.store(bytes, scratch.as_slice());
                        },
                    }
                }
            },
        }
    }
    n
}

/// How many tokens [`encode_lines`] gives, without writing them out.
pub fn encode_lines_lazy(lines: &[&[u8]], tokenizer: &Tokenizer) -> (n: usize)
    requires
        tokenizer.wf(),
        total_len(line_views(lines@)) <= usize::MAX,
    ensures
        n == lines_tokens(
            tokenizer.encoding().model,
            line_views(lines@),
            lines@.len() as int,
        ).len(),
{
    let model: &Model = tokenizer.model();
    let ghost m = model@;
    let ghost views = line_views(lines@);
    let total: usize = total_bytes(lines);
    let mut table: SlotTable = SlotTable::for_text(total);
    let mut scratch: Vec<TokenId> = Vec::with_capacity(128);
    let mut merge_scratch: MergeScratch = MergeScratch::new();
    let mut total_tokens: usize = 0;
    assert(views.take(0) =~= Seq::<Seq<u8>>::empty());
    for i in 0..lines.len()
        invariant
            model.wf(),
            m == model@,
            views == line_views(lines@),
            total_len(views) <= usize::MAX,
            table.wf(),
            table.sound(coder(m)),
            merge_scratch.wf(),
            total_tokens == lines_tokens(m, views, i as int).len(),
            total_tokens <= total_len(views.take(i as int)),
    {
        proof {
            let t = views.take(i as int + 1);
            assert(t.drop_last() =~= views.take(i as int));
            assert(t.last() == views[i as int]);
            lemma_total_grows(views, i as int + 1);
        }
        let k: usize = count_line(lines[i], model, &mut table, &mut scratch, &mut merge_scratch);
        total_tokens = total_tokens + k;
    }
    total_tokens
}

} // verus!
