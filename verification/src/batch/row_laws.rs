//! Laws: which part of a batch is whose.

use vstd::prelude::*;

use crate::batch::matcher::set_flags;
use crate::batch::ragged::{files_docs, is_ragged};
use crate::batch::rows::{int_lens, lemma_sum_concat, sum};
use crate::bpe::tiktoken::{raw_ids, Encoding};
use crate::input::file_source::{region_docs, DocFormat};
use crate::sentencepiece::model::SpModel;
use crate::seqs::{lemma_flatten_concat, lemma_flatten_one};
use crate::token::TokenId;

verus! {

/// How many ids the rows before row `i` have.
pub open spec fn ids_before(lens: Seq<i64>, i: int) -> int
    decreases i,
{
    if i <= 0 {
        0
    } else {
        ids_before(lens, i - 1) + lens[i - 1]
    }
}

/// Whether row `i` of a batch is a list of tokens.
pub open spec fn row_is(r: (Vec<u32>, Vec<i64>), i: int, tokens: Seq<TokenId>) -> bool {
    let at = ids_before(r.1@, i);
    &&& 0 <= i < r.1@.len()
    &&& r.1@[i] == tokens.len()
    &&& 0 <= at
    &&& at + tokens.len() <= r.0@.len()
    &&& forall|k: int| 0 <= k < tokens.len() ==> #[trigger] r.0@[at + k] == tokens[k].0
}

proof fn lemma_encoding_prefix(e: Encoding, texts: Seq<Seq<u8>>, lens: Seq<i64>, i: int)
    requires
        0 <= i <= texts.len(),
        int_lens(lens) == e.counts(texts),
    ensures
        ids_before(lens, i) == e.ids_of_texts(texts.take(i)).len(),
    decreases i,
{
    if i > 0 {
        lemma_encoding_prefix(e, texts, lens, i - 1);
        assert(int_lens(lens).len() == lens.len() && e.counts(texts).len() == texts.len());
        assert(lens.len() == texts.len());
        assert(texts.take(i) =~= texts.take(i - 1).push(texts[i - 1]));
        e.lemma_ids_push(texts.take(i - 1), texts[i - 1]);
        assert(int_lens(lens)[i - 1] == lens[i - 1]);
        assert(e.counts(texts)[i - 1] == e.tokens(texts[i - 1]).len());
    } else {
        assert(texts.take(0) =~= Seq::<Seq<u8>>::empty());
        e.lemma_ids_none();
    }
}

/// A batch has a row for each text, in order, and it holds the tokens of the text.
pub proof fn lemma_row_is_text(e: Encoding, texts: Seq<Seq<u8>>, r: (Vec<u32>, Vec<i64>), i: int)
    requires
        is_ragged(e, texts, r),
        r.0@.len() <= i64::MAX,
        0 <= i < texts.len(),
    ensures
        r.1@.len() == texts.len(),
        row_is(r, i, e.tokens(texts[i])),
        ids_before(r.1@, texts.len() as int) == r.0@.len(),
{
    let n = texts.len() as int;
    lemma_encoding_prefix(e, texts, r.1@, i);
    lemma_encoding_prefix(e, texts, r.1@, n);
    assert(texts.take(n) =~= texts);
    let tokens = e.tokens(texts[i]);
    let head = texts.take(i).push(texts[i]);
    assert(texts =~= head + texts.skip(i + 1));
    e.lemma_ids_concat(head, texts.skip(i + 1));
    e.lemma_ids_push(texts.take(i), texts[i]);
    assert(int_lens(r.1@)[i] == r.1@[i]);
    assert(e.counts(texts)[i] == tokens.len());
    let at = ids_before(r.1@, i);
    assert forall|k: int| 0 <= k < tokens.len() implies #[trigger] r.0@[at + k] == tokens[k].0 by {
        assert(raw_ids(tokens)[k] == tokens[k].0);
    }
}

proof fn lemma_sp_concat(m: SpModel, a: Seq<Seq<u8>>, b: Seq<Seq<u8>>)
    ensures
        m.ids_of_texts(a + b) == m.ids_of_texts(a) + m.ids_of_texts(b),
    decreases b.len(),
{
    if b.len() == 0 {
        assert(a + b =~= a);
        assert(m.ids_of_texts(a) + m.ids_of_texts(b) =~= m.ids_of_texts(a));
    } else {
        assert((a + b).drop_last() =~= a + b.drop_last());
        assert((a + b).last() == b.last());
        lemma_sp_concat(m, a, b.drop_last());
        assert(m.ids_of_texts(a + b) =~= m.ids_of_texts(a) + m.ids_of_texts(b));
    }
}

proof fn lemma_sp_prefix(m: SpModel, texts: Seq<Seq<u8>>, lens: Seq<i64>, i: int)
    requires
        0 <= i <= texts.len(),
        int_lens(lens) == m.counts(texts),
    ensures
        ids_before(lens, i) == m.ids_of_texts(texts.take(i)).len(),
    decreases i,
{
    if i > 0 {
        lemma_sp_prefix(m, texts, lens, i - 1);
        assert(int_lens(lens).len() == lens.len() && m.counts(texts).len() == texts.len());
        assert(lens.len() == texts.len());
        assert(texts.take(i) =~= texts.take(i - 1).push(texts[i - 1]));
        m.lemma_ids_push(texts.take(i - 1), texts[i - 1]);
        assert(int_lens(lens)[i - 1] == lens[i - 1]);
        assert(m.counts(texts)[i - 1] == m.tokens(texts[i - 1]).len());
    } else {
        assert(texts.take(0) =~= Seq::<Seq<u8>>::empty());
    }
}

/// A batch of a SentencePiece tokenizer has a row for each text, in order, and it holds
/// the tokens of the text.
pub proof fn lemma_sp_row_is_text(
    m: SpModel,
    texts: Seq<Seq<u8>>,
    r: (Vec<u32>, Vec<i64>),
    i: int,
)
    requires
        m.is_ragged(texts, r),
        r.0@.len() <= i64::MAX,
        0 <= i < texts.len(),
    ensures
        r.1@.len() == texts.len(),
        row_is(r, i, m.tokens(texts[i])),
        ids_before(r.1@, texts.len() as int) == r.0@.len(),
{
    let n = texts.len() as int;
    lemma_sp_prefix(m, texts, r.1@, i);
    lemma_sp_prefix(m, texts, r.1@, n);
    assert(texts.take(n) =~= texts);
    let tokens = m.tokens(texts[i]);
    let head = texts.take(i).push(texts[i]);
    assert(texts =~= head + texts.skip(i + 1));
    lemma_sp_concat(m, head, texts.skip(i + 1));
    m.lemma_ids_push(texts.take(i), texts[i]);
    assert(int_lens(r.1@)[i] == r.1@[i]);
    assert(m.counts(texts)[i] == tokens.len());
    let at = ids_before(r.1@, i);
    assert forall|k: int| 0 <= k < tokens.len() implies #[trigger] r.0@[at + k] == tokens[k].0 by {
        assert(raw_ids(tokens)[k] == tokens[k].0);
    }
}

/// The documents of files are those of each file, in order.
pub proof fn lemma_documents_of_files(files: Seq<Seq<u8>>, format: DocFormat)
    ensures
        files_docs(files, format) == files.map_values(
            |f: Seq<u8>| region_docs(f, format),
        ).flatten(),
    decreases files.len(),
{
    let f = |f: Seq<u8>| region_docs(f, format);
    let parts = files.map_values(f);
    if files.len() > 0 {
        let init = files.drop_last();
        lemma_documents_of_files(init, format);
        let last = region_docs(files.last(), format);
        assert(parts =~= init.map_values(f) + seq![last]);
        lemma_flatten_concat(init.map_values(f), seq![last]);
        lemma_flatten_one(last);
    } else {
        assert(parts =~= Seq::<Seq<Seq<u8>>>::empty());
        assert(parts.flatten() =~= Seq::<Seq<u8>>::empty());
    }
}

/// The sum of numbers, one number at a time and in any order of two lists.
pub proof fn lemma_sums(a: Seq<int>, x: int, b: Seq<int>)
    ensures
        sum(Seq::<int>::empty()) == 0,
        sum(a.push(x)) == sum(a) + x,
        sum(a + b) == sum(b + a),
{
    assert(a.push(x).drop_last() =~= a);
    lemma_sum_concat(a, b);
    lemma_sum_concat(b, a);
}

/// The numbers of flags that are set: each that is, none that is not, and ascending.
pub proof fn lemma_flags_listed(seen: Seq<bool>, n: int)
    requires
        0 <= n <= seen.len(),
        seen.len() <= usize::MAX,
    ensures
        ({
            let list = set_flags(seen, n);
            &&& forall|i: int, j: int|
                0 <= i < j < list.len() ==> #[trigger] list[i] < #[trigger] list[j]
            &&& forall|k: usize| #[trigger] list.contains(k) <==> k < n && seen[k as int]
        }),
    decreases n,
{
    let list = set_flags(seen, n);
    if n > 0 {
        lemma_flags_listed(seen, n - 1);
        let before = set_flags(seen, n - 1);
        if seen[n - 1] {
            let last = (n - 1) as usize;
            assert forall|i: int, j: int| 0 <= i < j < list.len() implies #[trigger] list[i]
                < #[trigger] list[j] by {
                assert(list[i] == before[i]);
                assert(before.contains(before[i]));
                if j < before.len() {
                    assert(list[j] == before[j]);
                }
            }
            assert forall|k: usize| #[trigger] list.contains(k) <==> k < n && seen[k as int] by {
                if list.contains(k) {
                    let i = choose|i: int| 0 <= i < list.len() && list[i] == k;
                    if i < before.len() {
                        assert(before[i] == k);
                        assert(before.contains(k));
                    }
                }
                if k < n && seen[k as int] {
                    if k == n - 1 {
                        assert(list[before.len() as int] == k);
                    } else {
                        assert(before.contains(k));
                        let i = choose|i: int| 0 <= i < before.len() && before[i] == k;
                        assert(list[i] == k);
                    }
                }
            }
        } else {
            assert forall|k: usize| #[trigger] list.contains(k) <==> k < n && seen[k as int] by {
                assert(before.contains(k) <==> k < n - 1 && seen[k as int]);
            }
        }
    }
}

} // verus!
