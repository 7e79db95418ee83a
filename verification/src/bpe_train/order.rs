//! What training learns does not depend on the order of the words.

use vstd::prelude::*;
use vstd::seq_lib::{to_multiset_build, to_multiset_contains, to_multiset_len, to_multiset_remove};

use crate::bpe_train::corpus::lists_words;
use crate::bpe_train::counts::{all_changes, all_pairs, merged_word, merged_words};
use crate::bpe_train::pairs::{adjacent, amount, lemma_posted, posted, tally, touches, Pair};
use crate::bpe_train::train::{byte_words, training_start, Training};
use crate::bpe_train::word::{changes_from, WordView};
use crate::pretokenize::counts::occurrences;

verus! {

/// Whether two lists hold the same words, in whatever order.
pub open spec fn same_words(a: Seq<WordView>, b: Seq<WordView>) -> bool {
    a.to_multiset() == b.to_multiset()
}

/// Records of each word.
type Records = spec_fn(WordView) -> Seq<(Pair, int)>;

/// The records of all words added up, those of a word as often as it occurs.
spec fn table(words: Seq<WordView>, of: Records) -> Map<Pair, int>
    decreases words.len(),
{
    if words.len() == 0 {
        Map::empty()
    } else {
        posted(table(words.drop_last(), of), of(words.last()), words.last().count)
    }
}

/// What one word has to do with a table.
proof fn lemma_table_without(words: Seq<WordView>, of: Records, j: int, p: Pair)
    requires
        0 <= j < words.len(),
    ensures
        amount(table(words, of), p) == amount(table(words.remove(j), of), p) + tally(
            of(words[j]),
            p,
        ) * words[j].count,
        table(words, of).contains_key(p) <==> table(words.remove(j), of).contains_key(p) || touches(
            of(words[j]),
            p,
        ),
    decreases words.len(),
{
    let init = words.drop_last();
    let last = words.last();
    lemma_posted(table(init, of), of(last), last.count, p);
    if j == words.len() - 1 {
        assert(words.remove(j) =~= init);
    } else {
        lemma_table_without(init, of, j, p);
        let rest = words.remove(j);
        assert(rest.drop_last() =~= init.remove(j));
        assert(rest.last() == last);
        lemma_posted(table(rest.drop_last(), of), of(last), last.count, p);
    }
}

/// A word of one list stands in the other, and the rest of both is the same.
proof fn lemma_same_without(a: Seq<WordView>, b: Seq<WordView>) -> (j: int)
    requires
        same_words(a, b),
        a.len() > 0,
    ensures
        0 <= j < b.len(),
        b[j] == a.last(),
        same_words(a.drop_last(), b.remove(j)),
{
    let x = a.last();
    assert(a[a.len() - 1] == x);
    to_multiset_contains(a, x);
    to_multiset_contains(b, x);
    let j = choose|j: int| 0 <= j < b.len() && b[j] == x;
    to_multiset_remove(b, j);
    to_multiset_remove(a, a.len() - 1);
    assert(a.remove(a.len() - 1) =~= a.drop_last());
    j
}

/// The order of the words has no part in a table.
proof fn lemma_table_same(a: Seq<WordView>, b: Seq<WordView>, of: Records, p: Pair)
    requires
        same_words(a, b),
    ensures
        amount(table(a, of), p) == amount(table(b, of), p),
        table(a, of).contains_key(p) <==> table(b, of).contains_key(p),
    decreases a.len(),
{
    to_multiset_len(a);
    to_multiset_len(b);
    if a.len() > 0 {
        let j = lemma_same_without(a, b);
        lemma_table_same(a.drop_last(), b.remove(j), of, p);
        lemma_table_without(b, of, j, p);
        lemma_posted(table(a.drop_last(), of), of(a.last()), a.last().count, p);
    }
}

proof fn lemma_tables_equal(a: Seq<WordView>, b: Seq<WordView>, of: Records)
    requires
        same_words(a, b),
    ensures
        table(a, of) == table(b, of),
{
    assert forall|p: Pair| #[trigger] table(a, of).contains_key(p) <==> table(b, of).contains_key(
        p,
    ) by {
        lemma_table_same(a, b, of, p);
    }
    assert forall|p: Pair| #[trigger] table(a, of).contains_key(p) implies table(a, of)[p] == table(
        b,
        of,
    )[p] by {
        lemma_table_same(a, b, of, p);
    }
    assert(table(a, of) =~= table(b, of));
}

/// The pairs that stand next to each other in a word.
spec fn pair_records() -> Records {
    |w: WordView| adjacent(w.symbols)
}

/// The pairs that go and come in a word with a merge.
spec fn change_records(pair: Pair, new_symbol: u32) -> Records {
    |w: WordView| changes_from(w.symbols, 0, pair, new_symbol)
}

proof fn lemma_all_pairs_table(words: Seq<WordView>, n: int)
    requires
        0 <= n <= words.len(),
    ensures
        all_pairs(words, n) == table(words.take(n), pair_records()),
    decreases n,
{
    if n > 0 {
        lemma_all_pairs_table(words, n - 1);
        assert(words.take(n).drop_last() =~= words.take(n - 1));
    }
}

proof fn lemma_all_changes_table(words: Seq<WordView>, n: int, pair: Pair, new_symbol: u32)
    requires
        0 <= n <= words.len(),
    ensures
        all_changes(words, n, pair, new_symbol) == table(
            words.take(n),
            change_records(pair, new_symbol),
        ),
    decreases n,
{
    if n > 0 {
        lemma_all_changes_table(words, n - 1, pair, new_symbol);
        assert(words.take(n).drop_last() =~= words.take(n - 1));
    }
}

/// Merging a pair in the same words leaves the same words.
proof fn lemma_merged_same(a: Seq<WordView>, b: Seq<WordView>, pair: Pair, new_symbol: u32)
    requires
        same_words(a, b),
    ensures
        same_words(merged_words(a, pair, new_symbol), merged_words(b, pair, new_symbol)),
    decreases a.len(),
{
    let c = merged_words(a, pair, new_symbol);
    let d = merged_words(b, pair, new_symbol);
    to_multiset_len(a);
    to_multiset_len(b);
    if a.len() > 0 {
        let j = lemma_same_without(a, b);
        lemma_merged_same(a.drop_last(), b.remove(j), pair, new_symbol);
        let x = merged_word(a.last(), pair, new_symbol);
        let init = merged_words(a.drop_last(), pair, new_symbol);
        assert(c =~= init.push(x));
        to_multiset_build(init, x);
        assert(merged_words(b.remove(j), pair, new_symbol) =~= d.remove(j));
        assert(d[j] == x);
        to_multiset_remove(d, j);
        to_multiset_contains(d, x);
        assert(d.contains(x));
        assert(d.to_multiset().remove(x).insert(x) =~= d.to_multiset());
    } else {
        assert(c =~= d);
    }
}

/// Whether training stands at the same point, but for the order of the words.
spec fn same_point(t: Training, u: Training) -> bool {
    &&& same_words(t.words, u.words)
    &&& t.symbols == u.symbols
    &&& t.queue == u.queue
    &&& t.merges == u.merges
}

proof fn lemma_after_same(t: Training, u: Training, pair: Pair)
    requires
        same_point(t, u),
    ensures
        same_point(t.after(pair), u.after(pair)),
{
    let new_symbol = t.symbols.len() as u32;
    lemma_merged_same(t.words, u.words, pair, new_symbol);
    lemma_all_changes_table(t.words, t.words.len() as int, pair, new_symbol);
    lemma_all_changes_table(u.words, u.words.len() as int, pair, new_symbol);
    assert(t.words.take(t.words.len() as int) =~= t.words);
    assert(u.words.take(u.words.len() as int) =~= u.words);
    lemma_tables_equal(t.words, u.words, change_records(pair, new_symbol));
}

proof fn lemma_run_same(t: Training, u: Training, pairs: Seq<Pair>, target: int)
    requires
        same_point(t, u),
    ensures
        same_point(t.run(pairs), u.run(pairs)),
        t.follows(pairs, target) ==> u.follows(pairs, target),
    decreases pairs.len(),
{
    if pairs.len() > 0 {
        lemma_run_same(t, u, pairs.drop_last(), target);
        lemma_after_same(t.run(pairs.drop_last()), u.run(pairs.drop_last()), pairs.last());
    }
}

proof fn lemma_trains_same(
    t: Training,
    u: Training,
    target: int,
    symbols: Seq<Seq<u8>>,
    merges: Seq<(Seq<u8>, Seq<u8>)>,
)
    requires
        same_point(t, u),
        t.trains(target, symbols, merges),
    ensures
        u.trains(target, symbols, merges),
{
    let pairs = choose|pairs: Seq<Pair>| #[trigger]
        t.follows(pairs, target) && t.run(pairs).over(target) && symbols == t.run(pairs).symbols
            && merges == t.run(pairs).merges;
    lemma_run_same(t, u, pairs, target);
    assert(u.follows(pairs, target));
}

/// Lists without repeats that hold the same hold the same words.
proof fn lemma_lists_same(a: Seq<WordView>, b: Seq<WordView>)
    requires
        a.no_duplicates(),
        b.no_duplicates(),
        forall|w: WordView| #[trigger] a.contains(w) <==> b.contains(w),
    ensures
        same_words(a, b),
{
    a.lemma_multiset_has_no_duplicates();
    b.lemma_multiset_has_no_duplicates();
    assert forall|w: WordView| #[trigger] a.to_multiset().count(w) == b.to_multiset().count(w) by {
        to_multiset_contains(a, w);
        to_multiset_contains(b, w);
        assert(a.contains(w) <==> b.contains(w));
        assert(a.to_multiset().contains(w) <==> a.to_multiset().count(w) > 0);
        assert(b.to_multiset().contains(w) <==> b.to_multiset().count(w) > 0);
    }
    assert(a.to_multiset() =~= b.to_multiset());
}

/// Bytes that make the same symbols are the same.
proof fn lemma_symbols_bytes(a: Seq<u8>, b: Seq<u8>)
    requires
        a.map_values(|x: u8| x as u32) == b.map_values(|x: u8| x as u32),
    ensures
        a == b,
{
    let (c, d) = (a.map_values(|x: u8| x as u32), b.map_values(|x: u8| x as u32));
    assert(c.len() == d.len());
    assert forall|i: int| 0 <= i < a.len() implies a[i] == b[i] by {
        assert(c[i] == d[i]);
        assert(c[i] == a[i] as u32 && d[i] == b[i] as u32);
    }
    assert(a =~= b);
}

proof fn lemma_listed_once(words: Seq<(Vec<u8>, usize)>, ps: Seq<Seq<u8>>)
    requires
        lists_words(words, ps),
    ensures
        byte_words(words).no_duplicates(),
{
    let v = byte_words(words);
    assert forall|i: int, j: int| 0 <= i < v.len() && 0 <= j < v.len() && i != j implies v[i]
        != v[j] by {
        if v[i] == v[j] {
            lemma_symbols_bytes(words[i].0@, words[j].0@);
            if i < j {
                assert(words[i].0@ != words[j].0@);
            } else {
                assert(words[j].0@ != words[i].0@);
            }
        }
    }
}

proof fn lemma_listed_in(
    a: Seq<(Vec<u8>, usize)>,
    b: Seq<(Vec<u8>, usize)>,
    ps: Seq<Seq<u8>>,
    w: WordView,
)
    requires
        lists_words(a, ps),
        lists_words(b, ps),
        byte_words(a).contains(w),
    ensures
        byte_words(b).contains(w),
{
    let i = choose|i: int| 0 <= i < byte_words(a).len() && byte_words(a)[i] == w;
    let p = a[i].0@;
    assert(a[i].1 == occurrences(ps, p) && a[i].1 > 0);
    let j = choose|j: int| 0 <= j < b.len() && (#[trigger] b[j]).0@ == p;
    assert(b[j].1 == occurrences(ps, p));
    assert(byte_words(b)[j] == w);
}

/// What may be learned from the words of pretokens is the same in whatever order
/// the words come.
pub proof fn lemma_order_has_no_part(
    a: Seq<(Vec<u8>, usize)>,
    b: Seq<(Vec<u8>, usize)>,
    ps: Seq<Seq<u8>>,
    special_tokens: Seq<String>,
    target: int,
    symbols: Seq<Seq<u8>>,
    merges: Seq<(Seq<u8>, Seq<u8>)>,
)
    requires
        lists_words(a, ps),
        lists_words(b, ps),
    ensures
        training_start(a, special_tokens).trains(target, symbols, merges) <==> training_start(
            b,
            special_tokens,
        ).trains(target, symbols, merges),
{
    let (v, w) = (byte_words(a), byte_words(b));
    lemma_listed_once(a, ps);
    lemma_listed_once(b, ps);
    assert forall|x: WordView| #[trigger] v.contains(x) <==> w.contains(x) by {
        if v.contains(x) {
            lemma_listed_in(a, b, ps, x);
        }
        if w.contains(x) {
            lemma_listed_in(b, a, ps, x);
        }
    }
    lemma_lists_same(v, w);
    let (t, u) = (training_start(a, special_tokens), training_start(b, special_tokens));
    lemma_all_pairs_table(v, a.len() as int);
    lemma_all_pairs_table(w, b.len() as int);
    assert(v.take(a.len() as int) =~= v);
    assert(w.take(b.len() as int) =~= w);
    lemma_tables_equal(v, w, pair_records());
    assert(same_point(t, u) && same_point(u, t));
    if t.trains(target, symbols, merges) {
        lemma_trains_same(t, u, target, symbols, merges);
    }
    if u.trains(target, symbols, merges) {
        lemma_trains_same(u, t, target, symbols, merges);
    }
}

} // verus!
