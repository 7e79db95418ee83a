//! Laws: what is learned comes from the words that were counted.

use vstd::prelude::*;
use vstd::utf8::encode_utf8;

use crate::bpe_train::counts::{
    all_changes, lemma_all_changes, lemma_all_pairs, load, merged_word, total,
};
use crate::bpe_train::pairs::{adjacent, tally, touches, Pair};
use crate::bpe_train::train::{
    byte_words, lemma_next_pair_most_frequent, lemma_run_sound, lemma_run_symbols,
    lemma_training_start_sound, training_start, Training,
};
use crate::bpe_train::word::{changes_at, changes_from, joined_at, merged_from, pair_at, WordView};
use crate::lex::lex_lt;
use crate::seqs::{lemma_flatten_concat, lemma_flatten_one, occurs_at};

verus! {

/// The bytes of a word's symbols, one after the other.
pub open spec fn spelled(symbols: Seq<Seq<u8>>, word: Seq<u32>) -> Seq<u8> {
    word.map_values(|x: u32| symbols[x as int]).flatten()
}

proof fn lemma_spelled_concat(symbols: Seq<Seq<u8>>, a: Seq<u32>, b: Seq<u32>)
    ensures
        spelled(symbols, a + b) == spelled(symbols, a) + spelled(symbols, b),
{
    let f = |x: u32| symbols[x as int];
    assert((a + b).map_values(f) =~= a.map_values(f) + b.map_values(f));
    lemma_flatten_concat(a.map_values(f), b.map_values(f));
}

proof fn lemma_spelled_one(symbols: Seq<Seq<u8>>, x: u32)
    ensures
        spelled(symbols, seq![x]) == symbols[x as int],
{
    let f = |y: u32| symbols[y as int];
    assert(seq![x].map_values(f) =~= seq![symbols[x as int]]);
    lemma_flatten_one(symbols[x as int]);
}

/// A word spells the same with more symbols.
proof fn lemma_spelled_more(symbols: Seq<Seq<u8>>, more: Seq<u8>, word: Seq<u32>)
    requires
        forall|i: int| 0 <= i < word.len() ==> #[trigger] word[i] < symbols.len(),
    ensures
        spelled(symbols.push(more), word) == spelled(symbols, word),
{
    let f = |x: u32| symbols[x as int];
    let g = |x: u32| symbols.push(more)[x as int];
    assert forall|i: int| 0 <= i < word.len() implies word.map_values(f)[i] == word.map_values(
        g,
    )[i] by {
        assert(word[i] < symbols.len());
    }
    assert(word.map_values(f) =~= word.map_values(g));
}

proof fn lemma_joined_spelled(symbols: Seq<Seq<u8>>, s: Seq<u32>, i: int, pair: Pair, new: u32)
    requires
        pair_at(s, i, pair),
        symbols[new as int] == symbols[pair.0 as int] + symbols[pair.1 as int],
    ensures
        spelled(symbols, joined_at(s, i, new)) == spelled(symbols, s),
{
    let a = s.subrange(0, i);
    let b = s.subrange(i + 2, s.len() as int);
    let two = seq![pair.0] + seq![pair.1];
    assert(s =~= a + two + b);
    lemma_spelled_concat(symbols, a + two, b);
    lemma_spelled_concat(symbols, a, two);
    lemma_spelled_concat(symbols, seq![pair.0], seq![pair.1]);
    lemma_spelled_one(symbols, pair.0);
    lemma_spelled_one(symbols, pair.1);
    lemma_spelled_concat(symbols, a + seq![new], b);
    lemma_spelled_concat(symbols, a, seq![new]);
    lemma_spelled_one(symbols, new);
}

/// Merging a pair in a word changes none of its bytes.
pub proof fn lemma_merged_spelled(
    symbols: Seq<Seq<u8>>,
    s: Seq<u32>,
    i: int,
    pair: Pair,
    new: u32,
)
    requires
        symbols[new as int] == symbols[pair.0 as int] + symbols[pair.1 as int],
    ensures
        spelled(symbols, merged_from(s, i, pair, new)) == spelled(symbols, s),
    decreases s.len() - i,
{
    if !(i < 0 || i + 1 >= s.len()) {
        if pair_at(s, i, pair) {
            lemma_joined_spelled(symbols, s, i, pair, new);
            lemma_merged_spelled(symbols, joined_at(s, i, new), i + 1, pair, new);
        } else {
            lemma_merged_spelled(symbols, s, i + 1, pair, new);
        }
    }
}

/// Two symbols that stand next to each other in a word stand, as bytes, next to each
/// other in what it spells.
proof fn lemma_adjacent_spelled(symbols: Seq<Seq<u8>>, s: Seq<u32>, i: int)
    requires
        0 <= i,
        i + 1 < s.len(),
    ensures
        exists|at: int| #[trigger]
            occurs_at(
                spelled(symbols, s),
                symbols[s[i] as int] + symbols[s[i + 1] as int],
                at,
            ),
{
    let a = s.take(i);
    let b = s.skip(i + 2);
    let two = seq![s[i]] + seq![s[i + 1]];
    assert(s =~= a + two + b);
    lemma_spelled_concat(symbols, a + two, b);
    lemma_spelled_concat(symbols, a, two);
    lemma_spelled_concat(symbols, seq![s[i]], seq![s[i + 1]]);
    lemma_spelled_one(symbols, s[i]);
    lemma_spelled_one(symbols, s[i + 1]);
    let x = symbols[s[i] as int] + symbols[s[i + 1] as int];
    let at = spelled(symbols, a).len() as int;
    let whole = spelled(symbols, s);
    assert(whole == spelled(symbols, a) + x + spelled(symbols, b));
    assert(whole.subrange(at, at + x.len()) =~= x);
    assert(occurs_at(whole, x, at));
}

/// A pair that goes or comes with a merge stood in the word, on the way.
proof fn lemma_change_spelled(
    symbols: Seq<Seq<u8>>,
    s: Seq<u32>,
    i: int,
    pair: Pair,
    new: u32,
    p: Pair,
)
    requires
        0 <= i,
        symbols[new as int] == symbols[pair.0 as int] + symbols[pair.1 as int],
        touches(changes_from(s, i, pair, new), p),
    ensures
        exists|at: int| #[trigger]
            occurs_at(spelled(symbols, s), symbols[p.0 as int] + symbols[p.1 as int], at),
    decreases s.len() - i,
{
    let all = changes_from(s, i, pair, new);
    let k = choose|k: int| 0 <= k < all.len() && (#[trigger] all[k]).0 == p;
    if pair_at(s, i, pair) {
        let t = joined_at(s, i, new);
        let here = changes_at(s, i, pair, new);
        lemma_joined_spelled(symbols, s, i, pair, new);
        let x = symbols[p.0 as int] + symbols[p.1 as int];
        if k < here.len() {
            assert(all[k] == here[k]);
            assert(s[i] == pair.0 && s[i + 1] == pair.1 && t[i] == new);
            if i >= 1 && k == 0 {
                assert(p == (s[i - 1], s[i]));
                lemma_adjacent_spelled(symbols, s, i - 1);
            } else if i >= 1 && k == 1 {
                assert(p == (t[i - 1], t[i]));
                lemma_adjacent_spelled(symbols, t, i - 1);
            } else {
                let h = if i >= 1 {
                    k - 2
                } else {
                    k
                };
                assert(i + 2 < s.len());
                if h == 0 {
                    assert(p == (s[i + 1], s[i + 2]));
                    lemma_adjacent_spelled(symbols, s, i + 1);
                } else {
                    assert(t[i + 1] == s[i + 2]);
                    assert(p == (t[i], t[i + 1]));
                    lemma_adjacent_spelled(symbols, t, i);
                }
            }
        } else {
            let rest = changes_from(t, i + 1, pair, new);
            assert(all[k] == rest[k - here.len()]);
            assert(touches(rest, p));
            lemma_change_spelled(symbols, t, i + 1, pair, new, p);
        }
        let at = choose|at: int| #[trigger] occurs_at(spelled(symbols, s), x, at);
        assert(occurs_at(spelled(symbols, s), x, at));
    } else {
        lemma_change_spelled(symbols, s, i + 1, pair, new, p);
    }
}

/// Whether training is about words that were counted: each of them spells its word
/// and counts as often, and the pairs that may be merged stand, as bytes, in some of
/// them.
pub open spec fn about(t: Training, counts: Seq<(Vec<u8>, usize)>) -> bool {
    &&& t.words.len() == counts.len()
    &&& forall|k: int|
        0 <= k < counts.len() ==> {
            &&& spelled(t.symbols, (#[trigger] t.words[k]).symbols) == counts[k].0@
            &&& t.words[k].count == counts[k].1
        }
    &&& forall|p: Pair| #[trigger]
        t.queue.contains_key(p) ==> stands_in(
            counts,
            t.symbols[p.0 as int] + t.symbols[p.1 as int],
        )
}

/// Whether a byte string stands in a counted word.
pub open spec fn stands_in(counts: Seq<(Vec<u8>, usize)>, x: Seq<u8>) -> bool {
    exists|k: int, at: int|
        0 <= k < counts.len() && #[trigger] occurs_at(counts[k].0@, x, at)
}

/// Training starts with the bytes of each word as its symbols.
proof fn lemma_start_about(counts: Seq<(Vec<u8>, usize)>, special_tokens: Seq<String>)
    requires
        forall|k: int| 0 <= k < counts.len() ==> (#[trigger] counts[k]).0@.len() > 0,
        load(byte_words(counts), counts.len() as int) <= isize::MAX,
    ensures
        about(training_start(counts, special_tokens), counts),
{
    let t = training_start(counts, special_tokens);
    lemma_training_start_sound(counts, special_tokens);
    assert forall|k: int| 0 <= k < counts.len() implies {
        &&& spelled(t.symbols, (#[trigger] t.words[k]).symbols) == counts[k].0@
        &&& t.words[k].count == counts[k].1
    } by {
        lemma_bytes_spelled(t.symbols, counts[k].0@, t.words[k].symbols);
    }
    assert forall|p: Pair| #[trigger] t.queue.contains_key(p) implies stands_in(
        counts,
        t.symbols[p.0 as int] + t.symbols[p.1 as int],
    ) by {
        lemma_all_pairs(t.words, counts.len() as int, p);
        let k = choose|k: int|
            0 <= k < counts.len() && touches(adjacent(#[trigger] t.words[k].symbols), p);
        let s = t.words[k].symbols;
        let j = choose|j: int| 0 <= j < adjacent(s).len() && (#[trigger] adjacent(s)[j]).0 == p;
        lemma_adjacent_spelled(t.symbols, s, j);
        let x = t.symbols[p.0 as int] + t.symbols[p.1 as int];
        let at = choose|at: int| #[trigger] occurs_at(spelled(t.symbols, s), x, at);
        assert(occurs_at(counts[k].0@, x, at));
    }
}

proof fn lemma_bytes_spelled(symbols: Seq<Seq<u8>>, bytes: Seq<u8>, word: Seq<u32>)
    requires
        word.len() == bytes.len(),
        forall|i: int| 0 <= i < word.len() ==> symbols[#[trigger] word[i] as int] == seq![bytes[i]],
    ensures
        spelled(symbols, word) == bytes,
    decreases word.len(),
{
    if word.len() > 0 {
        let n = word.len() - 1;
        let w = word.drop_last();
        let b = bytes.drop_last();
        assert forall|i: int| 0 <= i < w.len() implies symbols[#[trigger] w[i] as int] == seq![
            b[i],
        ] by {
            assert(w[i] == word[i]);
        }
        lemma_bytes_spelled(symbols, b, w);
        assert(word =~= w + seq![word[n]]);
        lemma_spelled_concat(symbols, w, seq![word[n]]);
        lemma_spelled_one(symbols, word[n]);
        assert(bytes =~= b + seq![bytes[n]]);
    } else {
        assert(spelled(symbols, word) =~= bytes);
    }
}

/// A merge keeps training about the words.
proof fn lemma_after_about(t: Training, counts: Seq<(Vec<u8>, usize)>, pair: Pair)
    requires
        t.sound(),
        about(t, counts),
        t.queue.contains_key(pair),
        t.symbols.len() < u32::MAX,
    ensures
        about(t.after(pair), counts),
{
    let u = t.after(pair);
    let new = t.symbols.len() as u32;
    let n = t.words.len() as int;
    let both = t.symbols[pair.0 as int] + t.symbols[pair.1 as int];
    assert(u.symbols == t.symbols.push(both));
    assert forall|k: int| 0 <= k < counts.len() implies {
        &&& spelled(u.symbols, (#[trigger] u.words[k]).symbols) == counts[k].0@
        &&& u.words[k].count == counts[k].1
        &&& spelled(u.symbols, t.words[k].symbols) == counts[k].0@
    } by {
        let s = t.words[k].symbols;
        assert forall|i: int| 0 <= i < s.len() implies #[trigger] s[i] < t.symbols.len() by {
            assert(t.words[k].symbols[i] < t.symbols.len());
        }
        lemma_spelled_more(t.symbols, both, s);
        lemma_merged_spelled(u.symbols, s, 0, pair, new);
        assert(u.words[k] == merged_word(t.words[k], pair, new));
    }
    assert forall|p: Pair| #[trigger] u.queue.contains_key(p) implies stands_in(
        counts,
        u.symbols[p.0 as int] + u.symbols[p.1 as int],
    ) by {
        if t.queue.contains_key(p) {
            assert(p.0 < t.symbols.len() && p.1 < t.symbols.len());
        } else {
            assert(all_changes(t.words, n, pair, new).contains_key(p));
            lemma_all_changes(t.words, n, pair, new, p);
            let k = choose|k: int|
                0 <= k < n && touches(changes_from(#[trigger] t.words[k].symbols, 0, pair, new), p);
            let s = t.words[k].symbols;
            lemma_change_spelled(u.symbols, s, 0, pair, new, p);
            let x = u.symbols[p.0 as int] + u.symbols[p.1 as int];
            let at = choose|at: int| #[trigger] occurs_at(spelled(u.symbols, s), x, at);
            assert(spelled(u.symbols, u.words[k].symbols) == counts[k].0@);
            assert(occurs_at(counts[k].0@, x, at));
        }
    }
}

/// At every point of training the bytes of each word's symbols, one after the other,
/// are the bytes of the word that was counted, which counts as often as it did; and
/// each pair that may be merged stands, as bytes, in a counted word.
pub proof fn lemma_words_keep_bytes(
    counts: Seq<(Vec<u8>, usize)>,
    special_tokens: Seq<String>,
    pairs: Seq<Pair>,
    target: int,
)
    requires
        forall|k: int| 0 <= k < counts.len() ==> (#[trigger] counts[k]).0@.len() > 0,
        load(byte_words(counts), counts.len() as int) <= isize::MAX,
        training_start(counts, special_tokens).follows(pairs, target),
        target <= u32::MAX,
    ensures
        about(training_start(counts, special_tokens).run(pairs), counts),
    decreases pairs.len(),
{
    let start = training_start(counts, special_tokens);
    lemma_training_start_sound(counts, special_tokens);
    if pairs.len() == 0 {
        lemma_start_about(counts, special_tokens);
    } else {
        lemma_words_keep_bytes(counts, special_tokens, pairs.drop_last(), target);
        lemma_run_sound(start, pairs.drop_last(), target);
        lemma_after_about(start.run(pairs.drop_last()), counts, pairs.last());
    }
}

/// Whether what was learned is made of what was there: behind the bytes and the
/// special tokens stand the merges in order, each the bytes of two symbols before it
/// and part of a counted word.
pub open spec fn well_learned(
    counts: Seq<(Vec<u8>, usize)>,
    special_tokens: Seq<String>,
    symbols: Seq<Seq<u8>>,
    merges: Seq<(Seq<u8>, Seq<u8>)>,
) -> bool {
    let first = 256 + special_tokens.len();
    &&& symbols.len() == first + merges.len()
    &&& forall|b: int| 0 <= b < 256 ==> #[trigger] symbols[b] == seq![b as u8]
    &&& forall|i: int|
        0 <= i < special_tokens.len() ==> symbols[256 + i] == encode_utf8(
            (#[trigger] special_tokens[i])@,
        )
    &&& forall|i: int|
        0 <= i < merges.len() ==> {
            let (a, b) = #[trigger] merges[i];
            &&& symbols[first + i] == a + b
            &&& symbols.take(first + i).contains(a)
            &&& symbols.take(first + i).contains(b)
            &&& stands_in(counts, a + b)
        }
}

proof fn lemma_run_well(
    counts: Seq<(Vec<u8>, usize)>,
    special_tokens: Seq<String>,
    pairs: Seq<Pair>,
    target: int,
)
    requires
        forall|k: int| 0 <= k < counts.len() ==> (#[trigger] counts[k]).0@.len() > 0,
        load(byte_words(counts), counts.len() as int) <= isize::MAX,
        training_start(counts, special_tokens).follows(pairs, target),
        target <= u32::MAX,
    ensures
        ({
            let t = training_start(counts, special_tokens).run(pairs);
            well_learned(counts, special_tokens, t.symbols, t.merges)
        }),
    decreases pairs.len(),
{
    let start = training_start(counts, special_tokens);
    if pairs.len() > 0 {
        let init = pairs.drop_last();
        let pair = pairs.last();
        let t = start.run(init);
        let u = start.run(pairs);
        lemma_run_well(counts, special_tokens, init, target);
        lemma_words_keep_bytes(counts, special_tokens, init, target);
        lemma_training_start_sound(counts, special_tokens);
        lemma_run_sound(start, init, target);
        assert(t.queue.contains_key(pair));
        let first = 256 + special_tokens.len();
        assert forall|i: int| 0 <= i < special_tokens.len() implies u.symbols[256 + i]
            == encode_utf8((#[trigger] special_tokens[i])@) by {
            assert(t.symbols[256 + i] == encode_utf8(special_tokens[i]@));
        }
        assert forall|i: int| 0 <= i < u.merges.len() implies {
            let (a, b) = #[trigger] u.merges[i];
            &&& u.symbols[first + i] == a + b
            &&& u.symbols.take(first + i).contains(a)
            &&& u.symbols.take(first + i).contains(b)
            &&& stands_in(counts, a + b)
        } by {
            let (a, b) = u.merges[i];
            if i < t.merges.len() {
                assert(t.merges[i] == u.merges[i]);
                assert(u.symbols.take(first + i) =~= t.symbols.take(first + i));
            } else {
                assert(u.symbols.take(first + i) =~= t.symbols);
                assert(t.symbols[pair.0 as int] == a);
                assert(t.symbols[pair.1 as int] == b);
            }
        }
    } else {
        let symbols = start.symbols;
        assert forall|i: int| 0 <= i < special_tokens.len() implies symbols[256 + i]
            == encode_utf8((#[trigger] special_tokens[i])@) by {}
    }
}

/// What training learns: the bytes, then the special tokens, then the merges in order,
/// each the bytes of two symbols before it. Every learned token stands in some counted
/// word. There are no more tokens than asked for, beyond those there were, and where
/// there are fewer each word that was counted at all has become one token.
pub proof fn lemma_training_result(
    counts: Seq<(Vec<u8>, usize)>,
    special_tokens: Seq<String>,
    target: int,
    symbols: Seq<Seq<u8>>,
    merges: Seq<(Seq<u8>, Seq<u8>)>,
)
    requires
        forall|k: int| 0 <= k < counts.len() ==> (#[trigger] counts[k]).0@.len() > 0,
        load(byte_words(counts), counts.len() as int) <= isize::MAX,
        target <= u32::MAX,
        training_start(counts, special_tokens).trains(target, symbols, merges),
    ensures
        well_learned(counts, special_tokens, symbols, merges),
        merges.len() == 0 || symbols.len() <= target,
        symbols.len() < target ==> forall|k: int|
            0 <= k < counts.len() && (#[trigger] counts[k]).1 > 0 ==> symbols.contains(
                counts[k].0@,
            ),
{
    let start = training_start(counts, special_tokens);
    let pairs = choose|pairs: Seq<Pair>| #[trigger]
        start.follows(pairs, target) && start.run(pairs).over(target) && symbols == start.run(
            pairs,
        ).symbols && merges == start.run(pairs).merges;
    let t = start.run(pairs);
    lemma_run_well(counts, special_tokens, pairs, target);
    lemma_words_keep_bytes(counts, special_tokens, pairs, target);
    lemma_training_start_sound(counts, special_tokens);
    lemma_run_sound(start, pairs, target);
    lemma_run_symbols(start, pairs);
    if pairs.len() > 0 {
        lemma_run_symbols(start, pairs.drop_last());
    }
    if symbols.len() < target {
        assert forall|k: int| 0 <= k < counts.len() && (#[trigger] counts[k]).1
            > 0 implies symbols.contains(counts[k].0@) by {
            let s = t.words[k].symbols;
            assert(spelled(t.symbols, s) == counts[k].0@);
            if s.len() > 1 {
                let p = (s[0], s[1]);
                assert(adjacent(s)[0].0 == p);
                assert(touches(adjacent(t.words[k].symbols), p));
                lemma_counted(t.words, t.words.len() as int, k, p);
                assert(t.count(p) > 0);
                assert(t.queue.contains_key(p));
            }
            assert(s.len() == 1);
            assert(s =~= seq![s[0]]);
            lemma_spelled_one(t.symbols, s[0]);
            assert(t.words[k].symbols[0] < t.symbols.len());
            assert(t.symbols[s[0] as int] == counts[k].0@);
        }
    }
}

/// How often a pair of symbols stands in a word, counted from the front.
pub open spec fn times(s: Seq<u32>, p: Pair) -> int
    decreases s.len(),
{
    if s.len() < 2 {
        0
    } else {
        (if s[0] == p.0 && s[1] == p.1 {
            1int
        } else {
            0
        }) + times(s.drop_first(), p)
    }
}

/// How often a pair stands in words, each word as often as it counts.
pub open spec fn weight(words: Seq<WordView>, p: Pair) -> int
    decreases words.len(),
{
    if words.len() == 0 {
        0
    } else {
        words[0].count * times(words[0].symbols, p) + weight(words.drop_first(), p)
    }
}

proof fn lemma_times_nonnegative(s: Seq<u32>, p: Pair)
    ensures
        times(s, p) >= 0,
    decreases s.len(),
{
    if s.len() >= 2 {
        lemma_times_nonnegative(s.drop_first(), p);
    }
}

proof fn lemma_times_last(s: Seq<u32>, p: Pair)
    requires
        s.len() >= 2,
    ensures
        times(s, p) == times(s.drop_last(), p) + if s[s.len() - 2] == p.0 && s.last() == p.1 {
            1int
        } else {
            0
        },
    decreases s.len(),
{
    if s.len() > 2 {
        lemma_times_last(s.drop_first(), p);
        assert(s.drop_first().drop_last() =~= s.drop_last().drop_first());
        assert(s.drop_first()[s.len() - 3] == s[s.len() - 2]);
        assert(s.drop_first().last() == s.last());
        assert(s.drop_last()[0] == s[0] && s.drop_last()[1] == s[1]);
    } else {
        assert(times(s.drop_first(), p) == 0);
        assert(times(s.drop_last(), p) == 0);
    }
}

proof fn lemma_tally_times(s: Seq<u32>, p: Pair)
    ensures
        tally(adjacent(s), p) == times(s, p),
    decreases s.len(),
{
    if s.len() >= 2 {
        lemma_tally_times(s.drop_last(), p);
        lemma_times_last(s, p);
        assert(adjacent(s).drop_last() =~= adjacent(s.drop_last()));
        assert(adjacent(s).last() == ((s[s.len() - 2], s.last()), 1int));
    }
}

proof fn lemma_weight_last(words: Seq<WordView>, p: Pair)
    requires
        words.len() > 0,
    ensures
        weight(words, p) == weight(words.drop_last(), p) + words.last().count * times(
            words.last().symbols,
            p,
        ),
    decreases words.len(),
{
    if words.len() > 1 {
        lemma_weight_last(words.drop_first(), p);
        assert(words.drop_first().drop_last() =~= words.drop_last().drop_first());
    } else {
        assert(words.drop_first() =~= words.drop_last());
    }
}

pub proof fn lemma_total_weight(words: Seq<WordView>, n: int, p: Pair)
    requires
        0 <= n <= words.len(),
    ensures
        total(words, n, p) == weight(words.take(n), p),
    decreases n,
{
    if n > 0 {
        lemma_total_weight(words, n - 1, p);
        lemma_weight_last(words.take(n), p);
        assert(words.take(n).drop_last() =~= words.take(n - 1));
        lemma_tally_times(words[n - 1].symbols, p);
        let (x, y) = (times(words[n - 1].symbols, p), words[n - 1].count);
        assert(x * y == y * x) by (nonlinear_arith);
    }
}

proof fn lemma_counted(words: Seq<WordView>, n: int, k: int, p: Pair)
    requires
        0 <= k < n <= words.len(),
        forall|j: int| 0 <= j < words.len() ==> (#[trigger] words[j]).count >= 0,
        words[k].count > 0,
        words[k].symbols.len() >= 2,
        p == (words[k].symbols[0], words[k].symbols[1]),
    ensures
        total(words, n, p) > 0,
    decreases n,
{
    let w = words[n - 1];
    lemma_tally_times(w.symbols, p);
    lemma_times_nonnegative(w.symbols, p);
    let x = times(w.symbols, p);
    let y = w.count;
    assert(x * y >= 0) by (nonlinear_arith)
        requires
            x >= 0,
            y >= 0,
    ;
    if k < n - 1 {
        lemma_counted(words, n - 1, k, p);
    } else {
        lemma_times_nonnegative(w.symbols.drop_first(), p);
        assert(x * y > 0) by (nonlinear_arith)
            requires
                x > 0,
                y > 0,
        ;
        lemma_totals_nonnegative(words, n - 1, p);
    }
}

proof fn lemma_totals_nonnegative(words: Seq<WordView>, n: int, p: Pair)
    requires
        0 <= n <= words.len(),
        forall|j: int| 0 <= j < words.len() ==> (#[trigger] words[j]).count >= 0,
    ensures
        total(words, n, p) >= 0,
    decreases n,
{
    if n > 0 {
        lemma_totals_nonnegative(words, n - 1, p);
        lemma_tally_times(words[n - 1].symbols, p);
        lemma_times_nonnegative(words[n - 1].symbols, p);
        let (x, y) = (times(words[n - 1].symbols, p), words[n - 1].count);
        assert(words[n - 1].count >= 0);
        assert(x * y >= 0) by (nonlinear_arith)
            requires
                x >= 0,
                y >= 0,
        ;
    }
}

/// As long as some pair stands in the words, each merge is of a pair that stands there
/// most often, and of those that stand there as often of one whose bytes come first.
pub proof fn lemma_most_frequent_is_merged(
    counts: Seq<(Vec<u8>, usize)>,
    special_tokens: Seq<String>,
    pairs: Seq<Pair>,
    target: int,
    q: Pair,
)
    requires
        forall|k: int| 0 <= k < counts.len() ==> (#[trigger] counts[k]).0@.len() > 0,
        load(byte_words(counts), counts.len() as int) <= isize::MAX,
        target <= u32::MAX,
        pairs.len() > 0,
        training_start(counts, special_tokens).follows(pairs, target),
    ensures
        ({
            let t = training_start(counts, special_tokens).run(pairs.drop_last());
            let pair = pairs.last();
            let (a, b) = (t.symbols[pair.0 as int], t.symbols[pair.1 as int]);
            let (x, y) = (t.symbols[q.0 as int], t.symbols[q.1 as int]);
            weight(t.words, q) > 0 ==> {
                &&& weight(t.words, q) <= weight(t.words, pair)
                &&& weight(t.words, q) == weight(t.words, pair) ==> !lex_lt(x, a) && (x == a
                    ==> !lex_lt(y, b))
            }
        }),
{
    let start = training_start(counts, special_tokens);
    let t = start.run(pairs.drop_last());
    lemma_training_start_sound(counts, special_tokens);
    lemma_run_sound(start, pairs.drop_last(), target);
    let n = t.words.len() as int;
    assert(t.words.take(n) =~= t.words);
    lemma_total_weight(t.words, n, q);
    lemma_total_weight(t.words, n, pairs.last());
    if weight(t.words, q) > 0 {
        assert(t.count(q) > 0);
        lemma_next_pair_most_frequent(t, pairs.last(), q);
    }
}

/// Merging a pair in a word: up to where it first stands the word stays, there the
/// two symbols become one, and it goes on behind them.
pub proof fn lemma_merged_at_first(s: Seq<u32>, at: int, pair: Pair, new: u32)
    requires
        pair_at(s, at, pair),
        forall|j: int| 0 <= j < at ==> !#[trigger] pair_at(s, j, pair),
    ensures
        merged_from(s, 0, pair, new) == s.take(at) + seq![new] + merged_from(
            s.skip(at + 2),
            0,
            pair,
            new,
        ),
{
    lemma_merged_skips(s, 0, at, pair, new);
    let t = joined_at(s, at, new);
    let head = s.take(at) + seq![new];
    assert(t =~= head + s.skip(at + 2));
    lemma_merged_behind(head, s.skip(at + 2), 0, pair, new);
}

/// A word in which a pair does not stand stays as it is.
pub proof fn lemma_merged_nowhere(s: Seq<u32>, pair: Pair, new: u32)
    requires
        forall|j: int| !#[trigger] pair_at(s, j, pair),
    ensures
        merged_from(s, 0, pair, new) == s,
{
    if s.len() > 1 {
        lemma_merged_skips(s, 0, s.len() - 1, pair, new);
    }
}

proof fn lemma_merged_skips(s: Seq<u32>, i: int, at: int, pair: Pair, new: u32)
    requires
        0 <= i <= at,
        at < s.len(),
        forall|j: int| i <= j < at ==> !#[trigger] pair_at(s, j, pair),
    ensures
        merged_from(s, i, pair, new) == merged_from(s, at, pair, new),
    decreases at - i,
{
    if i < at {
        assert(!pair_at(s, i, pair));
        lemma_merged_skips(s, i + 1, at, pair, new);
    }
}

proof fn lemma_merged_behind(head: Seq<u32>, s: Seq<u32>, i: int, pair: Pair, new: u32)
    requires
        0 <= i,
    ensures
        merged_from(head + s, head.len() + i, pair, new) == head + merged_from(s, i, pair, new),
    decreases s.len() - i,
{
    let t = head + s;
    let at = head.len() + i;
    if i + 1 < s.len() {
        assert(t[at] == s[i] && t[at + 1] == s[i + 1]);
        if pair_at(s, i, pair) {
            assert(joined_at(t, at, new) =~= head + joined_at(s, i, new));
            lemma_merged_behind(head, joined_at(s, i, new), i + 1, pair, new);
        } else {
            lemma_merged_behind(head, s, i + 1, pair, new);
        }
    }
}

} // verus!
