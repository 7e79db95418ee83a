//! Laws: what training learns, in terms of the pretokens of a corpus.

use vstd::prelude::*;
use vstd::utf8::encode_utf8;

use crate::bpe::tiktoken::total_len;
use crate::bpe_train::corpus::{
    lemma_load_taken, lemma_occurs_somewhere, lemma_taken, lists_words, trained_on,
};
use crate::bpe_train::counts::{lemma_all_pairs, load};
use crate::bpe_train::laws::{
    lemma_most_frequent_is_merged, lemma_total_weight, lemma_training_result, stands_in, times,
    weight,
};
use crate::bpe_train::pairs::{adjacent, touches, Pair};
use crate::bpe_train::train::{
    byte_words, first_symbols, lemma_run_symbols, lemma_training_start_sound, merge_views,
    training_start, BPEResult, Training,
};
use crate::bpe_train::word::WordView;
use crate::pretokenize::counts::occurrences;
use crate::seqs::{byte_seqs, occurs_at};
use crate::string_laws::lemma_lex_order;

verus! {

/// How often byte `x` stands right before byte `y` in a byte string.
pub open spec fn neighbours(w: Seq<u8>, x: u8, y: u8) -> int
    decreases w.len(),
{
    if w.len() < 2 {
        0
    } else {
        (if w[0] == x && w[1] == y {
            1int
        } else {
            0
        }) + neighbours(w.drop_first(), x, y)
    }
}

/// How often byte `x` stands right before byte `y` in the pretokens of a list.
pub open spec fn neighbours_in(ps: Seq<Seq<u8>>, x: u8, y: u8) -> int
    decreases ps.len(),
{
    if ps.len() == 0 {
        0
    } else {
        neighbours_in(ps.drop_last(), x, y) + neighbours(ps.last(), x, y)
    }
}

proof fn lemma_neighbours_are_times(w: Seq<u8>, x: u8, y: u8)
    ensures
        neighbours(w, x, y) == times(w.map_values(|b: u8| b as u32), (x as u32, y as u32)),
    decreases w.len(),
{
    let f = |b: u8| b as u32;
    if w.len() >= 2 {
        lemma_neighbours_are_times(w.drop_first(), x, y);
        assert(w.map_values(f).drop_first() =~= w.drop_first().map_values(f));
    }
}

/// What the first `n` words hold of two neighbours, each as often as it occurs.
spec fn words_hold(words: Seq<(Vec<u8>, usize)>, n: int, ps: Seq<Seq<u8>>, x: u8, y: u8) -> int
    decreases n,
{
    if n <= 0 {
        0
    } else {
        words_hold(words, n - 1, ps, x, y) + occurrences(ps, words[n - 1].0@) * neighbours(
            words[n - 1].0@,
            x,
            y,
        )
    }
}

proof fn lemma_hold_one_more(
    words: Seq<(Vec<u8>, usize)>,
    n: int,
    ps: Seq<Seq<u8>>,
    x: u8,
    y: u8,
)
    requires
        0 <= n <= words.len(),
        ps.len() > 0,
        forall|i: int, j: int|
            0 <= i < j < words.len() ==> (#[trigger] words[i]).0@ != (#[trigger] words[j]).0@,
    ensures
        (forall|i: int| 0 <= i < n ==> (#[trigger] words[i]).0@ != ps.last()) ==> words_hold(
            words,
            n,
            ps,
            x,
            y,
        ) == words_hold(words, n, ps.drop_last(), x, y),
        (exists|i: int| 0 <= i < n && (#[trigger] words[i]).0@ == ps.last()) ==> words_hold(
            words,
            n,
            ps,
            x,
            y,
        ) == words_hold(words, n, ps.drop_last(), x, y) + neighbours(ps.last(), x, y),
    decreases n,
{
    if n > 0 {
        lemma_hold_one_more(words, n - 1, ps, x, y);
        let w = words[n - 1].0@;
        let k = occurrences(ps.drop_last(), w);
        let c = neighbours(w, x, y);
        assert((k + 1) * c == k * c + c) by (nonlinear_arith);
        if w == ps.last() {
            assert forall|i: int| 0 <= i < n - 1 implies (#[trigger] words[i]).0@ != ps.last() by {
                assert(words[i].0@ != words[n - 1].0@);
            }
        }
    }
}

proof fn lemma_hold_nothing(words: Seq<(Vec<u8>, usize)>, n: int, ps: Seq<Seq<u8>>, x: u8, y: u8)
    requires
        ps.len() == 0,
    ensures
        words_hold(words, n, ps, x, y) == 0,
    decreases n,
{
    if n > 0 {
        lemma_hold_nothing(words, n - 1, ps, x, y);
        let c = neighbours(words[n - 1].0@, x, y);
        assert(0 * c == 0) by (nonlinear_arith);
    }
}

/// Whether a byte string is one of the words.
spec fn is_word(words: Seq<(Vec<u8>, usize)>, p: Seq<u8>) -> bool {
    exists|i: int| 0 <= i < words.len() && (#[trigger] words[i]).0@ == p
}

proof fn lemma_words_hold_all(
    words: Seq<(Vec<u8>, usize)>,
    ps: Seq<Seq<u8>>,
    x: u8,
    y: u8,
)
    requires
        forall|i: int, j: int|
            0 <= i < j < words.len() ==> (#[trigger] words[i]).0@ != (#[trigger] words[j]).0@,
        forall|k: int| 0 <= k < ps.len() ==> is_word(words, #[trigger] ps[k]),
    ensures
        words_hold(words, words.len() as int, ps, x, y) == neighbours_in(ps, x, y),
    decreases ps.len(),
{
    let n = words.len() as int;
    if ps.len() == 0 {
        lemma_hold_nothing(words, n, ps, x, y);
    } else {
        let init = ps.drop_last();
        assert forall|k: int| 0 <= k < init.len() implies is_word(words, #[trigger] init[k]) by {
            assert(init[k] == ps[k]);
        }
        lemma_words_hold_all(words, init, x, y);
        assert(ps[ps.len() - 1] == ps.last());
        lemma_hold_one_more(words, n, ps, x, y);
    }
}

/// The weight of words, front to back, is what they hold.
proof fn lemma_weight_of_words(
    words: Seq<(Vec<u8>, usize)>,
    n: int,
    ps: Seq<Seq<u8>>,
    x: u8,
    y: u8,
)
    requires
        0 <= n <= words.len(),
        forall|i: int|
            0 <= i < words.len() ==> (#[trigger] words[i]).1 == occurrences(ps, words[i].0@),
    ensures
        weight(byte_words(words).take(n), (x as u32, y as u32)) == words_hold(words, n, ps, x, y),
    decreases n,
{
    let p: Pair = (x as u32, y as u32);
    let views = byte_words(words);
    if n > 0 {
        lemma_weight_of_words(words, n - 1, ps, x, y);
        lemma_weight_push(views.take(n - 1), views[n - 1], p);
        assert(views.take(n) =~= views.take(n - 1).push(views[n - 1]));
        lemma_neighbours_are_times(words[n - 1].0@, x, y);
        let c = neighbours(words[n - 1].0@, x, y);
        assert(views[n - 1].count == occurrences(ps, words[n - 1].0@));
    } else {
        assert(views.take(0) =~= Seq::empty());
    }
}

proof fn lemma_weight_push(
    words: Seq<WordView>,
    w: WordView,
    p: Pair,
)
    ensures
        weight(words.push(w), p) == weight(words, p) + w.count * times(w.symbols, p),
    decreases words.len(),
{
    let all = words.push(w);
    if words.len() == 0 {
        assert(all.drop_first() =~= Seq::empty());
        assert(weight(all.drop_first(), p) == 0);
    } else {
        lemma_weight_push(words.drop_first(), w, p);
        assert(all.drop_first() =~= words.drop_first().push(w));
        assert(all[0] == words[0]);
    }
}

/// Words that list pretokens, and what training needs to know of them.
proof fn lemma_listed(words: Seq<(Vec<u8>, usize)>, ps: Seq<Seq<u8>>)
    requires
        lists_words(words, ps),
        total_len(ps) <= isize::MAX,
        forall|k: int| 0 <= k < ps.len() ==> (#[trigger] ps[k]).len() > 0,
    ensures
        forall|k: int| 0 <= k < words.len() ==> (#[trigger] words[k]).0@.len() > 0,
        load(byte_words(words), words.len() as int) <= isize::MAX,
        forall|k: int| 0 <= k < ps.len() ==> is_word(words, #[trigger] ps[k]),
        forall|i: int| 0 <= i < words.len() ==> ps.contains((#[trigger] words[i]).0@),
        forall|i: int| 0 <= i < words.len() ==> (#[trigger] words[i]).1 > 0,
{
    let n = words.len() as int;
    lemma_load_taken(words, n, ps);
    lemma_taken(words, n, ps);
    assert forall|i: int| 0 <= i < words.len() implies ps.contains((#[trigger] words[i]).0@)
        && words[i].0@.len() > 0 by {
        lemma_occurs_somewhere(ps, words[i].0@);
        let k = choose|k: int| 0 <= k < ps.len() && #[trigger] ps[k] == words[i].0@;
        assert(ps[k].len() > 0);
    }
    assert forall|k: int| 0 <= k < ps.len() implies is_word(words, #[trigger] ps[k]) by {
        lemma_occurs(ps, k);
    }
}

proof fn lemma_occurs(ps: Seq<Seq<u8>>, k: int)
    requires
        0 <= k < ps.len(),
    ensures
        occurrences(ps, ps[k]) > 0,
    decreases ps.len(),
{
    if k < ps.len() - 1 {
        assert(ps.drop_last()[k] == ps[k]);
        lemma_occurs(ps.drop_last(), k);
    }
}

/// What is learned from pretokens: the tokens are the bytes, the special tokens and one
/// for each merge, in this order; each merge is of two tokens before it, makes their
/// bytes, and stands in some pretoken; there are no more tokens than asked for beyond
/// the first ones; and where there are fewer, every pretoken has become a token.
pub proof fn lemma_learned_from_pretokens(
    ps: Seq<Seq<u8>>,
    special_tokens: Seq<String>,
    vocab_size: int,
    r: BPEResult,
)
    requires
        trained_on(ps, special_tokens, vocab_size, r),
        total_len(ps) <= isize::MAX,
        forall|k: int| 0 <= k < ps.len() ==> (#[trigger] ps[k]).len() > 0,
        vocab_size <= u32::MAX,
    ensures
        ({
            let first = 256 + special_tokens.len();
            let vocab = byte_seqs(r.vocab@);
            &&& vocab.len() == first + r.merges@.len()
            &&& forall|b: int| 0 <= b < 256 ==> #[trigger] vocab[b] == seq![b as u8]
            &&& forall|i: int|
                0 <= i < special_tokens.len() ==> vocab[256 + i] == encode_utf8(
                    (#[trigger] special_tokens[i])@,
                )
            &&& forall|i: int|
                0 <= i < r.merges@.len() ==> {
                    let (a, b) = #[trigger] r.merges@[i];
                    &&& vocab[first + i] == a@ + b@
                    &&& vocab.take(first + i).contains(a@)
                    &&& vocab.take(first + i).contains(b@)
                    &&& stands_in_some(ps, a@ + b@)
                }
            &&& r.merges@.len() == 0 || vocab.len() <= vocab_size
            &&& vocab.len() < vocab_size ==> forall|k: int|
                0 <= k < ps.len() ==> vocab.contains(#[trigger] ps[k])
        }),
{
    let words = choose|words: Seq<(Vec<u8>, usize)>| #[trigger]
        lists_words(words, ps) && training_start(words, special_tokens).trains(
            vocab_size,
            byte_seqs(r.vocab@),
            merge_views(r.merges@),
        );
    let vocab = byte_seqs(r.vocab@);
    let merges = merge_views(r.merges@);
    lemma_listed(words, ps);
    lemma_training_result(words, special_tokens, vocab_size, vocab, merges);
    let first = 256 + special_tokens.len();
    assert forall|i: int| 0 <= i < r.merges@.len() implies {
        let (a, b) = #[trigger] r.merges@[i];
        &&& vocab[first + i] == a@ + b@
        &&& vocab.take(first + i).contains(a@)
        &&& vocab.take(first + i).contains(b@)
        &&& stands_in_some(ps, a@ + b@)
    } by {
        let (a, b) = merges[i];
        assert(stands_in(words, a + b));
        let (k, at) = choose|k: int, at: int|
            0 <= k < words.len() && #[trigger] occurs_at(words[k].0@, a + b, at);
        assert(ps.contains(words[k].0@));
        let j = choose|j: int| 0 <= j < ps.len() && ps[j] == words[k].0@;
        assert(occurs_at(ps[j], a + b, at));
    }
    if vocab.len() < vocab_size {
        assert forall|k: int| 0 <= k < ps.len() implies vocab.contains(#[trigger] ps[k]) by {
            assert(is_word(words, ps[k]));
            let i = choose|i: int| 0 <= i < words.len() && (#[trigger] words[i]).0@ == ps[k];
            assert(words[i].1 > 0);
        }
    }
}

/// Whether a byte string stands in some pretoken.
pub open spec fn stands_in_some(ps: Seq<Seq<u8>>, x: Seq<u8>) -> bool {
    exists|k: int, at: int| 0 <= k < ps.len() && #[trigger] occurs_at(ps[k], x, at)
}

proof fn lemma_follows_prefix(t: Training, pairs: Seq<Pair>, target: int, n: int)
    requires
        t.follows(pairs, target),
        0 <= n <= pairs.len(),
    ensures
        t.follows(pairs.take(n), target),
        t.run(pairs.take(n)).merges == t.run(pairs).merges.take(t.merges.len() + n),
    decreases pairs.len(),
{
    if n == pairs.len() {
        assert(pairs.take(n) =~= pairs);
        lemma_run_symbols(t, pairs);
        assert(t.run(pairs).merges.take(t.merges.len() + n) =~= t.run(pairs).merges);
    } else {
        lemma_follows_prefix(t, pairs.drop_last(), target, n);
        assert(pairs.drop_last().take(n) =~= pairs.take(n));
        lemma_run_symbols(t, pairs.drop_last());
        assert(t.run(pairs).merges.take(t.merges.len() + n) =~= t.run(
            pairs.drop_last(),
        ).merges.take(t.merges.len() + n));
    }
}

/// The first merge is of the two bytes that stand next to each other most often in the
/// pretokens, every occurrence of a pretoken counted; of those that do so as often, of
/// the ones that come first. Special tokens take no part.
pub proof fn lemma_first_merge(
    ps: Seq<Seq<u8>>,
    special_tokens: Seq<String>,
    vocab_size: int,
    r: BPEResult,
    x: u8,
    y: u8,
) -> (ab: (u8, u8))
    requires
        trained_on(ps, special_tokens, vocab_size, r),
        total_len(ps) <= isize::MAX,
        forall|k: int| 0 <= k < ps.len() ==> (#[trigger] ps[k]).len() > 0,
        vocab_size <= u32::MAX,
        neighbours_in(ps, x, y) > 0,
        256 + special_tokens.len() < vocab_size,
    ensures
        r.merges@.len() > 0,
        r.merges@[0].0@ == seq![ab.0],
        r.merges@[0].1@ == seq![ab.1],
        neighbours_in(ps, x, y) <= neighbours_in(ps, ab.0, ab.1),
        neighbours_in(ps, x, y) == neighbours_in(ps, ab.0, ab.1) ==> ab.0 < x || (ab.0 == x && ab.1
            <= y),
{
    let words = choose|words: Seq<(Vec<u8>, usize)>| #[trigger]
        lists_words(words, ps) && training_start(words, special_tokens).trains(
            vocab_size,
            byte_seqs(r.vocab@),
            merge_views(r.merges@),
        );
    let merges = merge_views(r.merges@);
    let symbols = byte_seqs(r.vocab@);
    let start = training_start(words, special_tokens);
    let pairs = choose|pairs: Seq<Pair>| #[trigger]
        start.follows(pairs, vocab_size) && start.run(pairs).over(vocab_size) && symbols
            == start.run(pairs).symbols && merges == start.run(pairs).merges;
    let n = words.len() as int;
    let q: Pair = (x as u32, y as u32);
    lemma_listed(words, ps);
    assert(byte_words(words).take(n) =~= byte_words(words));
    lemma_weight_of_words(words, n, ps, x, y);
    lemma_words_hold_all(words, ps, x, y);
    assert(weight(start.words, q) == neighbours_in(ps, x, y));
    lemma_training_start_sound(words, special_tokens);
    lemma_run_symbols(start, pairs);
    assert(start.symbols.len() == 256 + special_tokens.len());
    if pairs.len() == 0 {
        lemma_total_weight(start.words, n, q);
        assert(start.words.take(n) =~= start.words);
        assert(start.count(q) != 0);
        assert(start.queue.contains_key(q));
        assert(false);
    }
    lemma_follows_prefix(start, pairs, vocab_size, 1);
    let one = pairs.take(1);
    assert(one.drop_last() =~= Seq::<Pair>::empty());
    assert(start.run(one.drop_last()) == start);
    let p = one.last();
    assert(start.next_pair(p));
    lemma_most_frequent_is_merged(words, special_tokens, one, vocab_size, q);
    let (a, b) = (start.symbols[p.0 as int], start.symbols[p.1 as int]);
    assert(start.run(one).merges =~= seq![(a, b)]);
    assert(start.run(one).merges[0] == merges[0]);
    assert(merges[0] == (r.merges@[0].0@, r.merges@[0].1@));
    let (u, v) = lemma_start_pair(words, special_tokens, p);
    lemma_weight_of_words(words, n, ps, u, v);
    lemma_words_hold_all(words, ps, u, v);
    assert(start.symbols[x as int] == seq![x]);
    assert(start.symbols[y as int] == seq![y]);
    assert(seq![x].take(0) =~= seq![u].take(0));
    assert(seq![y].take(0) =~= seq![v].take(0));
    lemma_lex_order(seq![x], seq![u], 0);
    lemma_lex_order(seq![y], seq![v], 0);
    (u, v)
}

/// The pairs that training starts with are of bytes.
proof fn lemma_start_pair(
    words: Seq<(Vec<u8>, usize)>,
    special_tokens: Seq<String>,
    p: Pair,
) -> (uv: (u8, u8))
    requires
        training_start(words, special_tokens).sound(),
        training_start(words, special_tokens).queue.contains_key(p),
    ensures
        p.0 == uv.0,
        p.1 == uv.1,
        first_symbols(special_tokens)[p.0 as int] == seq![uv.0],
        first_symbols(special_tokens)[p.1 as int] == seq![uv.1],
{
    let t = training_start(words, special_tokens);
    let n = words.len() as int;
    lemma_all_pairs(t.words, n, p);
    let k = choose|k: int|
        0 <= k < n && touches(
            adjacent(#[trigger] t.words[k].symbols),
            p,
        );
    let s = t.words[k].symbols;
    let adj = adjacent(s);
    let j = choose|j: int| 0 <= j < adj.len() && (#[trigger] adj[j]).0 == p;
    let w = words[k].0@;
    assert(s == w.map_values(|b: u8| b as u32));
    assert(p == (s[j], s[j + 1]));
    (w[j], w[j + 1])
}

} // verus!
