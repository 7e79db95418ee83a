//! Training.

use gigatoken::bpe_train::corpus::train_on_bytes;
use gigatoken::bpe_train::tie::{parse_tie_breaking, TieBreaking};
use gigatoken::bpe_train::train::train_bpe;

fn counts(words: &[(&str, usize)]) -> Vec<(Vec<u8>, usize)> {
    words.iter().map(|(w, n)| (w.as_bytes().to_vec(), *n)).collect()
}

#[test]
fn the_most_frequent_pair_merges_first() {
    let result = train_bpe(counts(&[("low", 5), ("lower", 2), ("newest", 6), ("widest", 3)]), 260, vec![]);
    assert_eq!(result.vocab.len(), 260);
    assert_eq!(result.vocab[97], b"a");
    assert_eq!(result.merges.len(), 4);
    // "es" and "st" occur 9 times each.
    let first = &result.merges[0];
    assert!(first == &(b"e".to_vec(), b"s".to_vec()) || first == &(b"s".to_vec(), b"t".to_vec()));
    for (i, (a, b)) in result.merges.iter().enumerate() {
        assert_eq!(result.vocab[256 + i], [a.clone(), b.clone()].concat());
    }
}

#[test]
fn special_tokens_come_behind_the_bytes() {
    let result = train_bpe(counts(&[("aaab", 10)]), 259, vec!["<|end|>".to_string()]);
    assert_eq!(result.vocab[256], b"<|end|>");
    assert_eq!(result.vocab[257], b"aa");
    assert_eq!(result.merges[0], (b"a".to_vec(), b"a".to_vec()));
}

#[test]
fn training_stops_where_no_pair_is_left() {
    let result = train_bpe(counts(&[("ab", 1)]), 1000, vec![]);
    assert_eq!(result.merges, vec![(b"a".to_vec(), b"b".to_vec())]);
    assert_eq!(result.vocab.len(), 257);
}

#[test]
fn ties_are_broken_by_name() {
    assert_eq!(parse_tie_breaking("huggingface"), Some(TieBreaking::HuggingFace));
    assert_eq!(parse_tie_breaking("raw_token_ids"), Some(TieBreaking::RawTokenIds));
    assert_eq!(parse_tie_breaking("assembled_bytes"), Some(TieBreaking::AssembledBytes));
    assert_eq!(parse_tie_breaking("other"), None);
}

#[test]
fn documents_are_counted_and_learned_from() {
    let text = b"low low low<|endoftext|>lower lowest<|endoftext|>low";
    let result = train_on_bytes(text, b"<|endoftext|>", 3, 258, vec![]);
    assert_eq!(result.vocab.len(), 258);
    // "lo" and "ow" occur six times each, and "low" as often afterwards.
    assert_eq!(result.vocab[257], b"low");
    let none = train_on_bytes(b"", b"<|endoftext|>", 3, 300, vec![]);
    assert!(none.merges.is_empty());
}

#[test]
fn the_order_of_the_words_has_no_part() {
    let forward = [("low", 5), ("lower", 2), ("newest", 6), ("widest", 3)];
    let mut backward = forward;
    backward.reverse();
    let a = train_bpe(counts(&forward), 270, vec![]);
    let b = train_bpe(counts(&backward), 270, vec![]);
    assert_eq!(a.vocab, b.vocab);
    assert_eq!(a.merges, b.merges);
}
