//! Byte-level BPE.

use gigatoken::bpe::merge::{ranked_merge_key, MergeTable, RankedMergeTable};
use gigatoken::bpe::permutation::{ByteRemapping as BytePermutation, NotOneByte};
use gigatoken::bpe::pretoken_cache::ShortPretokenCache;
use gigatoken::bpe::remap::{ByteRemapping, MissingByte};
use gigatoken::bpe::symbols::{
    bpe_merge_symbols, bpe_merge_symbols_ranked, bpe_merge_symbols_with_scratch,
    simple_bpe_merge, MergeScratch,
};
use gigatoken::bpe::tiktoken::{RanksError, Tokenizer};
use gigatoken::encode::slots::SlotTable;
use gigatoken::encode::tiktoken_radix::{encode_lines, encode_lines_lazy};
use gigatoken::pretokenize::options::PretokenizerType;
use gigatoken::pretokenize::pretoken::Pretoken;
use gigatoken::pretokenize::r50k::{pretokenize_as_iter, FastR50kPretokenizer};
use gigatoken::pretokenize::spans::SpanIter;
use gigatoken::token::{cast_token_ids, TokenId};

fn byte_vocab() -> Vec<Vec<u8>> {
    (0..=u8::MAX).map(|byte| vec![byte]).collect()
}

fn with_words(words: &[&str]) -> Vec<Vec<u8>> {
    let mut vocab = byte_vocab();
    vocab.extend(words.iter().map(|w| w.as_bytes().to_vec()));
    vocab
}

fn english() -> Tokenizer {
    Tokenizer::from_ranks(with_words(&[
        "th", "the", " t", " the", "in", "ing", "he", "er", "nd", "an", "and", " and", "é",
    ]))
    .ok()
    .unwrap()
}

fn ids(tokens: &[TokenId]) -> Vec<u32> {
    tokens.iter().map(|t| t.0).collect()
}

#[test]
fn merges_apply_in_rank_order() {
    let mut merges = MergeTable::new();
    merges.insert(TokenId(1), TokenId(2), TokenId(10));
    merges.insert(TokenId(10), TokenId(3), TokenId(11));
    merges.insert(TokenId(2), TokenId(3), TokenId(12));
    let mut symbols = vec![TokenId(1), TokenId(2), TokenId(3), TokenId(2), TokenId(3)];
    bpe_merge_symbols(&merges, &mut symbols);
    assert_eq!(ids(&symbols), [11, 12]);
    // Nothing is left to merge.
    let again = symbols.clone();
    bpe_merge_symbols(&merges, &mut symbols);
    assert_eq!(symbols, again);

    let mut scratch = MergeScratch::new();
    let mut long: Vec<TokenId> = (0..300).map(|i| TokenId(1 + i % 3)).collect();
    bpe_merge_symbols_with_scratch(&merges, &mut long, &mut scratch);
    assert_eq!(ids(&long), vec![11; 100]);
}

#[test]
fn ranks_decide_and_not_ids() {
    let mut merges = RankedMergeTable::new();
    merges.insert(TokenId(1), TokenId(2), TokenId(10), 5);
    merges.insert(TokenId(2), TokenId(3), TokenId(20), 1);
    let mut symbols = vec![TokenId(1), TokenId(2), TokenId(3)];
    bpe_merge_symbols_ranked(&merges, &mut symbols);
    assert_eq!(ids(&symbols), [1, 20]);
    assert_eq!(ranked_merge_key(TokenId(1), TokenId(2)), (1 << 32) | 2);
}

#[test]
fn bytes_merge_one_by_one() {
    let mut merges = MergeTable::new();
    merges.insert(TokenId(104), TokenId(105), TokenId(256));
    assert_eq!(ids(&simple_bpe_merge(&merges, b"hi!")), [256, 33]);
}

#[test]
fn byte_remappings_go_back() {
    let identity = byte_vocab();
    assert!(matches!(ByteRemapping::from_byte_vocab(&identity), Ok(None)));
    let mut swapped = byte_vocab();
    swapped.swap(97, 98);
    let map = ByteRemapping::from_byte_vocab(&swapped).ok().unwrap().unwrap();
    assert_eq!(map.get(97), TokenId(98));
    let mut missing = byte_vocab();
    missing[65] = b"xx".to_vec();
    assert!(matches!(ByteRemapping::from_byte_vocab(&missing), Err(MissingByte(65))));

    let permutation = BytePermutation::from_byte_vocab(&swapped).unwrap().unwrap();
    assert_eq!(permutation.remap_bytes(b"abc"), b"bac");
    assert_eq!(permutation.unmap_bytes(b"bac"), b"abc");
    assert!(matches!(BytePermutation::from_byte_vocab(&identity), Ok(None)));
    assert!(matches!(BytePermutation::from_byte_vocab(&missing), Err(NotOneByte(65))));
    missing[7] = Vec::new();
    assert!(matches!(BytePermutation::from_byte_vocab(&missing), Err(NotOneByte(7))));
}

#[test]
fn ranks_give_merges() {
    let mut tokenizer = english();
    let text = b"the thing and another";
    let mut flat = Vec::new();
    tokenizer.encode_with_added_tokens_flat(text, &mut flat);
    let tokens: Vec<TokenId> = flat.iter().map(|&t| TokenId(t)).collect();
    assert_eq!(tokenizer.decode(&tokens), text);
    assert_eq!(tokenizer.token_of(b" the"), Some(TokenId(259)));
    assert_eq!(flat[0], 257);
    let per_pretoken = tokenizer.encode_with_added_tokens(text);
    assert_eq!(per_pretoken.iter().map(|p| p.len()).sum::<usize>(), flat.len());
    assert_eq!(per_pretoken.len(), 4);
    let merges = tokenizer.merge_entries();
    assert_eq!(merges[0], (&b"t"[..], &b"h"[..]));
    assert_eq!(merges[1], (&b"th"[..], &b"e"[..]));
    assert_eq!(tokenizer.vocab_size(), 269);
    assert_eq!(tokenizer.vocab_entries()[257], (257, &b"the"[..]));
}

#[test]
fn bad_ranks_are_refused() {
    assert!(matches!(
        Tokenizer::try_from_ranks(with_words(&["abc"])),
        Err(RanksError::Unmergeable(256))
    ));
    let mut missing = byte_vocab();
    missing[65] = b"BC".to_vec();
    assert!(matches!(
        Tokenizer::try_from_ranks(missing),
        Err(RanksError::Unmergeable(_)) | Err(RanksError::MissingByte(65))
    ));
    assert!(Tokenizer::try_from_ranks(with_words(&["ab", "abc"])).is_ok());
}

#[test]
fn add_special_token_duplicate_content_agrees_across_forks() {
    let encode = |t: &mut Tokenizer, input: &[u8]| -> Vec<TokenId> {
        t.memoized_encode(pretokenize_as_iter(input)).concat()
    };

    // Added ID above the duplicate's ID.
    let mut merges = MergeTable::new();
    merges.insert(TokenId(104), TokenId(105), TokenId(256)); // 'h' 'i' -> "hi"
    let mut vocab: Vec<Vec<u8>> = (0..=255u32).map(|b| vec![b as u8]).collect();
    vocab.push(b"hi".to_vec()); // id 256 = "hi"
    let mut tok = Tokenizer::new(merges, vocab, None);
    tok.add_special_token(b"hi".to_vec(), TokenId(1000));
    assert_eq!(tok.token_of(b"hi".as_slice()), Some(TokenId(1000)));
    let mut fork = tok.fork();
    assert_eq!(
        encode(&mut tok, b"hi"),
        vec![TokenId(1000)],
        "parent cache must resolve the duplicate to the added ID (vocab_inv's answer)"
    );
    assert_eq!(
        encode(&mut fork, b"hi"),
        vec![TokenId(1000)],
        "forked worker must agree with the parent"
    );

    // The mirror: added ID fills an empty placeholder BELOW the
    // duplicate's ID; the fork's descending reseed alone would pick
    // the higher ID, diverging from vocab_inv and the parent.
    let mut merges = MergeTable::new();
    merges.insert(TokenId(104), TokenId(105), TokenId(257)); // 'h' 'i' -> "hi"
    let mut vocab: Vec<Vec<u8>> = (0..=255u32).map(|b| vec![b as u8]).collect();
    vocab.push(Vec::new()); // id 256: empty placeholder
    vocab.push(b"hi".to_vec()); // id 257 = "hi"
    let mut tok = Tokenizer::new(merges, vocab, None);
    tok.add_special_token(b"hi".to_vec(), TokenId(256));
    assert_eq!(tok.token_of(b"hi".as_slice()), Some(TokenId(256)));
    let mut fork = tok.fork();
    assert_eq!(encode(&mut tok, b"hi"), vec![TokenId(256)]);
    assert_eq!(encode(&mut fork, b"hi"), vec![TokenId(256)]);
}

#[test]
fn short_pretoken_cache_serves_repeated_pretokens() {
    let mut tokenizer = Tokenizer::new(MergeTable::new(), byte_vocab(), None);
    let bytes = b"hello";

    let first = tokenizer.memoized_encode(SpanIter::new(vec![Pretoken(bytes)])).concat();
    let first = ids(&first);
    let expected: Vec<u32> = bytes.iter().map(|&byte| byte as u32).collect();
    assert_eq!(first, expected);

    // The 5-token encoding is too long to inline, so it spilled to the
    // arena, but the cache entry serves it either way.
    assert!(tokenizer.is_cached(bytes));

    let repeated = tokenizer.memoized_encode(SpanIter::new(vec![Pretoken(bytes)])).concat();
    assert_eq!(ids(&repeated), first);
    // The 256 single-byte vocab entries are pre-seeded; "hello" is the
    // one entry the encodes added.
    assert_eq!(tokenizer.cache_mem_stats().0, 257);

    // The zero key marks empty slots in the short table, so an empty
    // pretoken (possible through the public API) must take the long-map
    // path.
    let none = tokenizer.memoized_encode(SpanIter::new(vec![Pretoken(b"")])).concat();
    assert!(none.is_empty());
    assert!(tokenizer.is_cached(&b""[..]));
    assert_eq!(tokenizer.cache_mem_stats().2, 1);
    assert_eq!(tokenizer.pretoken_cache_size(), 258);
}

#[test]
fn concrete_pretokenizer_dispatch_matches_enum_dispatch() {
    let input = "Hello, 世界! café 12345\r\ncan't  stop".as_bytes();

    let make_tokenizer = || Tokenizer::new(MergeTable::new(), byte_vocab(), None);

    let mut reference = make_tokenizer();
    let expected = reference.memoized_encode(FastR50kPretokenizer::new(input)).concat();

    let mut concrete = make_tokenizer();
    concrete.set_pretokenizer_type(PretokenizerType::GPT2);
    assert!(matches!(concrete.pretokenizer_type(), PretokenizerType::GPT2));
    let actual = concrete.encode_with_added_tokens(input).concat();
    assert_eq!(actual, expected);
}

/// Encode without any cache.
fn plain(tokenizer: &Tokenizer, span: &[u8]) -> Vec<u32> {
    let mut out = Vec::new();
    for p in FastR50kPretokenizer::new(span).collect() {
        let mut fresh = tokenizer.fork();
        out.extend(ids(&fresh.encode_pretoken(p.0)));
    }
    out
}

fn check_public_path(tokenizer: &mut Tokenizer, reference: &Tokenizer, span: &[u8]) {
    let mut cached: Vec<u32> = Vec::new();
    tokenizer.encode_with_added_tokens_flat(span, &mut cached);
    assert_eq!(cached, plain(reference, span), "public path mismatch on {:?}", span);
}

#[test]
fn walker_truncated_utf8_tail() {
    let mut tok = english();
    let reference = english();
    let leads: &[&[u8]] = &[
        b"\xc3",
        b"\xe2",
        b"\xe2\x80",
        b"\xe0",
        b"\xe0\xa0",
        b"\xf0",
        b"\xf0\x9f",
        b"\xf0\x9f\x99",
        b"\xf4",
        b"\xf4\x8f",
        b"\xf4\x8f\xbf",
        b"\xf5",
        b"\xf8\x88",
        b"\xff",
        b"\xff\xff",
        b"\xff\xff\xff",
        b"\x80",
        b"\xbf",
        b"\xc0",
        b"\xc1",
    ];
    let prefixes: &[&[u8]] = &[
        b"",
        b"a",
        b"hello",
        b"hello ",
        b"123",
        b" ",
        b"  \n",
        b"!?",
        "é".as_bytes(),
        "好".as_bytes(),
        b"'s",
        b"\xff\xff\xff\xff", // complete invalid run before the tail
    ];
    for &lead in leads {
        for &prefix in prefixes {
            let mut buf = Vec::with_capacity(prefix.len() + lead.len());
            buf.extend_from_slice(prefix);
            buf.extend_from_slice(lead);
            check_public_path(&mut tok, &reference, &buf);
        }
    }
}

#[test]
fn walker_boundary_fuzz_memoized_vs_reference() {
    let mut tok = english();
    let mut reference = english();
    let mut state = 0x243F_6A88_85A3_08D3u64;
    let mut rng = move || {
        state ^= state << 13;
        state ^= state >> 7;
        state ^= state << 17;
        state
    };
    const CHARS: &[&str] = &["é", "ü", "好", "日", "🙂", "ß", "—", "\u{0301}", "٣", "क"];
    let iters = 2_000;
    for iter in 0..iters {
        let len = (rng() % 65) as usize;
        let pad = (rng() % 17) as usize;
        let mut buf: Vec<u8> = Vec::with_capacity(pad + len + 8);
        for _ in 0..pad {
            buf.push(rng() as u8);
        }
        let span_start = buf.len();
        match rng() % 4 {
            0 => {
                // ASCII text: letters, digits, spaces, punct, contractions
                const POOL: &[u8] = b" aetoAETO059'.,!-\n\t\"()s d";
                while buf.len() - span_start < len {
                    buf.push(POOL[(rng() % POOL.len() as u64) as usize]);
                }
            }
            1 => {
                // Raw bytes: full 0..=255, mostly invalid UTF-8,
                // truncated tails included.
                while buf.len() - span_start < len {
                    buf.push(rng() as u8);
                }
            }
            2 => {
                // Valid UTF-8 mix: fill to >= len, then trim whole
                // chars back to <= len so the span stays valid UTF-8.
                while buf.len() - span_start < len {
                    if rng() % 2 == 0 {
                        buf.push(b' ' + (rng() % 94) as u8);
                    } else {
                        buf.extend_from_slice(
                            CHARS[(rng() % CHARS.len() as u64) as usize].as_bytes(),
                        );
                    }
                }
                while buf.len() - span_start > len
                    || std::str::from_utf8(&buf[span_start..]).is_err()
                {
                    buf.pop();
                }
            }
            _ => {
                // Whitespace-heavy
                const POOL: &[u8] = b"   \n\n\t\r a5.";
                while buf.len() - span_start < len {
                    buf.push(POOL[(rng() % POOL.len() as u64) as usize]);
                }
            }
        }
        buf.truncate(span_start + len.min(buf.len() - span_start));
        let span = &buf[span_start..];
        let mut cached: Vec<u32> = Vec::new();
        let mut expected: Vec<u32> = Vec::new();
        for p in FastR50kPretokenizer::new(span).collect() {
            expected.extend(ids(&reference.encode_pretoken(p.0)));
        }
        tok.encode_with_added_tokens_flat(span, &mut cached);
        assert_eq!(cached, expected, "public path mismatch at iter {iter} on {:?}", span);
    }
}

#[test]
fn walker_edge_length_pretokens() {
    let mut tok = english();
    let mut reference = english();
    let lens: &[usize] = &[
        1, 2, 7, 8, 14, 15, 16, 17, 31, 32, 63, 64, 65, 127, 128, 255, 256, 4095, 4096, 4097,
        65_535, 65_536, 65_537, 70_003,
    ];
    let fills: &[&[u8]] = &[
        b"a",
        b"5",
        b" ",
        b"!",
        b"\n",
        "\u{e9}".as_bytes(),   // é (2-byte letter)
        "\u{597d}".as_bytes(), // 好 (3-byte letter)
        b"\xff",               // invalid UTF-8
    ];
    let mut check = |buf: &[u8]| {
        let mut cached: Vec<u32> = Vec::new();
        tok.encode_with_added_tokens_flat(buf, &mut cached);
        let mut expected: Vec<u32> = Vec::new();
        for p in FastR50kPretokenizer::new(buf).collect() {
            expected.extend(ids(&reference.encode_pretoken(p.0)));
        }
        assert!(cached == expected);
    };
    for &n in lens {
        for fill in fills {
            // Repeat fill to >= n bytes, then cut to n only for 1-byte
            // fills (multi-byte fills keep whole chars).
            let reps = n / fill.len() + usize::from(n % fill.len() != 0);
            if reps == 0 {
                continue;
            }
            let exact = if fill.len() == 1 { n } else { reps * fill.len() };
            let mut buf: Vec<u8> = Vec::with_capacity(exact);
            while buf.len() < exact {
                buf.extend_from_slice(fill);
            }
            buf.truncate(exact);
            check(&buf);
            // Space-prefixed variant hits the space-fused starts.
            let mut buf2: Vec<u8> = Vec::with_capacity(exact + 1);
            buf2.push(b' ');
            buf2.extend_from_slice(&buf);
            check(&buf2);
            // 0xFF run with a letter tail: the last garbage 4-byte decode
            // straddles into the letters.
            if *fill == b"\xff" && exact >= 4 {
                let mut buf3 = buf.clone();
                let e = buf3.len();
                buf3[e - 3..].copy_from_slice(b"cba");
                check(&buf3);
            }
        }
    }
}

#[test]
fn added_tokens_are_matched_first() {
    let mut tokenizer = english();
    tokenizer.set_added_tokens(vec![
        (b"<|end|>".to_vec(), TokenId(500)),
        (b"<|end|>x".to_vec(), TokenId(501)),
    ]);
    let mut flat = Vec::new();
    tokenizer.encode_with_added_tokens_flat(b"the<|end|>x<|end|>", &mut flat);
    assert_eq!(flat, [257, 501, 500]);
    assert_eq!(tokenizer.added_token_contents(), [&b"<|end|>x"[..], b"<|end|>"]);
}

#[test]
fn nfc_is_applied_where_asked() {
    let mut tokenizer = english();
    let mut apart = Vec::new();
    tokenizer.encode_with_added_tokens_flat("e\u{301}".as_bytes(), &mut apart);
    tokenizer.set_normalize_nfc(true);
    let mut composed = Vec::new();
    tokenizer.encode_with_added_tokens_flat("e\u{301}".as_bytes(), &mut composed);
    assert_eq!(composed, [268]);
    assert_eq!(apart.len(), 3);
}

#[test]
fn lines_encode_as_documents_do() {
    let tokenizer = english();
    let lines: Vec<&[u8]> = vec![b"the thing", b"", b"and the other thing and the thing", b"x"];
    let (tokens, ends) = encode_lines(&lines, &tokenizer);
    let mut want = Vec::new();
    let mut want_ends = vec![0];
    let mut t = tokenizer.fork();
    for line in &lines {
        t.encode_with_added_tokens_flat(line, &mut want);
        want_ends.push(want.len());
    }
    assert_eq!(ids(&tokens), want);
    assert_eq!(ends, want_ends);
    assert_eq!(encode_lines_lazy(&lines, &tokenizer), want.len());
}

#[test]
fn whole_words_are_what_merging_gives() {
    let mut tokenizer = english();
    let words: [&[u8]; 6] = [b"the", b" and", b"thing", b"x", b"", b"zebra"];
    for _ in 0..2 {
        for word in words {
            let looked_up = tokenizer.memoized_encode(SpanIter::new(vec![Pretoken(word)])).concat();
            let mut merged: Vec<TokenId> = word.iter().map(|&b| TokenId(b as u32)).collect();
            bpe_merge_symbols(&tokenizer.model().merges, &mut merged);
            assert_eq!(looked_up, merged);
        }
    }
}

#[test]
fn the_short_cache_grows_and_keeps() {
    let mut cache = ShortPretokenCache::new();
    for k in 1..2000u128 {
        cache.insert(k, k as u64 * 3, k as u64 * 5);
    }
    assert_eq!(cache.len(), 1999);
    for k in [1u128, 77, 1999] {
        let h = gigatoken::pretokenize::keys::pretoken_key_hash(k);
        assert_eq!(cache.get(k, h), Some((k as u64 * 3, k as u64 * 5)));
    }
    let h = gigatoken::pretokenize::keys::pretoken_key_hash(5000);
    assert_eq!(cache.get(5000, h), None);
}

#[test]
fn keys_are_found_in_their_home_pair() {
    let h = gigatoken::pretokenize::keys::pretoken_key_hash;
    let mut cache = ShortPretokenCache::new();
    assert_eq!(cache.probe_pair(7, h(7)), (0, 0, false));
    cache.insert(7, 21, 35);
    assert_eq!(cache.probe_pair(7, h(7)), (21, 35, true));
    for k in 8..500u128 {
        cache.insert(k, k as u64, 0);
    }
    // Wherever a key is, a lookup in its home pair agrees with a full one.
    for k in 7..500u128 {
        let (val, ext, found) = cache.probe_pair(k, h(k));
        if found {
            assert_eq!(cache.get(k, h(k)), Some((val, ext)));
        }
    }
    assert!(!cache.probe_pair(5000, h(5000)).2);
}

#[test]
fn an_empty_slot_table_has_no_pretoken() {
    let table = SlotTable::for_text(0);
    let mut out = vec![TokenId(3)];
    assert!(!table.emit(b"the", &mut out));
    assert_eq!(ids(&out), [3]);
    assert_eq!(table.count(b"longer than eight"), None);
}

#[test]
fn ids_are_cast_or_refused() {
    assert_eq!(cast_token_ids(&[0, 7, u32::MAX as i128]), Ok(vec![TokenId(0), TokenId(7), TokenId(u32::MAX)]));
    assert_eq!(cast_token_ids(&[1, -1, 1 << 40]), Err(-1));
    assert_eq!(cast_token_ids(&[1 << 40]), Err(1 << 40));
}
