use glasik_core::tokenizer::codon::{self, decode, encode, ESCAPE};
use glasik_core::tokenizer::dictionary::{
    self, build, build_second_pass, deserialize, extract_residual, serialize, DictEntry, MAX_ENTRIES, MIN_FREQ,
};
use glasik_core::tokenizer::lz77_gn::{
    decode_gn_bytes, deflate_stored_blocks, deflate_with_libdeflater, tokens_to_gn_bytes, GNHybridEncoder,
    GNPrefixTokenizer, PrefixIndex, Token,
};
use glasik_core::tokenizer::preseed::{detect, preseed, Category};
use glasik_core::tokenizer::sliding::SlidingTokenizer;
use glasik_core::tokenizer::Tokenizer;

fn entry(s: &str) -> DictEntry {
    DictEntry { bytes: s.as_bytes().to_vec(), freq: 10, saving: 100 }
}

fn rep(s: &str, n: usize) -> Vec<u8> {
    s.repeat(n).into_bytes()
}

// ---------------------------------------------------------------------------
// Codon tables
// ---------------------------------------------------------------------------

#[test]
fn test_roundtrip_empty_dict() {
    let buf = b"hello world".to_vec();
    let enc = encode(&buf, &[]);
    let dec = decode(&enc, &[]);
    assert_eq!(dec, buf);
}

#[test]
fn test_roundtrip_with_dict() {
    let entries = vec![entry("hello"), entry("world")];
    let buf = b"hello world hello world".to_vec();
    let enc = encode(&buf, &entries);
    let dec = decode(&enc, &entries);
    assert_eq!(dec, buf, "roundtrip failed");
    assert!(enc.len() < buf.len(), "should compress");
}

#[test]
fn test_escape_literal() {
    let mut buf = b"data".to_vec();
    buf.push(ESCAPE);
    buf.extend_from_slice(b"more");
    let enc = encode(&buf, &[]);
    let dec = decode(&enc, &[]);
    assert_eq!(dec, buf, "literal ESCAPE roundtrip failed");
}

#[test]
fn test_full_pipeline() {
    let corpus = b"the quick brown fox jumps over the lazy dog \
                    the quick brown fox jumps over the lazy dog \
                    the quick brown fox jumps over the lazy dog"
        .to_vec();
    let entries = dictionary::build(&corpus);
    assert!(!entries.is_empty(), "should build dictionary from repetitive corpus");
    let enc = encode(&corpus, &entries);
    let dec = decode(&enc, &entries);
    assert_eq!(dec, corpus, "full pipeline roundtrip failed");
    assert!(enc.len() < corpus.len(), "should achieve compression");
}

#[test]
fn test_lossless_real_messages() {
    let msg = "user123 joined channel #general at 2024-01-01 ";
    let corpus: Vec<u8> = msg.repeat(50).into_bytes();
    let entries = dictionary::build(&corpus);
    let enc = encode(&corpus, &entries);
    let dec = decode(&enc, &entries);
    assert_eq!(dec, corpus, "message batch roundtrip failed");
}

#[test]
fn test_token_collision_safety() {
    let entries = vec![entry("hello world"), entry("hello"), entry("world")];
    let buf = b"hello world hello world".to_vec();
    let enc = encode(&buf, &entries);
    let dec = decode(&enc, &entries);
    assert_eq!(dec, buf);
}

#[test]
fn codon_exact_tokens() {
    let entries = vec![entry("hello")];
    let enc = encode(b"hello!", &entries);
    assert_eq!(enc, vec![ESCAPE, 1, b'!']);
    let enc = encode(&[ESCAPE, b'a'], &entries);
    assert_eq!(enc, vec![ESCAPE, 0x00, b'a']);
}

#[test]
fn codon_longest_entry_wins() {
    let entries = vec![entry("hello"), entry("hello world")];
    assert_eq!(encode(b"hello world", &entries), vec![ESCAPE, 2]);
}

#[test]
fn codon_interleaved_decode() {
    let entries = vec![entry("abcd")];
    // two literals, token 1, then one trailing literal
    let pairs = [2, 0, 1, 1, 0];
    let out = codon::decode_ac_interleaved(&pairs, b"xyz", &entries).unwrap();
    assert_eq!(out, b"xyabcdz".to_vec());
    assert!(codon::decode_ac_interleaved(&[1], b"", &entries).is_err());
    assert!(codon::decode_ac_interleaved(&[0, 0, 9, 0, 0], b"", &entries).is_err());
}

#[test]
fn codon_tier_ids() {
    assert_eq!(codon::tier_for_pattern_idx(0), 0);
    assert_eq!(codon::tier_for_pattern_idx(63), 1);
    assert_eq!(codon::tier_for_pattern_idx(127), 2);
    assert_eq!(codon::tier_for_pattern_idx(200), 3);
    assert_eq!(codon::pattern_idx_to_token_id(0), Some(1));
    assert_eq!(codon::pattern_idx_to_token_id(253), Some(254));
    assert_eq!(codon::pattern_idx_to_token_id(254), None);
}

// ---------------------------------------------------------------------------
// Dictionaries
// ---------------------------------------------------------------------------

#[test]
fn test_build_finds_repeated_substring() {
    let buf = rep("hello world ", 20);
    let dict = build(&buf);
    assert!(!dict.is_empty());
    assert!(dict[0].freq >= MIN_FREQ);
}

#[test]
fn test_build_empty() {
    assert!(build(&[]).is_empty());
}

#[test]
fn test_build_no_repeats() {
    let _ = build(&(0u8..100).map(|i| i.wrapping_mul(7).wrapping_add(3)).collect::<Vec<_>>());
}

#[test]
fn test_serialize_deserialize() {
    let buf = rep("the quick brown fox ", 15);
    let dict = build(&buf);
    assert!(!dict.is_empty());
    let ser = serialize(&dict);
    let (restored, consumed) = deserialize(&ser).unwrap();
    assert_eq!(consumed, ser.len());
    for (a, b) in dict.iter().zip(restored.iter()) {
        assert_eq!(a.bytes, b.bytes);
    }
}

#[test]
fn test_max_entries_respected() {
    let mut buf = Vec::new();
    for i in 0..100u8 {
        buf.extend(format!("pattern_{:02x}_data ", i).repeat(5).as_bytes());
    }
    assert!(build(&buf).len() <= MAX_ENTRIES);
}

#[test]
fn test_saving_positive() {
    for e in build(&rep("compress this string repeatedly ", 10)) {
        assert!(e.saving > 0);
    }
}

#[test]
fn test_extract_residual() {
    let buf = vec![b'h', b'e', ESCAPE, 0x01, b'l', b'o', ESCAPE, 0x02, b'!'];
    let residual = extract_residual(&buf);
    assert!(!residual.contains(&ESCAPE));
    assert_eq!(residual, vec![b'h', b'e', b'l', b'o', b'!']);
}

#[test]
fn test_second_pass_finds_residual_patterns() {
    let corpus = rep("alpha beta gamma delta ", 30);
    let pass1 = build(&corpus);
    assert!(!pass1.is_empty());
    let tokenized = codon::encode(&corpus, &pass1);
    let residual = extract_residual(&tokenized);
    assert!(residual.len() < corpus.len());
    let pass2 = build_second_pass(&residual, pass1.len());
    assert!(pass1.len() + pass2.len() <= MAX_ENTRIES);
}

#[test]
fn test_performance() {
    let msg = "user joined channel general timestamp 1743744000 payload data ";
    let buf: Vec<u8> = msg.repeat(1000).into_bytes();
    let t0 = std::time::Instant::now();
    let dict = build(&buf);
    let ms = t0.elapsed().as_millis();
    println!("74KB dict build: {ms}ms entries={}", dict.len());
    assert!(ms < 5000, "dict build too slow even in debug: {ms}ms");
}

#[test]
fn dictionary_truncated_header_rejected() {
    assert!(deserialize(&[1]).is_err());
    assert!(deserialize(&[1, 0, 5, b'a']).is_err());
}

#[test]
fn dictionary_serialized_layout() {
    let ser = serialize(&[entry("abc")]);
    assert_eq!(ser, vec![1, 0, 3, b'a', b'b', b'c']);
}

// ---------------------------------------------------------------------------
// Prefix-index tokenizer
// ---------------------------------------------------------------------------

#[test]
fn test_greedy_longest() {
    let entries = vec![entry("hello"), entry("hello world")];
    let mut tok = GNPrefixTokenizer::<4>::new();
    tok.seed_from_vocab(&entries);
    let tokens = tok.tokenize(b"hello world");
    assert!(tokens.iter().any(|t| matches!(t, Token::DictU8 { .. } | Token::DictU16 { .. })));
}

#[test]
fn test_escape_handling() {
    let entries = vec![entry("abcd")];
    let mut tok = GNPrefixTokenizer::<4>::new();
    tok.seed_from_vocab(&entries);
    let input = [ESCAPE, b'a', b'b', b'c', b'd'];
    let gn = tok.tokenize_to_gn_bytes(&input, true);
    assert_eq!(gn[0], ESCAPE);
    assert_eq!(gn[1], 0x00);
}

#[test]
fn test_short_buffer() {
    let entries = vec![entry("abcd")];
    let mut tok = GNPrefixTokenizer::<4>::new();
    tok.seed_from_vocab(&entries);
    let gn = tok.tokenize_to_gn_bytes(b"abc", true);
    assert_eq!(gn, b"abc");
}

#[test]
fn lz77_greedy_longest_exact() {
    let entries = vec![entry("hello"), entry("hello world")];
    let mut tok = GNPrefixTokenizer::<4>::new();
    tok.seed_from_vocab(&entries);
    assert_eq!(tok.tokenize(b"hello world!"), vec![Token::DictU8 { id: 2, len: 11 }, Token::Literal(b'!')]);
    assert_eq!(tok.tokenize_to_gn_bytes(b"hello world!", true), vec![ESCAPE, 2, b'!']);
}

#[test]
fn lz77_three_byte_prefix() {
    let entries = vec![entry("abcd"), entry("abce")];
    let mut tok = GNPrefixTokenizer::<3>::new();
    tok.seed_from_vocab(&entries);
    assert_eq!(tok.tokenize_to_gn_bytes(b"abce", true), vec![ESCAPE, 2]);
}

#[test]
fn lz77_extended_ids_roundtrip() {
    let mut entries: Vec<DictEntry> = Vec::new();
    for i in 0..300u32 {
        entries.push(DictEntry { bytes: format!("w{:04}", i).into_bytes(), freq: 5, saving: 10 });
    }
    let mut tok = GNPrefixTokenizer::<4>::new();
    tok.seed_from_vocab(&entries);
    let buf = b"w0001 w0299 w0254 w0253 tail".to_vec();
    let gn = tok.tokenize_to_gn_bytes(&buf, false);
    assert_eq!(&gn[..2], &[ESCAPE, 2]);
    assert_eq!(&gn[3..7], &[ESCAPE, 0xFF, 0x2C, 0x01]);
    assert_eq!(decode_gn_bytes(&gn, &entries), buf);
    let gn8 = tok.tokenize_to_gn_bytes(&buf, true);
    assert_eq!(decode_gn_bytes(&gn8, &entries), buf);
    let shared = GNPrefixTokenizer::<4>::tokenize_with_index(&buf, &tok.index, false);
    assert_eq!(shared, gn);
}

#[test]
fn lz77_local_repeat() {
    let index = PrefixIndex::<4>::new();
    let out = GNPrefixTokenizer::<4>::tokenize_with_local(b"abcdefghabcdefgh", &index, true);
    let mut expected = b"abcdefgh".to_vec();
    expected.extend_from_slice(&[ESCAPE, 0xFD, 8, 8]);
    assert_eq!(out, expected);
}

#[test]
fn lz77_tokens_to_bytes() {
    let ts = [Token::Literal(b'a'), Token::Literal(ESCAPE), Token::DictU8 { id: 7, len: 4 }, Token::DictU16 { id: 0x0102, len: 4 }];
    assert_eq!(tokens_to_gn_bytes(&ts), vec![b'a', ESCAPE, 0, ESCAPE, 7, ESCAPE, 0xFF, 0x02, 0x01]);
}

#[test]
fn lz77_u16_tokens_decode() {
    let mut entries: Vec<DictEntry> = Vec::new();
    for i in 0..300u32 {
        entries.push(DictEntry { bytes: format!("w{:04}", i).into_bytes(), freq: 5, saving: 10 });
    }
    let ts = [
        Token::Literal(b'a'),
        Token::Literal(ESCAPE),
        Token::DictU8 { id: 7, len: 5 },
        Token::DictU16 { id: 300, len: 5 },
        Token::Literal(b'z'),
    ];
    let bytes = tokens_to_gn_bytes(&ts);
    assert_eq!(&bytes[5..9], &[ESCAPE, 0xFF, 0x2C, 0x01]);
    let mut expected = vec![b'a', ESCAPE];
    expected.extend_from_slice(b"w0006w0299z");
    assert_eq!(decode_gn_bytes(&bytes, &entries), expected);
    // A u16 token cut short ends the output.
    assert_eq!(decode_gn_bytes(&[b'q', ESCAPE, 0xFF, 0x2C], &entries), b"q".to_vec());
}

#[test]
fn lz77_decode_edges() {
    let entries = vec![entry("abcd")];
    assert_eq!(decode_gn_bytes(&[b'x', ESCAPE, 1], &entries), b"xabcd".to_vec());
    assert_eq!(decode_gn_bytes(&[b'x', ESCAPE], &entries), b"x".to_vec());
    assert_eq!(decode_gn_bytes(&[b'x', ESCAPE, 9, b'y'], &entries), b"xy".to_vec());
    assert_eq!(decode_gn_bytes(&[ESCAPE, 0xFF], &entries), Vec::<u8>::new());
}

#[test]
fn lz77_stored_blocks() {
    assert_eq!(deflate_stored_blocks(b"abc"), vec![0x01, 3, 0, 0xFC, 0xFF, b'a', b'b', b'c']);
    assert!(deflate_stored_blocks(b"").is_empty());
    let big = vec![7u8; 70000];
    let out = deflate_stored_blocks(&big);
    assert_eq!(out.len(), 70000 + 10);
    assert_eq!(&out[..5], &[0x00, 0xFF, 0xFF, 0x00, 0x00]);
    assert_eq!(&out[65540..65545], &[0x01, 0x71, 0x11, 0x8E, 0xEE]);
}

#[test]
fn lz77_hybrid_matches_gn_bytes() {
    let entries = vec![entry("hello"), entry("world")];
    let mut enc = GNHybridEncoder::<4>::new();
    enc.seed_vocab(&entries);
    let out = enc.encode(b"hello, world");
    assert_eq!(out, enc.vocab.tokenize_to_gn_bytes(b"hello, world", false));
    assert_eq!(out, vec![ESCAPE, 1, b',', b' ', ESCAPE, 2]);
}

#[test]
fn lz77_libdeflate_output_inflates() {
    let mut c = libdeflater::Compressor::new(libdeflater::CompressionLvl::default());
    let data = rep("deflate me, deflate me ", 20);
    let mut out = Vec::new();
    let n = deflate_with_libdeflater(&mut c, &data, &mut out).unwrap();
    assert_eq!(out.len(), 5 + data.len());
    assert!(n > 0 && n < data.len());
    let mut d = libdeflater::Decompressor::new();
    let mut back = vec![0u8; data.len()];
    let m = d.deflate_decompress(&out[..n], &mut back).unwrap();
    assert_eq!(&back[..m], data.as_slice());
}

// ---------------------------------------------------------------------------
// Two-pass tokenizer
// ---------------------------------------------------------------------------

fn stats_ratio(input_bytes: usize, tokenized_bytes: usize) -> f64 {
    if tokenized_bytes == 0 {
        return 1.0;
    }
    input_bytes as f64 / tokenized_bytes as f64
}

#[test]
fn test_roundtrip_repetitive() {
    let t = Tokenizer::new();
    let buf: Vec<u8> = "hello world ".repeat(50).into_bytes();
    let (enc, stats) = t.encode(&buf);
    let dec = t.decode(&enc).expect("decode failed");
    assert_eq!(dec, buf);
    let ratio = stats_ratio(stats.input_bytes, stats.tokenized_bytes);
    println!("pass1={} pass2={} ratio={:.3}x", stats.pass1_entries, stats.pass2_entries, ratio);
    assert!(ratio > 1.0);
}

#[test]
fn test_roundtrip_empty() {
    let t = Tokenizer::new();
    let (enc, _) = t.encode(&[]);
    assert_eq!(t.decode(&enc).unwrap(), b"");
}

#[test]
fn test_roundtrip_no_repeats() {
    let t = Tokenizer::new();
    let buf: Vec<u8> = (0u8..=127).collect();
    let (enc, _) = t.encode(&buf);
    assert_eq!(t.decode(&enc).unwrap(), buf);
}

#[test]
fn test_two_pass_lossless() {
    let t = Tokenizer::new();
    let buf: Vec<u8> = "alpha beta gamma delta epsilon ".repeat(40).into_bytes();
    let (enc, stats) = t.encode(&buf);
    let dec = t.decode(&enc).expect("two-pass decode failed");
    assert_eq!(dec, buf, "two-pass roundtrip failed");
    println!(
        "two-pass: p1={} p2={} ratio={:.3}x input={}B tok={}B",
        stats.pass1_entries,
        stats.pass2_entries,
        stats_ratio(stats.input_bytes, stats.tokenized_bytes),
        stats.input_bytes,
        stats.tokenized_bytes
    );
}

#[test]
fn test_passthrough_unrecognized() {
    let t = Tokenizer::new();
    let buf = b"raw unformatted data".to_vec();
    assert_eq!(t.decode(&buf).unwrap(), buf);
}

#[test]
fn test_large_batch() {
    let t = Tokenizer::new();
    let msg = "user joined channel general timestamp 1743744000 payload data ";
    let buf: Vec<u8> = msg.repeat(500).into_bytes();
    let (enc, stats) = t.encode(&buf);
    let dec = t.decode(&enc).expect("large batch failed");
    assert_eq!(dec, buf);
    let ratio = stats_ratio(stats.input_bytes, stats.tokenized_bytes);
    assert!(ratio > 1.0);
    println!(
        "large: {}KB->{}KB ratio={:.2}x p1={} p2={}",
        buf.len() / 1024,
        enc.len() / 1024,
        ratio,
        stats.pass1_entries,
        stats.pass2_entries
    );
}

#[test]
fn tokenizer_container_layout_and_stats() {
    let t = Tokenizer::new();
    let buf = b"abc".to_vec();
    let (enc, stats) = t.encode(&buf);
    assert_eq!(&enc[..4], b"GNTK");
    assert_eq!(stats.input_bytes, 3);
    assert_eq!(stats.dict_entries, stats.pass1_entries + stats.pass2_entries);
    assert_eq!(&enc[enc.len() - 7..enc.len() - 3], &3u32.to_le_bytes());
    assert_eq!(&enc[enc.len() - 3..], b"abc");
}

#[test]
fn tokenizer_decode_errors() {
    let t = Tokenizer::new();
    assert_eq!(t.decode(b"GN").unwrap_err(), "tokenizer: buffer too short");
    assert!(t.decode(b"GNTK\x05").is_err());
    assert!(t.decode(b"GNTK\x00\x00\x01").is_err());
}

// ---------------------------------------------------------------------------
// Category pre-seeding
// ---------------------------------------------------------------------------

#[test]
fn test_detect_json() {
    assert_eq!(detect(b"{\"key\": \"value\"}"), Category::Json);
    assert_eq!(detect(b"[1, 2, 3]"), Category::Json);
}

#[test]
fn test_detect_log() {
    assert_eq!(detect(b"[ERROR] something went wrong"), Category::Log);
    assert_eq!(detect(b"Exception: null pointer"), Category::Log);
}

#[test]
fn test_detect_text() {
    assert_eq!(detect(b"the quick brown fox jumps over the lazy dog"), Category::Text);
}

#[test]
fn test_preseed_not_empty() {
    assert!(!preseed(&Category::Json).is_empty());
    assert!(!preseed(&Category::Text).is_empty());
    assert!(!preseed(&Category::Log).is_empty());
}

#[test]
fn test_preseed_entries_valid() {
    for cat in [Category::Json, Category::Text, Category::Log, Category::Mixed] {
        for entry in preseed(&cat) {
            assert!(entry.bytes.len() > 2, "entry too short: {:?}", entry.bytes);
            assert!(entry.saving > 0);
        }
    }
}

#[test]
fn test_roundtrip_with_preseed() {
    let entries = preseed(&Category::Text);
    let buf = b"the quick brown fox and the lazy dog and the cat".to_vec();
    let enc = encode(&buf, &entries);
    let dec = decode(&enc, &entries);
    assert_eq!(dec, buf, "roundtrip failed");
    assert!(enc.len() < buf.len(), "should compress: {} -> {}", buf.len(), enc.len());
}

#[test]
fn preseed_empty_buffer_is_text() {
    assert_eq!(detect(b""), Category::Text);
    assert_eq!(detect(b"  {\"a\": 1}"), Category::Json);
    assert_eq!(detect(b"x\":{ the y"), Category::Mixed);
}

// ---------------------------------------------------------------------------
// Sliding window
// ---------------------------------------------------------------------------

#[test]
fn test_sliding_roundtrip() {
    let mut tok = SlidingTokenizer::new();
    let data = b"hello glasik hello glasik hello glasik".to_vec();
    let enc = tok.encode(&data);
    let dec = SlidingTokenizer::decode(&enc).unwrap();
    assert_eq!(dec, data);
}

#[test]
fn test_sliding_improves_over_batches() {
    let mut tok = SlidingTokenizer::new();
    let msg = "user joined channel general timestamp payload data ";
    let batch: Vec<u8> = msg.repeat(100).into_bytes();
    let mut sizes = Vec::new();
    for _ in 0..5 {
        let enc = tok.encode(&batch);
        sizes.push(enc.len());
        let dec = SlidingTokenizer::decode(&enc).unwrap();
        assert_eq!(dec, batch, "lossless check failed");
    }
    println!("sizes across batches: {:?}", sizes);
    let (entries, batches) = tok.stats();
    println!("window: {entries} entries after {batches} batches");
    assert!(sizes.last() <= sizes.first(), "should not degrade");
}

#[test]
fn test_sliding_lossless_diverse() {
    let mut tok = SlidingTokenizer::new();
    let messages = vec![
        b"the quick brown fox jumps over the lazy dog".to_vec(),
        b"hello world this is a test message for compression".to_vec(),
        b"user joined channel general at timestamp 1743744000".to_vec(),
    ];
    for msg in &messages {
        let enc = tok.encode(msg);
        let dec = SlidingTokenizer::decode(&enc).unwrap();
        assert_eq!(&dec, msg);
    }
}

#[test]
fn sliding_counts_batches() {
    let mut tok = SlidingTokenizer::new();
    assert_eq!(tok.stats(), (0, 0));
    let _ = tok.encode(&rep("abcdef abcdef ", 10));
    let (entries, batches) = tok.stats();
    assert_eq!(batches, 1);
    assert!(entries > 0 && entries <= 200);
}

#[test]
fn sliding_decode_errors() {
    assert_eq!(SlidingTokenizer::decode(b"GN").unwrap_err(), "sliding: too short");
    assert_eq!(SlidingTokenizer::decode(b"plain").unwrap(), b"plain".to_vec());
    assert!(SlidingTokenizer::decode(b"GNTK\x00\x00\x01").is_err());
}

#[test]
fn codon_token_ids_stay_in_range() {
    let entries: Vec<DictEntry> = (0..300u32)
        .map(|i| DictEntry { bytes: format!("v{:05}", i).into_bytes(), freq: 3, saving: 10 })
        .collect();
    // Entry 9 has id 10; entry 259 would need id 260 and is not substituted.
    let buf = b"v00009 v00259 v00253 v00254".to_vec();
    let out = encode(&buf, &entries);
    assert_eq!(&out[..2], &[ESCAPE, 10]);
    assert!(out.windows(6).any(|w| w == b"v00259"));
    assert!(out.windows(2).any(|w| w == [ESCAPE, 254]));
    assert!(out.windows(6).any(|w| w == b"v00254"));
    assert!(!out.windows(2).any(|w| w == [ESCAPE, 255]));
    assert_eq!(decode(&out, &entries), buf);
}
