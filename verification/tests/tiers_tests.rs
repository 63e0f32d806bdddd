use sha2::Digest;
use glasik_core::fractal::{FractalCompressor, ShardType};
use glasik_core::sliding_v2_l4::SlidingTokenizerL4;
use glasik_core::tokenizer::codon::{
    build_ac, build_tiered_ac, decode_ac_interleaved, decode_ac_split, encode_ac, encode_ac_interleaved,
    encode_ac_split, encode_ac_with, try_decode_ac_split, ESCAPE,
};
use glasik_core::tokenizer::dictionary::DictEntry;
use glasik_core::tokenizer::hybrid_async::HybridAsyncEncoder;
use glasik_core::tokenizer::lz77_gn::decode_gn_bytes;
use glasik_core::tokenizer::sliding_v2::SlidingTokenizerV2;

fn entry(s: &str, saving: usize) -> DictEntry {
    DictEntry { bytes: s.as_bytes().to_vec(), freq: 10, saving }
}

// ---------------------------------------------------------------------------
// Aho-Corasick encodings
// ---------------------------------------------------------------------------

#[test]
fn ac_none_without_entries() {
    assert!(build_ac(&[]).is_none());
    // Short entries leave an automaton without patterns: nothing matches.
    let ac = build_ac(&[entry("ab", 5)]).unwrap();
    assert_eq!(encode_ac_with(b"abab", &ac), b"abab".to_vec());
}

#[test]
fn ac_with_tokens_and_escapes() {
    let entries = vec![entry("hello", 10), entry("world", 5)];
    let ac = build_ac(&entries).unwrap();
    // "hello" ranks first (token 1), "world" second (token 2); the escape
    // byte itself is written twice-escaped as a literal.
    let out = encode_ac_with(b"hello, world\x01", &ac);
    assert_eq!(out, vec![ESCAPE, 1, b',', b' ', ESCAPE, 2, ESCAPE, 0x00]);
    // Codon decoding with the entries in the automaton's order undoes it.
    assert_eq!(glasik_core::tokenizer::codon::decode(&out, &entries), b"hello, world\x01".to_vec());
}

#[test]
fn ac_full_encoding_without_entries_escapes() {
    assert_eq!(encode_ac(b"a\x01b", &[]), vec![b'a', ESCAPE, 0x00, b'b']);
    assert_eq!(encode_ac(b"xhellox", &[entry("hello", 3)]), vec![b'x', ESCAPE, 1, b'x']);
}

#[test]
fn ac_split_roundtrip() {
    let entries = vec![entry("hello", 10), entry("world", 5)];
    let ac = build_ac(&entries).unwrap();
    let buf = b"hello there, hello world".to_vec();
    let (toks, lits) = encode_ac_split(&buf, &ac);
    assert_eq!(toks, vec![1, 1, 2]);
    assert_eq!(lits, b" there,  ".to_vec());
    assert_eq!(decode_ac_split(&buf, &toks, &lits, &ac, &entries), buf);
    assert_eq!(try_decode_ac_split(&buf, &toks, &lits, &ac, &entries), Some(buf.clone()));
    // Streams that run short are refused.
    assert_eq!(try_decode_ac_split(&buf, &toks[..1], &lits, &ac, &entries), None);
}

#[test]
fn ac_interleaved_roundtrip() {
    let entries = vec![entry("hello", 10), entry("world", 5)];
    let ac = build_ac(&entries).unwrap();
    let buf = b"say hello world!".to_vec();
    let (pairs, lits) = encode_ac_interleaved(&buf, &ac);
    // (4 literals, token 1), (1 literal, token 2), then 1 trailing literal.
    assert_eq!(pairs, vec![4, 0, 1, 1, 0, 2, 1, 0]);
    assert_eq!(lits, b"say  !".to_vec());
    assert_eq!(decode_ac_interleaved(&pairs, &lits, &entries).unwrap(), buf);
}

#[test]
fn ac_tiered_ids_follow_tiers() {
    let l0 = vec![entry("alpha", 9)];
    let l1 = vec![entry("bravo", 8)];
    let l3 = vec![entry("delta", 7)];
    let ac = build_tiered_ac(&l0, &l1, &[], &l3).unwrap();
    let (pairs, lits) = encode_ac_interleaved(b"delta alpha bravo", &ac);
    assert_eq!(pairs, vec![0, 0, 3, 1, 0, 1, 1, 0, 2, 0, 0]);
    assert_eq!(lits, b"  ".to_vec());
    assert!(build_tiered_ac(&[], &[], &[], &[entry("abc", 1)]).is_none());
}

// ---------------------------------------------------------------------------
// Sliding window, version 2
// ---------------------------------------------------------------------------

#[test]
fn sliding_v2_roundtrip() {
    let mut tok = SlidingTokenizerV2::new();
    let data = b"user: hello assistant: how can I help you today ".repeat(10);
    for _ in 0..3 {
        let enc = tok.encode(&data);
        assert_eq!(&enc[..4], b"GNSL");
        assert_eq!(tok.decode(&enc).unwrap(), data);
    }
    let (entries, batches) = tok.stats();
    assert!(entries > 0);
    assert_eq!(batches, 3);
}

#[test]
fn sliding_v2_decode_errors() {
    let tok = SlidingTokenizerV2::new();
    assert_eq!(tok.decode(b"short").unwrap_err(), "sliding_v2: too short");
    assert_eq!(tok.decode(b"XXXXXXXXXXXXXXXX").unwrap_err(), "sliding_v2: bad magic");
}

#[test]
fn sliding_v2_export_import() {
    let mut a = SlidingTokenizerV2::new();
    let data = b"the quick brown fox jumps over the lazy dog ".repeat(8);
    a.encode(&data);
    let (version, entries) = a.export_dict();
    assert!(!entries.is_empty());
    let mut b = SlidingTokenizerV2::new();
    b.import_dict(version, entries.clone());
    assert_eq!(b.dict_version(), version);
    assert_eq!(b.stats().0, entries.len());
    assert_eq!(b.stats().1, 0);
}

#[test]
fn sliding_v2_static_seed() {
    let tok = SlidingTokenizerV2::new_with_static(vec![
        (b"hello".to_vec(), 5, 20),
        (b"xy".to_vec(), 1, 1),
    ]);
    assert_eq!(tok.dict_version(), 1);
    // Only entries saving at least the threshold are seeded.
    assert_eq!(tok.stats().0, 1);
}

#[test]
fn sliding_v2_ac_split_roundtrip() {
    let mut tok = SlidingTokenizerV2::new();
    let data = b"user: hello assistant: how can I help you today ".repeat(10);
    tok.encode(&data);
    let (toks, lits) = tok.encode_ac_split(&data);
    assert_eq!(tok.decode_ac_split(&data, &toks, &lits), data);
    assert_eq!(tok.try_decode_ac_split(&data, &toks, &lits), Some(data.clone()));
}

// ---------------------------------------------------------------------------
// Snapshot-keeping sliding window
// ---------------------------------------------------------------------------

#[test]
fn test_l4_encode_decode() {
    let mut tok = SlidingTokenizerL4::new();
    let data = b"user: hello assistant: how can I help you today ".repeat(20);
    for _ in 0..100 {
        tok.encode(&data);
    }
    let (entries, batches) = tok.stats();
    println!("L4: {} entries, {} batches, snapshot={}B", entries, batches, tok.snapshot_size());
    assert!(entries > 0);
}

#[test]
fn test_snapshot_restore() {
    let mut tok = SlidingTokenizerL4::new();
    let data = b"user: hello assistant: how can I help you today ".repeat(20);
    for _ in 0..100 {
        tok.encode(&data);
    }
    let snapshot = tok.get_snapshot().expect("snapshot should exist").to_vec();
    println!("Snapshot size: {}B", snapshot.len());
    let tok2 = SlidingTokenizerL4::restore_from_snapshot(&snapshot);
    let (e1, _) = tok.stats();
    let (e2, _) = tok2.stats();
    println!("Original: {} entries, Restored: {} entries", e1, e2);
    assert!(e2 > 0);
}

#[test]
fn l4_snapshot_interval() {
    let mut tok = SlidingTokenizerL4::new();
    let data = b"user: hello assistant: how can I help you today ".repeat(20);
    for _ in 0..49 {
        tok.encode(&data);
    }
    assert!(tok.get_snapshot().is_none());
    assert_eq!(tok.snapshot_size(), 0);
    tok.encode(&data);
    assert!(tok.snapshot_size() > 0);
    // The restored window holds what the snapshot holds.
    let restored = SlidingTokenizerL4::restore_from_snapshot(tok.get_snapshot().unwrap());
    assert_eq!(restored.export_dict().1.len(), tok.export_dict().1.len());
    assert_eq!(restored.export_dict().0, 1);
}

#[test]
fn l4_restore_from_garbage_is_empty() {
    let tok = SlidingTokenizerL4::restore_from_snapshot(b"not a frame");
    assert_eq!(tok.stats(), (0, 0));
    assert_eq!(tok.get_snapshot(), Some(&b"not a frame"[..]));
}

// ---------------------------------------------------------------------------
// Fractal tiers
// ---------------------------------------------------------------------------

#[test]
fn test_fractal_roundtrip() {
    let mut fc = FractalCompressor::new();
    let data = b"user: hello assistant: how can I help you today with JWT authentication".repeat(5);
    let compressed = fc.compress_shard(&data, "user_intent", "session_001");
    println!(
        "input={}B compressed={}B ratio={:.2}x",
        data.len(),
        compressed.len(),
        data.len() as f64 / compressed.len() as f64
    );
    assert!(compressed.len() > 0);
}

#[test]
fn test_tier_promotion() {
    let mut fc = FractalCompressor::new();
    let data = b"function authenticate(token) { return verify(token); }".repeat(10);
    for _ in 0..60 {
        fc.compress_shard(&data, "code_block", "session_001");
    }
    println!("L1 code_block entries: {}", fc.stats().l1_total);
}

#[test]
fn test_snapshot_save_load() {
    let mut fc = FractalCompressor::new();
    let data = b"assistant: I can help you with that request ".repeat(20);
    for _ in 0..100 {
        fc.compress_shard(&data, "assistant_response", "sess_001");
    }
    let snapshot = fc.snapshot_bytes();
    let mut fc2 = FractalCompressor::new();
    fc2.load_snapshot_bytes(&snapshot).unwrap();
    assert_eq!(fc.stats().l0_entries, fc2.stats().l0_entries);
    println!("Snapshot save/load OK");
}

#[test]
fn fractal_shard_frame_decodes() {
    let mut fc = FractalCompressor::new();
    let data = b"user: hello assistant: how can I help you today with JWT authentication".repeat(5);
    let frame = fc.compress_shard(&data, "user_intent", "session_001");
    assert_eq!(frame[0], 0x02);
    assert_eq!(fc.decompress_shard(&frame, "user_intent", "session_001").unwrap(), data);
}

#[test]
fn fractal_frame_errors() {
    let mut fc = FractalCompressor::new();
    assert_eq!(fc.decompress_shard(&[], "generic", "s").unwrap(), Vec::<u8>::new());
    assert_eq!(fc.decompress_shard(&[1, 2], "generic", "s").unwrap_err(), "frame too short");
    assert_eq!(fc.decompress_shard(&[1, 2, 3, 4], "generic", "s").unwrap_err(), "frame too short for header");
    assert_eq!(fc.decompress_shard(&[0, 9, 0, 0, 0], "generic", "s").unwrap_err(), "frame truncated");
}

#[test]
fn fractal_sessions_and_types() {
    let mut fc = FractalCompressor::new();
    fc.compress_shard(b"tool output tool output", "tool_result", "a");
    fc.compress_shard(b"more tool output", "tool_result", "b");
    fc.compress_shard(b"system prompt", "system_message", "a");
    let st = fc.stats();
    assert_eq!(st.l2_sessions, 2);
    assert_eq!(st.l1_types, 2);
    assert_eq!(st.l0_entries, 0);
    assert_eq!(ShardType::from_str("tool_result"), ShardType::ToolResult);
}

#[test]
fn fractal_load_l0_keeps_top_savings() {
    let mut fc = FractalCompressor::new();
    let entries: Vec<(Vec<u8>, u64, u64)> = (0..100u64).map(|i| (format!("pat{:03}", i).into_bytes(), 1, i)).collect();
    fc.load_l0(entries);
    assert_eq!(fc.stats().l0_entries, 63);
    let snap = fc.snapshot_bytes();
    assert_eq!(&snap[..5], b"GNFT\x05");
}

#[test]
fn fractal_snapshot_errors() {
    let mut fc = FractalCompressor::new();
    assert_eq!(fc.load_snapshot_bytes(b"GNFT").unwrap_err(), "snapshot too short");
    assert_eq!(fc.load_snapshot_bytes(b"XXXX\x05\0\0\0\0\0\0\0\0").unwrap_err(), "bad magic");
    assert_eq!(fc.load_snapshot_bytes(b"GNFT\x04\0\0\0\0\0\0\0\0").unwrap_err(), "unsupported version 4");
    let mut good = FractalCompressor::new().snapshot_bytes();
    assert!(fc.load_snapshot_bytes(&good).is_ok());
    let last = good.len() - 1;
    good[last] ^= 1;
    assert!(fc.load_snapshot_bytes(&good).unwrap_err().starts_with("CRC mismatch"));
}

// ---------------------------------------------------------------------------
// Hybrid encoder with a published vocabulary
// ---------------------------------------------------------------------------

#[test]
fn hybrid_async_rebuilds_on_schedule() {
    let mut enc = HybridAsyncEncoder::new();
    let data = b"user: hello assistant: how can I help you today ".repeat(20);
    for _ in 0..49 {
        enc.encode(&data);
    }
    assert_eq!(enc.stats().2, 0);
    enc.encode(&data);
    assert_eq!(enc.stats().2, 1);
    // Every fourth chunk is learned from.
    assert_eq!(enc.stats().1, 12);
    enc.maybe_rebuild();
    assert_eq!(enc.stats().2, 1);
}

#[test]
fn hybrid_async_output_is_tokens_or_shorter() {
    let mut enc = HybridAsyncEncoder::new();
    let out = enc.encode(b"abc");
    // Three bytes do not deflate smaller: the token bytes are kept.
    assert_eq!(decode_gn_bytes(&out, &[]), b"abc".to_vec());
}

// ---------------------------------------------------------------------------
// Sidecar protocol
// ---------------------------------------------------------------------------

use glasik_core::sidecar::{SidecarAction, SidecarState};
use std::io::Read;

fn reply(a: SidecarAction) -> Vec<u8> {
    match a {
        SidecarAction::Reply(r) => r,
        _ => panic!("expected a reply"),
    }
}

#[test]
fn sidecar_compress_and_stats() {
    let mut st = SidecarState::new();
    let data = b"user: hello assistant: how can I help you today ".repeat(10);
    let r = reply(st.handle(0x01, &data));
    assert!(!r.is_empty());
    match st.handle(0x04, b"") {
        SidecarAction::Stats { batches, compress_calls, total_input, total_output, .. } => {
            assert_eq!(batches, 1);
            assert_eq!(compress_calls, 1);
            assert_eq!(total_input, data.len() as u64);
            assert_eq!(total_output, r.len() as u64);
        }
        _ => panic!("expected stats"),
    }
}

#[test]
fn sidecar_pipeline_ops() {
    let mut st = SidecarState::new();
    let data = b"the quick brown fox jumps over the lazy dog ".repeat(4);
    let c = reply(st.handle(0x03, &data));
    assert_eq!(reply(st.handle(0x02, &c)), data);
    // Undecodable data comes back as it is.
    assert_eq!(reply(st.handle(0x02, b"plain")), b"plain".to_vec());
    assert!(reply(st.handle(0x09, b"x")).is_empty());
}

#[test]
fn sidecar_batch_framing() {
    let mut st = SidecarState::new();
    let mut payload = Vec::new();
    for chunk in [&b"hello hello hello hello"[..], &b"world world world world"[..]] {
        payload.extend_from_slice(&(chunk.len() as u32).to_le_bytes());
        payload.extend_from_slice(chunk);
    }
    // A trailing length that runs past the end stops the batch.
    payload.extend_from_slice(&100u32.to_le_bytes());
    let out = reply(st.handle(0x05, &payload));
    let first = u32::from_le_bytes([out[0], out[1], out[2], out[3]]) as usize;
    let second_at = 4 + first;
    let second = u32::from_le_bytes([out[second_at], out[second_at + 1], out[second_at + 2], out[second_at + 3]]) as usize;
    assert_eq!(out.len(), 8 + first + second);
}

#[test]
fn sidecar_pressurized_and_snapshot_actions() {
    let mut st = SidecarState::new();
    let warm = b"warm up text warm up text";
    let target = b"target text";
    let mut payload = vec![1u8];
    payload.extend_from_slice(&(warm.len() as u32).to_le_bytes());
    payload.extend_from_slice(warm);
    payload.extend_from_slice(&(target.len() as u32).to_le_bytes());
    payload.extend_from_slice(target);
    let out = reply(st.handle(0x06, &payload));
    assert_eq!(&out[..4], b"GNSL");
    assert!(reply(st.handle(0x06, &[3])).is_empty());
    match st.handle(0x07, b"/tmp/x") {
        SidecarAction::SaveSnapshot { path, .. } => assert_eq!(path, b"/tmp/x".to_vec()),
        _ => panic!("expected a save"),
    }
    match st.handle(0x08, b"/tmp/y") {
        SidecarAction::LoadSnapshot { path } => assert_eq!(path, b"/tmp/y".to_vec()),
        _ => panic!("expected a load"),
    }
    let msg = st.import_snapshot(vec![(b"hello".to_vec(), 5, 20)]);
    assert_eq!(msg, b"loaded 1 entries".to_vec());
}

#[test]
fn fractal_snapshot_restores_tiers() {
    let mut fc = FractalCompressor::new();
    let entries: Vec<(Vec<u8>, u64, u64)> = (0..10u64).map(|i| (format!("pattern{:02}", i).into_bytes(), 3, 10 + i)).collect();
    fc.load_l0(entries);
    let snap = fc.snapshot_bytes();
    let mut fc2 = FractalCompressor::new();
    fc2.load_snapshot_bytes(&snap).unwrap();
    assert_eq!(fc2.snapshot_bytes(), snap);
    assert_eq!(fc2.stats().l0_entries, 10);
}

fn sidecar_stats(st: &mut SidecarState) -> (u64, u64, u64, u64) {
    match st.handle(0x04, b"") {
        SidecarAction::Stats { batches, compress_calls, total_input, total_output, .. } => {
            (batches, compress_calls, total_input, total_output)
        }
        _ => panic!("expected stats"),
    }
}

#[test]
fn sidecar_compress_reply_is_frame_or_its_deflate() {
    let mut st = SidecarState::new();
    let data = b"the same sentence again and again, the same sentence again and again. ".repeat(40);
    let r = reply(st.handle(0x01, &data));
    let frame = if r.starts_with(b"GNSL") {
        r.clone()
    } else {
        let mut out = Vec::new();
        flate2::read::DeflateDecoder::new(&r[..]).read_to_end(&mut out).unwrap();
        assert!(r.len() < out.len());
        out
    };
    assert_eq!(&frame[..4], b"GNSL");
}

#[test]
fn sidecar_pressurized_feeds_warmup_then_target() {
    let mut st = SidecarState::new();
    let warm = b"warm up text warm up text";
    let target = b"target text";
    let mut payload = vec![2u8];
    payload.extend_from_slice(&(warm.len() as u32).to_le_bytes());
    payload.extend_from_slice(warm);
    payload.extend_from_slice(&(warm.len() as u32).to_le_bytes());
    payload.extend_from_slice(warm);
    payload.extend_from_slice(&(target.len() as u32).to_le_bytes());
    payload.extend_from_slice(target);
    let out = reply(st.handle(0x06, &payload));
    assert_eq!(&out[..4], b"GNSL");
    // Two warm-up windows and the target were each encoded once; only the
    // target counts as a compress call.
    assert_eq!(sidecar_stats(&mut st), (3, 1, target.len() as u64, out.len() as u64));
    // A warm-up window that runs past the end leaves no target: nothing
    // is encoded and nothing is counted.
    let out2 = reply(st.handle(0x06, &[1, 200, 0, 0, 0, b'x']));
    assert!(out2.is_empty());
    assert_eq!(sidecar_stats(&mut st), (3, 1, target.len() as u64, out.len() as u64));
}

#[test]
fn vtc_tag_hashes_type_and_pair_stream() {
    let mut fc = FractalCompressor::new();
    let data = b"fn main() { println!(\"hello\"); } fn main() { println!(\"hello\"); }".to_vec();
    let frame = fc.compress_shard(&data, "code_block", "s1");
    let tag = glasik_core::vtc::vtc_tag(&frame, "code_block");
    let pairs_len = u16::from_le_bytes([frame[1], frame[2]]) as usize;
    let l3_len = u16::from_le_bytes([frame[3], frame[4]]) as usize;
    let start = 5 + l3_len;
    let mut h = sha2::Sha256::new();
    h.update(b"code_block");
    h.update(&frame[start..start + pairs_len]);
    let expected = format!("VTC-v1-{}", hex::encode(&h.finalize()[..16]));
    assert_eq!(tag, expected);
    // A frame too short for its header is hashed whole.
    let short = glasik_core::vtc::vtc_tag(&[1, 2, 3], "x");
    let mut h2 = sha2::Sha256::new();
    h2.update(b"x");
    h2.update(&[1u8, 2, 3]);
    assert_eq!(short, format!("VTC-v1-{}", hex::encode(&h2.finalize()[..16])));
    assert_eq!(short.len(), 7 + 32);
}

#[test]
fn fractal_frames_decode_after_every_call() {
    let mut fc = FractalCompressor::new();
    // An unsorted universal tier with a short entry in it.
    fc.load_l0(vec![
        (b"abc".to_vec(), 9, 3),
        (b"return verify".to_vec(), 4, 40),
        (b"function".to_vec(), 8, 90),
    ]);
    let data = b"function authenticate(token) { return verify(token); }".repeat(10);
    let mut promoted_seen = false;
    for _ in 0..60 {
        let before = fc.stats().l1_total;
        let frame = fc.compress_shard(&data, "code_block", "session_001");
        if fc.stats().l1_total != before {
            promoted_seen = true;
        }
        assert_eq!(fc.decompress_shard(&frame, "code_block", "session_001").unwrap(), data);
    }
    let _ = promoted_seen;
}
