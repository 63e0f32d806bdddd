use glasik_core::codec::frame::{decode as frame_decode, Frame, FrameError};
use glasik_core::fractal::{crc32_simple, shard_type_byte, shard_type_from_byte, ShardType};
use glasik_core::level4::{compress_window, decompress_window, deserialize_entries, serialize_entries};
use glasik_core::pipeline::{
    compress, compress_batch, compress_batch_with_stats, compress_mode, compress_with_stats, decompress, Mode,
    PipelineError, FLAG_ANS_O1, FLAG_CODON_ONLY, FLAG_COMPRESSION,
};
use glasik_core::static_dict::{load_static_dict, parse_dict};

// ---------------------------------------------------------------------------
// Pipeline
// ---------------------------------------------------------------------------

#[test]
fn test_roundtrip_auto() {
    let data = b"hello glasik hello glasik hello glasik".to_vec();
    let c = compress(&data);
    assert_eq!(decompress(&c).unwrap(), data);
}

#[test]
fn test_roundtrip_codon_only() {
    let data: Vec<u8> = "repeated pattern ".repeat(50).into_bytes();
    let (c, mode) = compress_mode(&data, &Mode::CodonOnly);
    assert_eq!(mode, "codon");
    assert_eq!(decompress(&c).unwrap(), data);
}

#[test]
fn test_roundtrip_deflate() {
    let data: Vec<u8> = "repeated pattern ".repeat(50).into_bytes();
    let (c, mode) = compress_mode(&data, &Mode::Deflate);
    assert_eq!(mode, "deflate");
    assert_eq!(decompress(&c).unwrap(), data);
}

#[test]
fn test_auto_picks_codon_for_repetitive() {
    let data: Vec<u8> = "aaaa bbbb cccc dddd ".repeat(200).into_bytes();
    let (c, mode) = compress_mode(&data, &Mode::Auto);
    println!("repetitive mode: {mode}");
    assert_eq!(decompress(&c).unwrap(), data);
}

#[test]
fn pipeline_test_empty() {
    let c = compress(&[]);
    assert_eq!(decompress(&c).unwrap(), b"");
}

#[test]
fn test_corruption_detected() {
    let data = b"test data corruption check".to_vec();
    let mut c = compress(&data);
    let last = c.len();
    c[last - 5] ^= 0xFF;
    assert!(decompress(&c).is_err());
}

#[test]
fn test_batch_roundtrip() {
    let messages: Vec<Vec<u8>> = (0..20).map(|i| format!("user joined channel general timestamp {i}").into_bytes()).collect();
    let refs: Vec<&[u8]> = messages.iter().map(|m| m.as_slice()).collect();
    for (orig, comp) in messages.iter().zip(compress_batch(&refs).iter()) {
        assert_eq!(&decompress(comp).unwrap(), orig);
    }
}

#[test]
fn pipeline_frame_flags_follow_mode() {
    let data: Vec<u8> = "repeated pattern ".repeat(50).into_bytes();
    let (c, _) = compress_mode(&data, &Mode::CodonOnly);
    let f = frame_decode(&c).unwrap();
    assert_eq!(f.flags, FLAG_CODON_ONLY);
    let (d, _) = compress_mode(&data, &Mode::Deflate);
    let f = frame_decode(&d).unwrap();
    assert_eq!(f.flags, FLAG_COMPRESSION);
}

#[test]
fn pipeline_deflate_payload_is_real_deflate() {
    // the deflate frame's payload inflates (with an independent decoder)
    // to the codon-only frame's payload
    let data: Vec<u8> = "deflate stream check ".repeat(30).into_bytes();
    let (c, _) = compress_mode(&data, &Mode::Deflate);
    let f = frame_decode(&c).unwrap();
    let (k, _) = compress_mode(&data, &Mode::CodonOnly);
    let plain = frame_decode(&k).unwrap();
    let mut d = libdeflater::Decompressor::new();
    let mut out = vec![0u8; plain.payload.len()];
    let n = d.deflate_decompress(&f.payload, &mut out).unwrap();
    assert_eq!(&out[..n], plain.payload.as_slice());
    assert_ne!(f.payload, plain.payload);
}

#[test]
fn pipeline_auto_is_no_larger_than_either_mode() {
    let data: Vec<u8> = "the quick brown fox jumps over the lazy dog ".repeat(20).into_bytes();
    let (a, _) = compress_mode(&data, &Mode::Auto);
    let (c, _) = compress_mode(&data, &Mode::CodonOnly);
    let (d, _) = compress_mode(&data, &Mode::Deflate);
    assert!(a.len() <= c.len() && a.len() <= d.len());
}

#[test]
fn pipeline_rejects_garbage() {
    assert!(matches!(decompress(b"nope"), Err(PipelineError::Frame(FrameError::Truncated))));
    let raw = Frame::new(b"payload".to_vec(), false);
    let bytes = glasik_core::codec::frame::encode(&raw);
    // a raw frame payload passes through the tokenizer unchanged
    assert_eq!(decompress(&bytes).unwrap(), b"payload".to_vec());
}

#[test]
fn pipeline_o1_frames_are_refused() {
    let bytes = glasik_core::codec::frame::encode(&Frame { version: 2, flags: FLAG_ANS_O1, payload: vec![1, 2, 3] });
    assert!(matches!(decompress(&bytes), Err(PipelineError::Inflate(_))));
}

#[test]
fn pipeline_stats_report_sizes() {
    let data: Vec<u8> = "stats stats stats ".repeat(20).into_bytes();
    let (c, st) = compress_with_stats(&data);
    assert_eq!(st.input_bytes, data.len());
    assert_eq!(st.framed_bytes, c.len());
    assert_eq!(decompress(&c).unwrap(), data);
    let msgs: Vec<&[u8]> = vec![b"one two three", b"one two four"];
    let (frames, bst) = compress_batch_with_stats(&msgs);
    assert_eq!(frames.len(), 2);
    assert_eq!(bst.input_bytes, 25);
    assert_eq!(decompress(&frames[1]).unwrap(), b"one two four".to_vec());
}

// ---------------------------------------------------------------------------
// Window snapshots
// ---------------------------------------------------------------------------

#[test]
fn test_roundtrip() {
    let entries = vec![
        (b"hello world".to_vec(), 100u64, 500u64),
        (b"user: ".to_vec(), 200u64, 1000u64),
        (b"assistant: ".to_vec(), 150u64, 750u64),
    ];
    let compressed = compress_window(&entries);
    let restored = decompress_window(&compressed);
    assert_eq!(entries.len(), restored.len());
    for (orig, rest) in entries.iter().zip(restored.iter()) {
        assert_eq!(orig.0, rest.0);
        assert_eq!(orig.1, rest.1);
        assert_eq!(orig.2, rest.2);
    }
    let raw: usize = entries.iter().map(|e| e.0.len() + 8).sum();
    println!("raw: {}B compressed: {}B ratio: {:.2}x", raw, compressed.len(), raw as f64 / compressed.len() as f64);
}

#[test]
fn level4_entry_layout() {
    let ser = serialize_entries(&[(vec![7u8], 1u64, 2u64)]);
    assert_eq!(ser, vec![1, 7, 1, 0, 0, 0, 2, 0, 0, 0]);
    assert_eq!(deserialize_entries(&ser), vec![(vec![7u8], 1u64, 2u64)]);
    assert!(deserialize_entries(&[1, 0]).is_empty());
    assert!(decompress_window(b"junk").is_empty());
}

// ---------------------------------------------------------------------------
// Static dictionary
// ---------------------------------------------------------------------------

#[test]
fn static_dict_parse() {
    let mut data = b"GNSD".to_vec();
    data.extend_from_slice(&1u32.to_le_bytes());
    data.extend_from_slice(&1u32.to_le_bytes());
    data.push(2);
    data.extend_from_slice(b"ab");
    data.extend_from_slice(&5u64.to_le_bytes());
    data.extend_from_slice(&9u64.to_le_bytes());
    assert_eq!(parse_dict(&data).unwrap(), vec![(b"ab".to_vec(), 5u64, 9u64)]);
    assert_eq!(parse_dict(b"GN").unwrap_err(), "failed to fill whole buffer");
    assert_eq!(parse_dict(b"XXXX\x00\x00\x00\x00").unwrap_err(), "bad magic");
    assert!(load_static_dict().is_empty());
}

// ---------------------------------------------------------------------------
// Shard types
// ---------------------------------------------------------------------------

#[test]
fn shard_type_names_and_tags() {
    assert_eq!(ShardType::from_str("user_intent"), ShardType::UserIntent);
    assert_eq!(ShardType::from_str("tool_result"), ShardType::ToolResult);
    assert_eq!(ShardType::from_str("nonsense"), ShardType::Generic);
    assert_eq!(shard_type_byte(&ShardType::CodeBlock), 0x04);
    for t in [ShardType::SystemMessage, ShardType::ToolCall, ShardType::Generic] {
        assert_eq!(shard_type_from_byte(shard_type_byte(&t)), t);
    }
    assert_eq!(shard_type_from_byte(0x77), ShardType::Generic);
}

#[test]
fn shard_snapshot_crc() {
    assert_eq!(crc32_simple(b"123456789"), 0xCBF43926);
    assert_eq!(crc32_simple(b""), 0);
}

#[test]
fn pipeline_error_messages() {
    assert_eq!(PipelineError::Frame(FrameError::Truncated).message(), "frame: frame truncated");
    assert_eq!(PipelineError::Frame(FrameError::InvalidMagic).message(), "frame: invalid magic bytes");
    assert_eq!(PipelineError::Frame(FrameError::UnsupportedVersion(7)).message(), "frame: unsupported version: 7");
    assert_eq!(
        PipelineError::Frame(FrameError::CrcMismatch { stored: 0x1234, computed: 0xabcd_ef01 }).message(),
        "frame: CRC32 mismatch: stored 0x00001234 computed 0xabcdef01"
    );
    assert_eq!(PipelineError::Inflate("corrupt deflate stream".to_string()).message(), "inflate: corrupt deflate stream");
    assert_eq!(PipelineError::Tokenizer("bad".to_string()).message(), "tokenizer: bad");
}

#[test]
fn pipeline_short_and_magic_inputs_roundtrip() {
    for data in [&b"a"[..], &b"ab"[..], &b"abc"[..], &b"\x01\x02"[..], &b"GNTK"[..], &b"GNTKxyz plain text"[..]] {
        let c = compress(data);
        assert_eq!(decompress(&c).unwrap(), data.to_vec());
    }
}

#[test]
fn window_records_with_cut_record() {
    let entries = vec![(b"hello".to_vec(), 3u64, 12u64), (b"world!".to_vec(), 2, 8)];
    let mut ser = serialize_entries(&entries);
    ser.extend_from_slice(&[40, b'x', b'y']);
    assert_eq!(deserialize_entries(&ser), entries);
}
