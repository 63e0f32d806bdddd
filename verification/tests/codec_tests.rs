use glasik_core::codec::ans::{
    compress, compress_bits, compress_o1, decompress, decompress_bits, decompress_o1, FreqTable,
};
use glasik_core::codec::backref;
use glasik_core::codec::crc::crc32;
use glasik_core::codec::frame::{decode as frame_decode, decode_view, encode as frame_encode, Frame, FrameError, HEADER_LEN};
use glasik_core::codec::varint::{decode as varint_decode, encode as varint_encode, encode_stack, MAX_VARINT_LEN};

fn repeat_bytes(pattern: &[u8], total: usize) -> Vec<u8> {
    pattern.iter().cycle().take(total).copied().collect()
}

// ---------------------------------------------------------------------------
// ANS
// ---------------------------------------------------------------------------

#[test]
fn test_bits_empty() {
    let c = compress_bits(b"");
    assert_eq!(decompress_bits(&c).unwrap(), b"");
}

#[test]
fn test_bits_single_sym() {
    let d = b"aaaaaa";
    let c = compress_bits(d);
    assert_eq!(decompress_bits(&c).expect("bit single sym failed"), d);
}

#[test]
fn test_bits_two_syms() {
    let d = b"ababababab";
    let c = compress_bits(d);
    assert_eq!(decompress_bits(&c).expect("bit roundtrip failed"), d);
}

#[test]
fn test_bits_real_text() {
    let d = b"the quick brown fox jumps over the lazy dog                   the quick brown fox jumps over the lazy dog";
    let c = compress_bits(d);
    let dec = decompress_bits(&c).expect("bit text failed");
    assert_eq!(dec, d);
    println!("bits text: {}->{}  {:.2}x", d.len(), c.len(), d.len() as f64 / c.len() as f64);
}

#[test]
fn test_bits_vs_bytes() {
    let d: Vec<u8> = repeat_bytes(b"hello world ", 1000);
    let byte_c = compress(&d);
    let bit_c = compress_bits(&d);
    let dec = decompress_bits(&bit_c).expect("bit 1KB failed");
    assert_eq!(dec, d);
    println!("byte: {}->{}  {:.2}x", d.len(), byte_c.len(), d.len() as f64 / byte_c.len() as f64);
    println!("bits: {}->{}  {:.2}x", d.len(), bit_c.len(), d.len() as f64 / bit_c.len() as f64);
}

#[test]
fn test_o1_empty() {
    let c = compress_o1(b"");
    assert_eq!(decompress_o1(&c).unwrap(), b"");
}

#[test]
fn test_o1_roundtrip() {
    let d = b"hello world hello world hello";
    let c = compress_o1(d);
    assert_eq!(decompress_o1(&c).expect("o1 roundtrip failed"), d);
}

#[test]
fn test_o1_real_text() {
    let d = b"the quick brown fox jumps over the lazy dog                   the quick brown fox jumps over the lazy dog";
    let c = compress_o1(d);
    let dec = decompress_o1(&c).expect("o1 text failed");
    assert_eq!(dec, d);
    let c0 = compress(d);
    println!("o0: {}->{}  {:.2}x", d.len(), c0.len(), d.len() as f64 / c0.len() as f64);
    println!("o1: {}->{}  {:.2}x", d.len(), c.len(), d.len() as f64 / c.len() as f64);
}

#[test]
fn test_o1_vs_o0_1kb() {
    let d: Vec<u8> = repeat_bytes(b"hello world ", 1000);
    let c0 = compress(&d);
    let c1 = compress_o1(&d);
    let dec = decompress_o1(&c1).expect("o1 1KB failed");
    assert_eq!(dec, d);
    println!("o0 1KB: {}->{}  {:.2}x", d.len(), c0.len(), d.len() as f64 / c0.len() as f64);
    println!("o1 1KB: {}->{}  {:.2}x", d.len(), c1.len(), d.len() as f64 / c1.len() as f64);
}

#[test]
fn ans_byte_coder_roundtrip() {
    let d = b"abracadabra abracadabra";
    let c = compress(d);
    assert_eq!(decompress(&c).unwrap(), d.to_vec());
}

#[test]
fn ans_empty_input_roundtrip() {
    let c = compress(b"");
    assert_eq!(decompress(&c).unwrap(), Vec::<u8>::new());
}

#[test]
fn ans_truncated_input_fails() {
    assert!(decompress(&[]).is_none());
    assert!(decompress_bits(&[1, 2]).is_none());
    assert!(decompress_o1(&[]).is_none());
}

#[test]
fn ans_table_is_normalized() {
    let t = FreqTable::build(b"aab");
    assert_eq!(t.total, 2048);
    assert_eq!(t.freq[b'a' as usize], 1365);
    assert_eq!(t.freq[b'b' as usize], 683);
    assert_eq!(t.cumsum[256], 2048);
}

#[test]
fn ans_table_serialize_roundtrip() {
    let t = FreqTable::build(b"the table of a small text");
    let ser = t.serialize();
    let (back, used) = FreqTable::deserialize(&ser).unwrap();
    assert_eq!(used, ser.len());
    assert_eq!(back.freq, t.freq);
    assert_eq!(back.total, t.total);
}

// ---------------------------------------------------------------------------
// Back-references
// ---------------------------------------------------------------------------

#[test]
fn test_roundtrip_no_match() {
    let data = b"hello world no repeats here at all";
    assert_eq!(backref::decompress(&backref::compress(data)), data);
}

#[test]
fn test_roundtrip_with_match() {
    let data = b"the quick brown fox the quick brown fox the quick";
    let c = backref::compress(data);
    assert!(c.len() < data.len());
    assert_eq!(backref::decompress(&c), data);
}

#[test]
fn test_escape_boundary() {
    let data: Vec<u8> = vec![0x01, 0x55, b'h', b'e', b'l', b'l', b'o', 0x01, 0x55, b'h', b'e', b'l', b'l', b'o'];
    assert_eq!(backref::decompress(&backref::compress(&data)), data);
}

#[test]
fn backref_exact_reference_bytes() {
    let c = backref::compress(b"abcdefabcdef");
    assert_eq!(c, vec![b'a', b'b', b'c', b'd', b'e', b'f', 0x02, 0x03, 0x06, 0x00]);
}

#[test]
fn backref_short_input_kept() {
    assert_eq!(backref::compress(b"abcde"), b"abcde".to_vec());
}

#[test]
fn backref_overlapping_copy() {
    // one literal, then copy 8 bytes from 1 back
    let d = backref::decompress(&[b'x', 0x02, 0x05, 0x01, 0x00]);
    assert_eq!(d, b"xxxxxxxxx".to_vec());
}

#[test]
fn backref_truncated_marker_copied() {
    assert_eq!(backref::decompress(&[b'a', 0x02, 0x05]), vec![b'a', 0x02, 0x05]);
}

// ---------------------------------------------------------------------------
// CRC32
// ---------------------------------------------------------------------------

#[test]
fn test_known_vector() {
    let result = crc32(b"123456789");
    assert_eq!(result, 0xCBF43926, "CRC32 standard vector failed");
}

#[test]
fn crc_test_empty() {
    assert_eq!(crc32(b""), 0x00000000);
}

#[test]
fn test_deterministic() {
    let a = crc32(b"glasik");
    let b = crc32(b"glasik");
    assert_eq!(a, b);
}

#[test]
fn test_different_inputs() {
    assert_ne!(crc32(b"glasik"), crc32(b"Glasik"));
}

#[test]
fn test_integrity_detection() {
    let data = b"GN frame payload";
    let good = crc32(data);
    let mut corrupted = data.to_vec();
    corrupted[4] ^= 0xFF;
    let bad = crc32(&corrupted);
    assert_ne!(good, bad, "corruption not detected");
}

// ---------------------------------------------------------------------------
// Frames
// ---------------------------------------------------------------------------

fn frame_roundtrip(payload: Vec<u8>, compressed: bool) {
    let frame = Frame::new(payload.clone(), compressed);
    let encoded = frame_encode(&frame);
    let view = decode_view(&encoded).expect("decode_view failed");
    assert_eq!(view.payload, payload.as_slice());
    assert_eq!(view.is_compressed(), compressed);
    let owned = frame_decode(&encoded).expect("decode failed");
    assert_eq!(owned.payload, payload);
}

#[test]
fn test_roundtrip_uncompressed() {
    frame_roundtrip(b"hello glasik".to_vec(), false);
}

#[test]
fn test_roundtrip_compressed_flag() {
    frame_roundtrip(b"compressed".to_vec(), true);
}

#[test]
fn test_empty_payload() {
    frame_roundtrip(vec![], false);
}

#[test]
fn test_large_payload() {
    let payload: Vec<u8> = (0..65536).map(|i| (i % 256) as u8).collect();
    frame_roundtrip(payload, false);
}

#[test]
fn test_magic_check() {
    let mut enc = frame_encode(&Frame::new(b"data".to_vec(), false));
    enc[0] = 0x00;
    assert!(matches!(decode_view(&enc), Err(FrameError::InvalidMagic)));
}

#[test]
fn test_crc_corruption_detected() {
    let mut enc = frame_encode(&Frame::new(b"important".to_vec(), false));
    let last = enc.len();
    enc[last - 5] ^= 0xFF;
    assert!(matches!(decode_view(&enc), Err(FrameError::CrcMismatch { .. })));
}

#[test]
fn test_truncated() {
    let enc = frame_encode(&Frame::new(b"data".to_vec(), false));
    assert!(matches!(decode_view(&enc[..8]), Err(FrameError::Truncated)));
}

#[test]
fn test_zero_copy_no_alloc() {
    let payload = b"zero copy test".to_vec();
    let encoded = frame_encode(&Frame::new(payload.clone(), false));
    let view = decode_view(&encoded).unwrap();
    let view_ptr = view.payload.as_ptr();
    let encoded_ptr = encoded[HEADER_LEN..].as_ptr();
    assert_eq!(view_ptr, encoded_ptr, "payload should be a slice, not a copy");
}

#[test]
fn test_promote_to_owned() {
    let payload = b"promote me".to_vec();
    let encoded = frame_encode(&Frame::new(payload.clone(), true));
    let view = decode_view(&encoded).unwrap();
    let owned = view.to_owned();
    assert_eq!(owned.payload, payload);
    assert!(owned.is_compressed());
}

#[test]
fn frame_exact_layout() {
    let enc = frame_encode(&Frame::new(vec![0xAA], false));
    assert_eq!(&enc[..10], &[0x47, 0x4E, 0x4C, 0x5A, 2, 0, 1, 0, 0, 0]);
    assert_eq!(enc[10], 0xAA);
    assert_eq!(enc.len(), 15);
    let crc = crc32(&enc[..11]);
    assert_eq!(&enc[11..], &crc.to_le_bytes());
}

#[test]
fn frame_unsupported_version() {
    let mut enc = frame_encode(&Frame::new(b"v".to_vec(), false));
    enc[4] = 9;
    assert!(matches!(decode_view(&enc), Err(FrameError::UnsupportedVersion(9))));
}

// ---------------------------------------------------------------------------
// Varints
// ---------------------------------------------------------------------------

fn varint_roundtrip(n: u64) {
    let stack = encode_stack(n);
    let (decoded, pos) = varint_decode(stack.as_slice(), 0).expect("decode failed");
    assert_eq!(decoded, n, "roundtrip failed for {n}");
    assert_eq!(pos, stack.len(), "pos mismatch for {n}");
    let mut vec_out = Vec::new();
    varint_encode(n, &mut vec_out);
    assert_eq!(vec_out, stack.as_slice(), "stack/vec mismatch for {n}");
}

#[test]
fn test_zero() {
    varint_roundtrip(0);
}

#[test]
fn test_small() {
    varint_roundtrip(1);
    varint_roundtrip(127);
}

#[test]
fn test_two_bytes() {
    varint_roundtrip(128);
    varint_roundtrip(300);
    varint_roundtrip(16383);
}

#[test]
fn test_large() {
    varint_roundtrip(u32::MAX as u64);
    varint_roundtrip(u64::MAX);
}

#[test]
fn test_sequential() {
    let mut buf = Vec::new();
    varint_encode(1, &mut buf);
    varint_encode(300, &mut buf);
    varint_encode(0, &mut buf);
    let (a, p1) = varint_decode(&buf, 0).unwrap();
    let (b, p2) = varint_decode(&buf, p1).unwrap();
    let (c, _) = varint_decode(&buf, p2).unwrap();
    assert_eq!((a, b, c), (1, 300, 0));
}

#[test]
fn test_known_encoding() {
    let buf = encode_stack(300);
    assert_eq!(buf.as_slice(), &[0xAC, 0x02]);
}

#[test]
fn test_stack_no_alloc() {
    let buf = encode_stack(u64::MAX);
    assert!(buf.len() <= MAX_VARINT_LEN);
    let (v, _) = varint_decode(buf.as_slice(), 0).unwrap();
    assert_eq!(v, u64::MAX);
}

#[test]
fn varint_truncated_fails() {
    assert!(varint_decode(&[0x80], 0).is_err());
    assert!(varint_decode(&[], 0).is_err());
}

#[test]
fn ans_empty_table_serialize_roundtrip() {
    let t = FreqTable::build(b"");
    let ser = t.serialize();
    assert_eq!(ser, vec![0, 0]);
    let mut with_rest = ser.clone();
    with_rest.extend_from_slice(&[9, 9, 9]);
    let (back, used) = FreqTable::deserialize(&with_rest).unwrap();
    assert_eq!(used, 2);
    assert_eq!(back.freq, t.freq);
    assert_eq!(back.cumsum, t.cumsum);
    assert_eq!(back.total, 0);
}

#[test]
fn backref_output_not_longer() {
    let input = b"abcdefgh-abcdefgh-abcdefgh-abcdefgh".to_vec();
    let out = backref::compress(&input);
    assert!(out.len() < input.len());
    assert_eq!(backref::decompress(&out), input);
}

#[test]
fn o1_first_byte_after_zero_context_roundtrip() {
    for d in [&[0x61u8, 0x00, 0x62][..], &[0x41, 0x00, 0x42, 0x00, 0x43][..], &[0x00, 0x00, 0x01][..]] {
        let c = compress_o1(d);
        assert_eq!(decompress_o1(&c).unwrap(), d.to_vec());
    }
}

#[test]
fn backref_long_run_roundtrip() {
    let input = vec![b'a'; 300];
    let out = backref::compress(&input);
    assert_eq!(backref::decompress(&out), input);
    let input2 = b"xyz".repeat(400);
    assert_eq!(backref::decompress(&backref::compress(&input2)), input2);
}
