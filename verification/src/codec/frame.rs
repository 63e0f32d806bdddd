//! GN frame format.
//!
//! Wire layout:
//!   [0..4]       magic:   0x47 0x4E 0x4C 0x5A ("GNLZ")
//!   [4]          version: u8
//!   [5]          flags:   u8  (bit 0 = compression enabled)
//!   [6..10]      length:  u32 le (payload byte count)
//!   [10..10+len] payload: bytes
//!   [10+len..+4] crc32:   u32 le (over bytes 0..10+len)

use vstd::prelude::*;
use vstd::slice::{slice_subrange, slice_to_vec};
use crate::bytes::{append_bytes, le32_bytes, le32_value, lemma_le32_roundtrip, push_le32, read_le32};
use crate::codec::crc::{crc32, crc32_spec};
use crate::text::{decimal, hex32};

verus! {

pub const MAGIC: [u8; 4] = [0x47, 0x4E, 0x4C, 0x5A];
pub const VERSION: u8 = 2;
pub const FLAG_COMPRESSION: u8 = 0x01;
/// magic + version + flags + length
pub const HEADER_LEN: usize = 10;
/// crc32
pub const TRAILER_LEN: usize = 4;
pub const MIN_FRAME_LEN: usize = HEADER_LEN + TRAILER_LEN;

/// The magic bytes "GNLZ".
pub open spec fn magic_seq() -> Seq<u8> {
    seq![0x47u8, 0x4Eu8, 0x4Cu8, 0x5Au8]
}

/// Owned frame -- used when building frames for transmission.
#[derive(Debug)]
pub struct Frame {
    pub version: u8,
    pub flags: u8,
    pub payload: Vec<u8>,
}

/// Zero-copy decoded frame -- borrows its payload from the source buffer.
#[derive(Debug)]
pub struct FrameView<'a> {
    pub version: u8,
    pub flags: u8,
    pub payload: &'a [u8],
}

impl<'a> FrameView<'a> {
    pub fn is_compressed(&self) -> (r: bool)
        ensures
            r == (self.flags & FLAG_COMPRESSION != 0),
    {
        self.flags & FLAG_COMPRESSION != 0
    }

    /// Promote to an owned Frame.
    pub fn to_owned(&self) -> (f: Frame)
        ensures
            f.version == self.version,
            f.flags == self.flags,
            f.payload@ == self.payload@,
    {
        Frame { version: self.version, flags: self.flags, payload: slice_to_vec(self.payload) }
    }
}

impl Frame {
    pub fn new(payload: Vec<u8>, compressed: bool) -> (f: Frame)
        ensures
            f.version == VERSION,
            f.flags == (if compressed { FLAG_COMPRESSION } else { 0 }),
            f.payload == payload,
    {
        Frame { version: VERSION, flags: if compressed { FLAG_COMPRESSION } else { 0 }, payload }
    }

    pub fn is_compressed(&self) -> (r: bool)
        ensures
            r == (self.flags & FLAG_COMPRESSION != 0),
    {
        self.flags & FLAG_COMPRESSION != 0
    }
}

#[derive(Debug, PartialEq, Eq, Structural)]
pub enum FrameError {
    InvalidMagic,
    UnsupportedVersion(u8),
    Truncated,
    CrcMismatch { stored: u32, computed: u32 },
}

/// The text of a frame error.
pub open spec fn frame_error_text(e: FrameError) -> Seq<char> {
    match e {
        FrameError::InvalidMagic => "invalid magic bytes"@,
        FrameError::UnsupportedVersion(v) => "unsupported version: "@ + decimal(v as nat),
        FrameError::Truncated => "frame truncated"@,
        FrameError::CrcMismatch { stored, computed } => "CRC32 mismatch: stored "@ + hex32(stored) + " computed "@
            + hex32(computed),
    }
}

impl FrameError {
    /// The error as text.
    pub fn message(&self) -> (m: String)
        ensures
            m@ == frame_error_text(*self),
    {
        match self {
            FrameError::InvalidMagic => String::from_str("invalid magic bytes"),
            FrameError::UnsupportedVersion(v) => unsupported_version_message(*v),
            FrameError::Truncated => String::from_str("frame truncated"),
            FrameError::CrcMismatch { stored, computed } => crc_mismatch_message(*stored, *computed),
        }
    }
}

/// `format!` of the version: an integer is displayed in decimal.
#[verifier::external_body]
fn unsupported_version_message(v: u8) -> (m: String)
    ensures
        m@ == "unsupported version: "@ + decimal(v as nat),
{
    format!("unsupported version: {v}")
}

/// `format!` of the two checksums: `#010x` writes `0x` and the value in
/// lower-case hex, zero-padded to ten characters in all.
#[verifier::external_body]
fn crc_mismatch_message(stored: u32, computed: u32) -> (m: String)
    ensures
        m@ == "CRC32 mismatch: stored "@ + hex32(stored) + " computed "@ + hex32(computed),
{
    format!("CRC32 mismatch: stored {stored:#010x} computed {computed:#010x}")
}

/// Header and payload of the frame for `(version, flags, payload)`: what the
/// CRC covers.
pub open spec fn frame_body(version: u8, flags: u8, payload: Seq<u8>) -> Seq<u8> {
    magic_seq() + seq![version, flags] + le32_bytes(payload.len() as u32) + payload
}

/// The bytes `encode` produces for a frame.
pub open spec fn frame_bytes(version: u8, flags: u8, payload: Seq<u8>) -> Seq<u8> {
    let body = frame_body(version, flags, payload);
    body + le32_bytes(crc32_spec(body))
}

/// What decoding `data` yields: `(version, flags, payload length)` of a valid
/// frame, or the first check it fails.
pub open spec fn decode_spec(data: Seq<u8>) -> Result<(u8, u8, nat), FrameError> {
    if data.len() < 14 {
        Err(FrameError::Truncated)
    } else if data.subrange(0, 4) != magic_seq() {
        Err(FrameError::InvalidMagic)
    } else if data[4] != VERSION {
        Err(FrameError::UnsupportedVersion(data[4]))
    } else {
        let len = le32_value(data.subrange(6, 10)) as int;
        if data.len() < 10 + len + 4 {
            Err(FrameError::Truncated)
        } else {
            let stored = le32_value(data.subrange(10 + len, 14 + len));
            let computed = crc32_spec(data.subrange(0, 10 + len));
            if stored != computed {
                Err(FrameError::CrcMismatch { stored, computed })
            } else {
                Ok((data[4], data[5], len as nat))
            }
        }
    }
}

/// Encode an owned Frame into bytes.
pub fn encode(frame: &Frame) -> (out: Vec<u8>)
    ensures
        out@ == frame_bytes(frame.version, frame.flags, frame.payload@),
{
    let mut out: Vec<u8> = Vec::new();
    out.push(MAGIC[0]);
    out.push(MAGIC[1]);
    out.push(MAGIC[2]);
    out.push(MAGIC[3]);
    out.push(frame.version);
    out.push(frame.flags);
    push_le32(&mut out, frame.payload.len() as u32);
    append_bytes(&mut out, frame.payload.as_slice());
    assert(out@ =~= frame_body(frame.version, frame.flags, frame.payload@));
    let crc = crc32(out.as_slice());
    push_le32(&mut out, crc);
    out
}

/// Decode bytes into a FrameView whose payload is a slice of `data`.
/// Verifies magic, version, length and CRC32.
pub fn decode_view(data: &[u8]) -> (r: Result<FrameView<'_>, FrameError>)
    ensures
        match decode_spec(data@) {
            Ok((v, f, len)) => r matches Ok(fv) && fv.version == v && fv.flags == f
                && fv.payload@ == data@.subrange(10, 10 + len as int),
            Err(e) => r == Err::<FrameView<'_>, FrameError>(e),
        },
{
    if data.len() < MIN_FRAME_LEN {
        return Err(FrameError::Truncated);
    }
    if data[0] != MAGIC[0] || data[1] != MAGIC[1] || data[2] != MAGIC[2] || data[3] != MAGIC[3] {
        proof {
            if data@.subrange(0, 4) == magic_seq() {
                assert(data@.subrange(0, 4)[0] == data@[0]);
                assert(data@.subrange(0, 4)[1] == data@[1]);
                assert(data@.subrange(0, 4)[2] == data@[2]);
                assert(data@.subrange(0, 4)[3] == data@[3]);
            }
        }
        return Err(FrameError::InvalidMagic);
    }
    assert(data@.subrange(0, 4) =~= magic_seq());
    let version = data[4];
    if version != VERSION {
        return Err(FrameError::UnsupportedVersion(version));
    }
    let flags = data[5];
    let len = read_le32(data, 6) as usize;
    if data.len() - HEADER_LEN - TRAILER_LEN < len {
        return Err(FrameError::Truncated);
    }
    let payload_end = HEADER_LEN + len;
    let stored = read_le32(data, payload_end);
    let computed = crc32(slice_subrange(data, 0, payload_end));
    if stored != computed {
        return Err(FrameError::CrcMismatch { stored, computed });
    }
    Ok(FrameView { version, flags, payload: slice_subrange(data, HEADER_LEN, payload_end) })
}

/// Decode into an owned Frame.
pub fn decode(data: &[u8]) -> (r: Result<Frame, FrameError>)
    ensures
        match decode_spec(data@) {
            Ok((v, f, len)) => r matches Ok(fr) && fr.version == v && fr.flags == f
                && fr.payload@ == data@.subrange(10, 10 + len as int),
            Err(e) => r == Err::<Frame, FrameError>(e),
        },
{
    match decode_view(data) {
        Ok(v) => Ok(v.to_owned()),
        Err(e) => Err(e),
    }
}

/// Decoding an encoded frame of the current version gives back its flags and
/// payload, provided the payload length fits the 32-bit length field.
pub proof fn lemma_frame_roundtrip(flags: u8, payload: Seq<u8>)
    requires
        payload.len() <= u32::MAX,
    ensures
        decode_spec(frame_bytes(VERSION, flags, payload)) == Ok::<(u8, u8, nat), FrameError>((VERSION, flags, payload.len())),
        frame_bytes(VERSION, flags, payload).subrange(10, 10 + payload.len() as int) == payload,
{
    let body = frame_body(VERSION, flags, payload);
    let data = frame_bytes(VERSION, flags, payload);
    lemma_le32_roundtrip(payload.len() as u32);
    lemma_le32_roundtrip(crc32_spec(body));
    let len = payload.len() as int;
    assert(body.len() == 10 + len);
    assert(data.subrange(0, 4) =~= magic_seq());
    assert(data.subrange(6, 10) =~= le32_bytes(payload.len() as u32));
    assert(data.subrange(10, 10 + len) =~= payload);
    assert(data.subrange(0, 10 + len) =~= body);
    assert(data.subrange(10 + len, 14 + len) =~= le32_bytes(crc32_spec(body)));
}

} // verus!
