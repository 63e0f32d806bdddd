//! Content tags for shard frames: "VTC-v1-" and the first sixteen bytes,
//! in hex, of the SHA-256 of the shard type and the frame's pair stream.

use vstd::prelude::*;
use sha2::Digest;
use vstd::string::StringSliceAdditionalSpecFns;
use vstd::slice::{slice_subrange, slice_to_vec};
use crate::bytes::{append_bytes, le16_value, read_le16};
use crate::text::hex_lower;

verus! {

/// The SHA-256 digest of `data`.
pub uninterp spec fn sha256_spec(data: Seq<u8>) -> Seq<u8>;

/// `sha2::Sha256::digest`: the digest of `d`, 32 bytes; a function of `d`
/// alone.
#[verifier::external_body]
fn sha256(d: &[u8]) -> (r: Vec<u8>)
    ensures
        r@ == sha256_spec(d@),
        r@.len() == 32,
{
    sha2::Sha256::digest(d).to_vec()
}

/// `hex::encode`: the bytes as lower-case hex, two digits each.
#[verifier::external_body]
fn hex_encode(d: &[u8]) -> (r: String)
    ensures
        r@ == hex_lower(d@),
{
    hex::encode(d)
}

/// `format!` of the tag's prefix and the hex digits.
#[verifier::external_body]
fn vtc_format(hex: &str) -> (r: String)
    ensures
        r@ == "VTC-v1-"@ + hex@,
{
    format!("VTC-v1-{}", hex)
}

/// The part of a shard frame the tag covers: the deflated pair stream, as
/// the header's lengths place it, or the whole frame when the header is
/// missing or the stream would run past the end.
pub open spec fn vtc_span(frame: Seq<u8>) -> Seq<u8> {
    if frame.len() > 5 {
        let pairs_len = le16_value(frame.subrange(1, 3)) as int;
        let l3_len = le16_value(frame.subrange(3, 5)) as int;
        let start = 5 + l3_len;
        let end = start + pairs_len;
        if end <= frame.len() {
            frame.subrange(start, end)
        } else {
            frame
        }
    } else {
        frame
    }
}

/// The tag of a frame written for a shard type whose name has bytes
/// `shard_type`.
pub open spec fn vtc_text(frame: Seq<u8>, shard_type: Seq<u8>) -> Seq<char> {
    "VTC-v1-"@ + hex_lower(sha256_spec(shard_type + vtc_span(frame)).take(16))
}

/// The content tag of a shard frame: the shard type's name hashed first
/// (domain separation), then the frame's pair stream.
pub fn vtc_tag(frame: &[u8], shard_type: &str) -> (r: String)
    ensures
        r@ == vtc_text(frame@, shard_type.spec_bytes()),
{
    let mut input: Vec<u8> = slice_to_vec(shard_type.as_bytes());
    let n = frame.len();
    if n > 5 {
        let pairs_len = read_le16(frame, 1) as usize;
        let l3_len = read_le16(frame, 3) as usize;
        let start = 5 + l3_len;
        if pairs_len <= n && start <= n - pairs_len {
            append_bytes(&mut input, slice_subrange(frame, start, start + pairs_len));
        } else {
            append_bytes(&mut input, frame);
        }
    } else {
        append_bytes(&mut input, frame);
    }
    let h = sha256(input.as_slice());
    let hx = hex_encode(slice_subrange(h.as_slice(), 0, 16));
    vtc_format(hx.as_str())
}

} // verus!
