//! The framed compression pipeline.
//!
//! A buffer is tokenized (two-pass codon substitution) and framed either
//! as is ("codon") or after DEFLATE ("deflate"); automatic mode measures
//! both and keeps the smaller frame.

use vstd::prelude::*;
use std::io::{Read, Write};
use crate::codec::frame::{Frame, FrameError, frame_error_text, VERSION, frame_bytes, lemma_frame_roundtrip};
use crate::tokenizer::{Tokenizer, encoded_as, tok_decode_spec, tok_magic, tok_container};
use crate::tokenizer::codon::encode_spec;
use crate::tokenizer::dictionary::{DictEntry, entry_bytes};

verus! {

// Flag bits in the frame's flags byte.
pub const FLAG_COMPRESSION: u8 = 0x01;
pub const FLAG_CODON_ONLY: u8 = 0x02;
pub const FLAG_ANS_O1: u8 = 0x04;

#[derive(Debug)]
pub enum PipelineError {
    Frame(FrameError),
    Inflate(String),
    Tokenizer(String),
}

/// The text of a pipeline error: which stage failed, then its own message.
pub open spec fn pipeline_error_text(e: PipelineError) -> Seq<char> {
    match e {
        PipelineError::Frame(f) => "frame"@ + ": "@ + frame_error_text(f),
        PipelineError::Inflate(m) => "inflate"@ + ": "@ + m@,
        PipelineError::Tokenizer(m) => "tokenizer"@ + ": "@ + m@,
    }
}

impl PipelineError {
    /// The error as text: which stage failed, then its own message.
    pub fn message(&self) -> (r: String)
        ensures
            r@ == pipeline_error_text(*self),
    {
        match self {
            PipelineError::Frame(e) => stage_message("frame", e.message().as_str()),
            PipelineError::Inflate(e) => stage_message("inflate", e.as_str()),
            PipelineError::Tokenizer(e) => stage_message("tokenizer", e.as_str()),
        }
    }
}

/// `format!` of the stage and the message with `": "` between them.
#[verifier::external_body]
fn stage_message(stage: &str, msg: &str) -> (r: String)
    ensures
        r@ == stage@ + ": "@ + msg@,
{
    format!("{stage}: {msg}")
}

impl From<FrameError> for PipelineError {
    fn from(e: FrameError) -> (r: Self) {
        PipelineError::Frame(e)
    }
}

impl vstd::std_specs::convert::FromSpecImpl<FrameError> for PipelineError {
    open spec fn obeys_from_spec() -> bool {
        true
    }

    open spec fn from_spec(v: FrameError) -> Self {
        PipelineError::Frame(v)
    }
}

#[derive(Debug, Clone, Copy, PartialEq, Eq, Structural)]
pub enum Mode {
    /// Measure both framings, keep the smaller.
    Auto,
    /// Frame the tokens as they are.
    CodonOnly,
    /// Frame the DEFLATE of the tokens.
    Deflate,
}

#[derive(Debug)]
pub struct PipelineStats {
    pub input_bytes: usize,
    pub tokenized_bytes: usize,
    pub compressed_bytes: usize,
    pub framed_bytes: usize,
    pub mode_used: &'static str,
}

// ---------------------------------------------------------------------------
// DEFLATE, through flate2
// ---------------------------------------------------------------------------

/// The raw DEFLATE stream that flate2's encoder writes for `data` at the
/// default level.
pub uninterp spec fn deflate_spec(data: Seq<u8>) -> Seq<u8>;

/// What flate2's raw DEFLATE decoder reads back from `data`, or `None`
/// when `data` does not start with a complete DEFLATE stream.
pub uninterp spec fn inflate_spec(data: Seq<u8>) -> Option<Seq<u8>>;

/// `flate2::write::DeflateEncoder` at `Compression::default()`, writing
/// into a `Vec`: the result is the named stream, and flate2's decoder reads
/// the input back from it (DEFLATE is lossless). Writing into a `Vec` does
/// not fail, so neither does `finish`.
#[verifier::external_body]
pub(crate) fn deflate(data: &[u8]) -> (out: Vec<u8>)
    ensures
        out@ == deflate_spec(data@),
        inflate_spec(out@) == Some(data@),
{
    let mut enc = flate2::write::DeflateEncoder::new(Vec::new(), flate2::Compression::default());
    let _ = enc.write_all(data);
    enc.finish().expect("deflate encoder should never fail on in-memory buffer")
}

/// `flate2::read::DeflateDecoder` read to the end: the named result, or the
/// decoder's error as text when there is none. The text is not stated.
#[verifier::external_body]
pub(crate) fn inflate(data: &[u8]) -> (r: Result<Vec<u8>, String>)
    ensures
        match r {
            Ok(v) => inflate_spec(data@) == Some(v@),
            Err(_) => inflate_spec(data@) is None,
        },
{
    let mut dec = flate2::read::DeflateDecoder::new(data);
    let mut out = Vec::new();
    match dec.read_to_end(&mut out) {
        Ok(_) => Ok(out),
        Err(e) => Err(e.to_string()),
    }
}

// ---------------------------------------------------------------------------
// Frames
// ---------------------------------------------------------------------------

/// The bytes handed to framing: the tokenizer container, unless it is not
/// smaller than a nonempty input, in which case the input itself.
pub open spec fn tokenize_choice(data: Seq<u8>, enc: Seq<u8>) -> Seq<u8> {
    if data.len() < 4 || data.take(4) == tok_magic() || enc.len() < data.len() {
        enc
    } else {
        data
    }
}

pub open spec fn codon_frame(t: Seq<u8>) -> Seq<u8> {
    frame_bytes(VERSION, FLAG_CODON_ONLY, t)
}

pub open spec fn deflate_frame(t: Seq<u8>) -> Seq<u8> {
    frame_bytes(VERSION, FLAG_COMPRESSION, deflate_spec(t))
}

/// The frame of the tokens `t` in a mode: automatic mode keeps the codon
/// frame unless the deflate frame is strictly smaller.
pub open spec fn mode_frame(mode: Mode, t: Seq<u8>) -> Seq<u8> {
    match mode {
        Mode::CodonOnly => codon_frame(t),
        Mode::Deflate => deflate_frame(t),
        Mode::Auto => if codon_frame(t).len() <= deflate_frame(t).len() {
            codon_frame(t)
        } else {
            deflate_frame(t)
        },
    }
}

/// `out` is the frame of `data` in `mode` for some encoding of `data`.
pub open spec fn pipeline_compressed(data: Seq<u8>, mode: Mode, out: Seq<u8>) -> bool {
    exists|enc: Seq<u8>, st: crate::tokenizer::TokenizerStats|
        #[trigger] encoded_as(data, enc, st) && pipeline_compressed_with(data, enc, mode, out)
}

/// `out` is the frame of `data` in `mode` for its encoding `enc`; when the
/// tokens were deflated, flate2 reads them back from their DEFLATE stream.
pub open spec fn pipeline_compressed_with(data: Seq<u8>, enc: Seq<u8>, mode: Mode, out: Seq<u8>) -> bool {
    let t = tokenize_choice(data, enc);
    &&& out == mode_frame(mode, t)
    &&& mode != Mode::CodonOnly ==> inflate_spec(deflate_spec(t)) == Some(t)
}

/// What decompression yields: `None` when the frame is invalid, carries the
/// pretrained-ANS flag (no pretrained coder is bundled), does not inflate,
/// or its tokens do not decode.
pub open spec fn pipeline_decoded(data: Seq<u8>) -> Option<Seq<u8>> {
    match crate::codec::frame::decode_spec(data) {
        Err(_) => None,
        Ok((v, f, len)) => {
            let payload = data.subrange(10, 10 + len as int);
            if f & FLAG_ANS_O1 != 0 {
                None
            } else {
                let p = if f & FLAG_COMPRESSION != 0 {
                    inflate_spec(payload)
                } else {
                    Some(payload)
                };
                match p {
                    None => None,
                    Some(p) => tok_decode_spec(p),
                }
            }
        },
    }
}

/// Tokenize a buffer for framing: the tokenizer container when it is
/// smaller, else the buffer itself. A buffer the decoder would not read
/// back as itself (under four bytes, or starting with the container
/// magic) is always framed as a container.
fn tokenize_buf(data: &[u8]) -> (out: Vec<u8>)
    requires
        data@.len() <= u32::MAX,
        data@.len() * 128 <= usize::MAX,
    ensures
        exists|enc: Seq<u8>, st: crate::tokenizer::TokenizerStats|
            #[trigger] encoded_as(data@, enc, st) && out@ == tokenize_choice(data@, enc),
{
    let tok = Tokenizer::new();
    let (tokenized, st) = tok.encode(data);
    if data.len() < 4 || starts_with_magic(data) || tokenized.len() < data.len() {
        tokenized
    } else {
        vstd::slice::slice_to_vec(data)
    }
}

/// `data` starts with the tokenizer container's magic.
fn starts_with_magic(data: &[u8]) -> (b: bool)
    requires
        data@.len() >= 4,
    ensures
        b == (data@.take(4) == tok_magic()),
{
    let b = data[0] == crate::tokenizer::TOK_MAGIC[0] && data[1] == crate::tokenizer::TOK_MAGIC[1]
        && data[2] == crate::tokenizer::TOK_MAGIC[2] && data[3] == crate::tokenizer::TOK_MAGIC[3];
    proof {
        if b {
            assert(data@.take(4) =~= tok_magic());
        } else {
            assert(data@.take(4) != tok_magic()) by {
                if data@.take(4) == tok_magic() {
                    assert(data@.take(4)[0] == data@[0]);
                    assert(data@.take(4)[1] == data@[1]);
                    assert(data@.take(4)[2] == data@[2]);
                    assert(data@.take(4)[3] == data@[3]);
                }
            }
        }
    }
    b
}

fn frame_codon_only(tokenized: Vec<u8>) -> (out: Vec<u8>)
    ensures
        out@ == codon_frame(tokenized@),
{
    let mut f = Frame::new(tokenized, false);
    f.flags = FLAG_CODON_ONLY;
    crate::codec::frame::encode(&f)
}

fn frame_deflate(tokenized: Vec<u8>) -> (out: Vec<u8>)
    ensures
        out@ == deflate_frame(tokenized@),
        inflate_spec(deflate_spec(tokenized@)) == Some(tokenized@),
{
    let deflated = deflate(tokenized.as_slice());
    let mut f = Frame::new(deflated, true);
    f.flags = FLAG_COMPRESSION;
    crate::codec::frame::encode(&f)
}

// ---------------------------------------------------------------------------
// Public interface
// ---------------------------------------------------------------------------

/// Compress in automatic mode.
pub fn compress(data: &[u8]) -> (out: Vec<u8>)
    requires
        data@.len() <= u32::MAX,
        data@.len() * 128 <= usize::MAX,
    ensures
        pipeline_compressed(data@, Mode::Auto, out@),
{
    compress_mode(data, &Mode::Auto).0
}

/// Compress in the given mode; also names the mode: "codon", "deflate" or
/// "auto".
pub fn compress_mode(data: &[u8], mode: &Mode) -> (r: (Vec<u8>, &'static str))
    requires
        data@.len() <= u32::MAX,
        data@.len() * 128 <= usize::MAX,
    ensures
        pipeline_compressed(data@, *mode, r.0@),
        r.1@ == match *mode {
            Mode::CodonOnly => "codon"@,
            Mode::Deflate => "deflate"@,
            Mode::Auto => "auto"@,
        },
{
    let tokenized = tokenize_buf(data);
    let ghost t = tokenized@;
    let ghost enc = choose|enc: Seq<u8>, st: crate::tokenizer::TokenizerStats|
        #[trigger] encoded_as(data@, enc, st) && t == tokenize_choice(data@, enc);
    match mode {
        Mode::CodonOnly => (frame_codon_only(tokenized), "codon"),
        Mode::Deflate => (frame_deflate(tokenized), "deflate"),
        Mode::Auto => {
            let codon = frame_codon_only(vstd::slice::slice_to_vec(tokenized.as_slice()));
            let deflated = frame_deflate(tokenized);
            if codon.len() <= deflated.len() {
                (codon, "auto")
            } else {
                (deflated, "auto")
            }
        },
    }
}


/// Decompress a frame.
pub fn decompress(data: &[u8]) -> (r: Result<Vec<u8>, PipelineError>)
    ensures
        match r {
            Ok(v) => pipeline_decoded(data@) == Some(v@),
            Err(e) => pipeline_decoded(data@) is None && match e {
                PipelineError::Frame(fe) => crate::codec::frame::decode_spec(data@) == Err::<(u8, u8, nat), FrameError>(fe),
                PipelineError::Inflate(_) => crate::codec::frame::decode_spec(data@) is Ok,
                PipelineError::Tokenizer(_) => crate::codec::frame::decode_spec(data@) is Ok,
            },
        },
        (pipeline_decoded(data@) is None) ==> r is Err,
{
    let view = match crate::codec::frame::decode_view(data) {
        Ok(v) => v,
        Err(e) => {
            return Err(PipelineError::Frame(e));
        },
    };
    let ghost len = view.payload@.len();
    if view.flags & FLAG_ANS_O1 != 0 {
        return Err(PipelineError::Inflate(String::from_str("ans_o1 decode failed")));
    }
    let payload = if view.flags & FLAG_COMPRESSION != 0 {
        match inflate(view.payload) {
            Ok(p) => p,
            Err(e) => {
                return Err(PipelineError::Inflate(e));
            },
        }
    } else {
        vstd::slice::slice_to_vec(view.payload)
    };
    match Tokenizer::new().decode(payload.as_slice()) {
        Ok(v) => Ok(v),
        Err(e) => Err(PipelineError::Tokenizer(e)),
    }
}

/// Compress in automatic mode, with statistics; the mode is named after
/// the framing kept ("codon" or "deflate").
pub fn compress_with_stats(data: &[u8]) -> (r: (Vec<u8>, PipelineStats))
    requires
        data@.len() <= u32::MAX,
        data@.len() * 128 <= usize::MAX,
    ensures
        exists|enc: Seq<u8>, st: crate::tokenizer::TokenizerStats|
            #[trigger] encoded_as(data@, enc, st) && pipeline_compressed_with(data@, enc, Mode::Auto, r.0@) && {
                let t = tokenize_choice(data@, enc);
                &&& r.1.tokenized_bytes == t.len()
                &&& r.1.mode_used@ == if codon_frame(t).len() <= deflate_frame(t).len() { "codon"@ } else { "deflate"@ }
            },
        r.1.input_bytes == data@.len(),
        r.1.compressed_bytes == r.0@.len(),
        r.1.framed_bytes == r.0@.len(),
{
    let tokenized = tokenize_buf(data);
    let tok_len = tokenized.len();
    let codon = frame_codon_only(vstd::slice::slice_to_vec(tokenized.as_slice()));
    let deflated = frame_deflate(tokenized);
    let (framed, mode_used) = if codon.len() <= deflated.len() {
        (codon, "codon")
    } else {
        (deflated, "deflate")
    };
    let n = framed.len();
    (framed, PipelineStats { input_bytes: data.len(), tokenized_bytes: tok_len, compressed_bytes: n, framed_bytes: n, mode_used })
}

/// Decompressing a compressed buffer gives it back, in every mode, when
/// the payload of its frame fits the frame's 32-bit length field.
pub proof fn lemma_pipeline_roundtrip_with(data: Seq<u8>, enc: Seq<u8>, st: crate::tokenizer::TokenizerStats, mode: Mode, out: Seq<u8>)
    requires
        encoded_as(data, enc, st),
        pipeline_compressed_with(data, enc, mode, out),
        out.len() <= u32::MAX + FRAME_OVERHEAD,
    ensures
        pipeline_decoded(out) == Some(data),
{
    let t = tokenize_choice(data, enc);
    crate::tokenizer::lemma_tokenizer_roundtrip(data, enc, st);
    assert(tok_decode_spec(t) == Some(data)) by {
        if !(data.len() < 4 || data.take(4) == tok_magic() || enc.len() < data.len()) {
            assert(t == data);
        }
    }
    assert(FLAG_CODON_ONLY & FLAG_ANS_O1 == 0 && FLAG_CODON_ONLY & FLAG_COMPRESSION == 0) by (bit_vector);
    assert(FLAG_COMPRESSION & FLAG_ANS_O1 == 0 && FLAG_COMPRESSION & FLAG_COMPRESSION != 0) by (bit_vector);
    if out == codon_frame(t) {
        lemma_frame_len(FLAG_CODON_ONLY, t);
        lemma_frame_roundtrip(FLAG_CODON_ONLY, t);
    } else {
        assert(out == deflate_frame(t));
        lemma_frame_len(FLAG_COMPRESSION, deflate_spec(t));
        lemma_frame_roundtrip(FLAG_COMPRESSION, deflate_spec(t));
    }
}

/// A frame is its payload and FRAME_OVERHEAD bytes of header and checksum.
proof fn lemma_frame_len(flags: u8, payload: Seq<u8>)
    ensures
        frame_bytes(VERSION, flags, payload).len() == payload.len() + FRAME_OVERHEAD,
{
}

/// Header and checksum bytes around a frame's payload.
pub const FRAME_OVERHEAD: usize = 14;

/// The bytes handed to framing are the tokenizer container or the input
/// itself, never longer than the container, and, for an input of four or
/// more bytes without the container magic, never longer than the input:
/// the container exactly when it is strictly shorter. A codon-only frame
/// is then FRAME_OVERHEAD bytes more than the shorter of the two.
pub proof fn lemma_framed_payload_shortest(data: Seq<u8>, enc: Seq<u8>, out: Seq<u8>)
    ensures
        tokenize_choice(data, enc) == enc || tokenize_choice(data, enc) == data,
        tokenize_choice(data, enc).len() <= enc.len(),
        data.len() >= 4 && data.take(4) != tok_magic() ==> {
            &&& tokenize_choice(data, enc).len() <= data.len()
            &&& (enc.len() < data.len() ==> tokenize_choice(data, enc) == enc)
            &&& (enc.len() >= data.len() ==> tokenize_choice(data, enc) == data)
            &&& (pipeline_compressed_with(data, enc, Mode::CodonOnly, out) ==> out.len() == FRAME_OVERHEAD + if enc.len()
                < data.len() { enc.len() } else { data.len() })
        },
{
    lemma_frame_len(FLAG_CODON_ONLY, tokenize_choice(data, enc));
}

/// A codon-only frame of an input of four or more bytes without the
/// container magic is FRAME_OVERHEAD bytes more than the shorter of the
/// input and its tokenizer container.
pub proof fn lemma_codon_frame_len(data: Seq<u8>, out: Seq<u8>)
    requires
        pipeline_compressed(data, Mode::CodonOnly, out),
        data.len() >= 4,
        data.take(4) != tok_magic(),
    ensures
        exists|enc: Seq<u8>, st: crate::tokenizer::TokenizerStats| #[trigger] encoded_as(data, enc, st)
            && out.len() == FRAME_OVERHEAD + if enc.len() < data.len() { enc.len() } else { data.len() },
{
    let (enc, st) = choose|enc: Seq<u8>, st: crate::tokenizer::TokenizerStats|
        #[trigger] encoded_as(data, enc, st) && pipeline_compressed_with(data, enc, Mode::CodonOnly, out);
    lemma_framed_payload_shortest(data, enc, out);
}

/// Decompressing a compressed buffer gives it back, in every mode, when
/// the payload of its frame fits the frame's 32-bit length field.
pub proof fn lemma_pipeline_roundtrip(data: Seq<u8>, mode: Mode, out: Seq<u8>)
    requires
        pipeline_compressed(data, mode, out),
        out.len() <= u32::MAX + FRAME_OVERHEAD,
    ensures
        pipeline_decoded(out) == Some(data),
{
    let (enc, st) = choose|enc: Seq<u8>, st: crate::tokenizer::TokenizerStats|
        #[trigger] encoded_as(data, enc, st) && pipeline_compressed_with(data, enc, mode, out);
    lemma_pipeline_roundtrip_with(data, enc, st, mode, out);
}


// ---------------------------------------------------------------------------
// Batches: one dictionary for all messages, one frame per message
// ---------------------------------------------------------------------------

/// The messages one after another.
pub open spec fn concat_all(ms: Seq<Seq<u8>>) -> Seq<u8>
    decreases ms.len(),
{
    if ms.len() == 0 {
        Seq::empty()
    } else {
        concat_all(ms.drop_last()) + ms.last()
    }
}

/// The contents of the messages.
pub open spec fn msgs_view(messages: Seq<&[u8]>) -> Seq<Seq<u8>> {
    messages.map_values(|m: &[u8]| m@)
}

/// The container of one message under the batch dictionary `pats`.
pub open spec fn batch_container(pats: Seq<Seq<u8>>, msg: Seq<u8>) -> Seq<u8> {
    tok_container(pats, msg.len() as u32, encode_spec(msg, pats))
}

/// `f` is the batch frame of `msg` under `pats`: its container framed as
/// codon unless the deflate frame is strictly smaller.
pub open spec fn batch_frame_ok(pats: Seq<Seq<u8>>, msg: Seq<u8>, f: Seq<u8>) -> bool {
    let c = batch_container(pats, msg);
    &&& f == mode_frame(Mode::Auto, c)
    &&& inflate_spec(deflate_spec(c)) == Some(c)
}

/// `frames` are the batch frames of `ms` under `pats`.
pub open spec fn batch_frames(pats: Seq<Seq<u8>>, ms: Seq<Seq<u8>>, frames: Seq<Seq<u8>>) -> bool {
    &&& frames.len() == ms.len()
    &&& forall|i: int| 0 <= i < ms.len() ==> batch_frame_ok(pats, ms[i], #[trigger] frames[i])
}

/// The batch dictionary of `ms`: a dictionary built over all of them.
pub open spec fn batch_dict(ms: Seq<Seq<u8>>, ents: Seq<DictEntry>) -> bool {
    let all = concat_all(ms);
    &&& all.len() == 0 ==> ents.len() == 0
    &&& all.len() > 0 ==> crate::tokenizer::dictionary::is_selection(
        crate::tokenizer::dictionary::freq_spec(all),
        ents,
        crate::tokenizer::dictionary::MAX_ENTRIES as nat,
    )
    &&& forall|k: int| 0 <= k < ents.len() ==> (#[trigger] ents[k]).bytes@.len() <= 128
}

/// How many messages of the batch keep the codon frame.
pub open spec fn codon_wins(pats: Seq<Seq<u8>>, ms: Seq<Seq<u8>>) -> nat
    decreases ms.len(),
{
    if ms.len() == 0 {
        0
    } else {
        codon_wins(pats, ms.drop_last()) + if codon_frame(batch_container(pats, ms.last())).len() <= deflate_frame(
            batch_container(pats, ms.last()),
        ).len() {
            1nat
        } else {
            0nat
        }
    }
}

/// The sum of the lengths of the token streams of the messages.
pub open spec fn tokens_total(pats: Seq<Seq<u8>>, ms: Seq<Seq<u8>>) -> nat
    decreases ms.len(),
{
    if ms.len() == 0 {
        0
    } else {
        tokens_total(pats, ms.drop_last()) + encode_spec(ms.last(), pats).len()
    }
}

/// The sum of the lengths of the frames.
pub open spec fn frames_total(frames: Seq<Seq<u8>>) -> nat
    decreases frames.len(),
{
    if frames.len() == 0 {
        0
    } else {
        frames_total(frames.drop_last()) + frames.last().len()
    }
}

/// Compress a batch: frames only.
pub fn compress_batch(messages: &[&[u8]]) -> (r: Vec<Vec<u8>>)
    requires
        concat_all(msgs_view(messages@)).len() <= u32::MAX,
        concat_all(msgs_view(messages@)).len() * 128 <= usize::MAX,
    ensures
        exists|ents: Seq<DictEntry>|
            #[trigger] batch_dict(msgs_view(messages@), ents) && batch_frames(
                entry_bytes(ents),
                msgs_view(messages@),
                r@.map_values(|f: Vec<u8>| f@),
            ),
{
    compress_batch_with_stats(messages).0
}

proof fn lemma_concat_push(ms: Seq<Seq<u8>>, k: int)
    requires
        0 <= k < ms.len(),
    ensures
        concat_all(ms.take(k + 1)) == concat_all(ms.take(k)) + ms[k],
        concat_all(ms.take(k)).len() <= concat_all(ms).len(),
    decreases ms.len(),
{
    assert(ms.take(k + 1).drop_last() =~= ms.take(k));
    if k + 1 < ms.len() {
        lemma_concat_push(ms.drop_last(), k);
        assert(ms.drop_last().take(k + 1) =~= ms.take(k + 1));
        assert(ms.drop_last().take(k) =~= ms.take(k));
        lemma_concat_prefix_len(ms, k + 1);
    } else {
        assert(ms.take(k + 1) =~= ms);
    }
}

proof fn lemma_concat_prefix_len(ms: Seq<Seq<u8>>, k: int)
    requires
        0 <= k <= ms.len(),
    ensures
        concat_all(ms.take(k)).len() <= concat_all(ms).len(),
    decreases ms.len() - k,
{
    if k < ms.len() {
        lemma_concat_prefix_len(ms, k + 1);
        assert(ms.take(k + 1).drop_last() =~= ms.take(k));
    } else {
        assert(ms.take(k) =~= ms);
    }
}

/// Compress a batch with one dictionary built over all messages; each
/// message gets its own frame, codon unless deflate is strictly smaller.
/// The dictionary builder counts the occurrences of a substring in 32
/// bits, so the messages together are at most u32::MAX bytes.
pub fn compress_batch_with_stats(messages: &[&[u8]]) -> (r: (Vec<Vec<u8>>, PipelineStats))
    requires
        concat_all(msgs_view(messages@)).len() <= u32::MAX,
        concat_all(msgs_view(messages@)).len() * 128 <= usize::MAX,
    ensures
        exists|ents: Seq<DictEntry>|
            #[trigger] batch_dict(msgs_view(messages@), ents) && {
                let ms = msgs_view(messages@);
                let pats = entry_bytes(ents);
                &&& batch_frames(pats, ms, r.0@.map_values(|f: Vec<u8>| f@))
                &&& r.1.tokenized_bytes == tokens_total(pats, ms)
                &&& messages@.len() > 0 ==> r.1.mode_used@ == if codon_wins(pats, ms) > messages@.len() / 2 {
                    "codon"@
                } else {
                    "deflate"@
                }
            },
        r.1.input_bytes == concat_all(msgs_view(messages@)).len(),
        r.1.framed_bytes == if frames_total(r.0@.map_values(|f: Vec<u8>| f@)) <= usize::MAX {
            frames_total(r.0@.map_values(|f: Vec<u8>| f@))
        } else {
            usize::MAX as nat
        },
        r.1.compressed_bytes == r.1.framed_bytes,
        messages@.len() == 0 ==> r.1.mode_used@ == "none"@,
{
    let ghost ms = msgs_view(messages@);
    if messages.len() == 0 {
        let frames: Vec<Vec<u8>> = Vec::new();
        proof {
            assert(concat_all(ms) =~= Seq::<u8>::empty());
            assert(batch_dict(ms, Seq::<DictEntry>::empty()));
            assert(frames@.map_values(|f: Vec<u8>| f@) =~= Seq::<Seq<u8>>::empty());
        }
        return (
            frames,
            PipelineStats { input_bytes: 0, tokenized_bytes: 0, compressed_bytes: 0, framed_bytes: 0, mode_used: "none" },
        );
    }
    let mut combined: Vec<u8> = Vec::new();
    let mut k: usize = 0;
    proof {
        assert(ms.take(0) =~= Seq::<Seq<u8>>::empty());
    }
    while k < messages.len()
        invariant
            k <= messages@.len(),
            ms == msgs_view(messages@),
            combined@ == concat_all(ms.take(k as int)),
            concat_all(ms).len() <= u32::MAX,
        decreases messages@.len() - k,
    {
        proof {
            lemma_concat_push(ms, k as int);
            assert(ms[k as int] == messages@[k as int]@);
        }
        crate::bytes::append_bytes(&mut combined, messages[k]);
        k = k + 1;
    }
    proof {
        assert(ms.take(k as int) =~= ms);
    }
    let entries = crate::tokenizer::dictionary::build(combined.as_slice());
    let ghost ents = entries@;
    let ghost pats = entry_bytes(ents);
    let dict_header = crate::tokenizer::dictionary::serialize(entries.as_slice());
    let mut frames: Vec<Vec<u8>> = Vec::new();
    let mut total_input: usize = 0;
    let mut total_tokenized: usize = 0;
    let mut total_framed: usize = 0;
    let mut wins: usize = 0;
    let mut k: usize = 0;
    proof {
        assert(frames@.map_values(|f: Vec<u8>| f@) =~= Seq::<Seq<u8>>::empty());
    }
    while k < messages.len()
        invariant
            k <= messages@.len(),
            ms == msgs_view(messages@),
            pats == entry_bytes(entries@),
            entries@.len() <= 200,
            dict_header@ == crate::tokenizer::dictionary::serialize_spec(pats),
            concat_all(ms).len() <= u32::MAX,
            concat_all(ms).len() * 128 <= usize::MAX,
            frames@.len() == k,
            forall|i: int| 0 <= i < k ==> batch_frame_ok(pats, ms[i], #[trigger] frames@[i]@),
            total_input as int == concat_all(ms.take(k as int)).len(),
            total_tokenized as int == tokens_total(pats, ms.take(k as int)),
            total_tokenized <= 2 * total_input,
            total_framed as int == if frames_total(frames@.map_values(|f: Vec<u8>| f@)) <= usize::MAX {
                frames_total(frames@.map_values(|f: Vec<u8>| f@))
            } else {
                usize::MAX as nat
            },
            wins as int == codon_wins(pats, ms.take(k as int)),
            wins <= k,
        decreases messages@.len() - k,
    {
        let msg = messages[k];
        proof {
            lemma_concat_push(ms, k as int);
            assert(ms[k as int] == msg@);
            crate::tokenizer::codon::lemma_encode_len(msg@, pats, 0);
            assert(ms.take(k + 1).drop_last() =~= ms.take(k as int));
            lemma_concat_prefix_len(ms, k + 1);
            assert(concat_all(ms.take(k + 1)).len() == total_input + msg@.len());
        }
        let tokenized = crate::tokenizer::codon::encode(msg, entries.as_slice());
        let mut tok_buf: Vec<u8> = Vec::new();
        tok_buf.push(crate::tokenizer::TOK_MAGIC[0]);
        tok_buf.push(crate::tokenizer::TOK_MAGIC[1]);
        tok_buf.push(crate::tokenizer::TOK_MAGIC[2]);
        tok_buf.push(crate::tokenizer::TOK_MAGIC[3]);
        crate::bytes::append_bytes(&mut tok_buf, dict_header.as_slice());
        crate::bytes::push_le32(&mut tok_buf, msg.len() as u32);
        crate::bytes::append_bytes(&mut tok_buf, tokenized.as_slice());
        proof {
            assert(tok_buf@ =~= batch_container(pats, msg@));
        }
        total_input = total_input + msg.len();
        total_tokenized = total_tokenized + tokenized.len();
        let codon = frame_codon_only(vstd::slice::slice_to_vec(tok_buf.as_slice()));
        let deflated = frame_deflate(tok_buf);
        let ghost fr0 = frames@.map_values(|f: Vec<u8>| f@);
        let ghost fv0 = frames@;
        let ghost c_now = batch_container(pats, msg@);
        let framed = if codon.len() <= deflated.len() {
            wins = wins + 1;
            codon
        } else {
            deflated
        };
        total_framed = total_framed.saturating_add(framed.len());
        frames.push(framed);
        proof {
            let fr1 = frames@.map_values(|f: Vec<u8>| f@);
            assert(fr1.drop_last() =~= fr0);
            assert forall|i: int| 0 <= i < k + 1 implies batch_frame_ok(pats, ms[i], #[trigger] frames@[i]@) by {
                if i < k {
                    assert(frames@[i] == fv0[i]);
                } else {
                    assert(ms[i] == msg@);
                    assert(frames@[i]@ == framed@);
                }
            }
            assert(framed@ == mode_frame(Mode::Auto, c_now));
        }
        k = k + 1;
    }
    let mode_used = if wins > messages.len() / 2 { "codon" } else { "deflate" };
    proof {
        assert(ms.take(k as int) =~= ms);
        assert(batch_dict(ms, ents));
        assert(batch_frames(pats, ms, frames@.map_values(|f: Vec<u8>| f@)));
    }
    (
        frames,
        PipelineStats {
            input_bytes: total_input,
            tokenized_bytes: total_tokenized,
            compressed_bytes: total_framed,
            framed_bytes: total_framed,
            mode_used,
        },
    )
}

/// Every frame of a batch decompresses to its message, when the frame's
/// payload fits its 32-bit length field.
pub proof fn lemma_batch_roundtrip(ms: Seq<Seq<u8>>, ents: Seq<DictEntry>, frames: Seq<Seq<u8>>, i: int)
    requires
        batch_dict(ms, ents),
        batch_frames(entry_bytes(ents), ms, frames),
        concat_all(ms).len() <= u32::MAX,
        0 <= i < ms.len(),
        frames[i].len() <= u32::MAX + FRAME_OVERHEAD,
    ensures
        pipeline_decoded(frames[i]) == Some(ms[i]),
{
    let pats = entry_bytes(ents);
    let msg = ms[i];
    let c = batch_container(pats, msg);
    assert(batch_frame_ok(pats, ms[i], frames[i]));
    lemma_msg_len(ms, i);
    assert(pats.len() <= 200) by {
        if concat_all(ms).len() == 0 {
        }
    }
    assert forall|k: int| 0 <= k < (pats + Seq::<Seq<u8>>::empty()).len() implies (#[trigger] (pats + Seq::<Seq<u8>>::empty())[k]).len() <= 255 by {
        assert((pats + Seq::<Seq<u8>>::empty())[k] == ents[k].bytes@);
    }
    assert(pats + Seq::<Seq<u8>>::empty() =~= pats);
    assert(crate::tokenizer::encoding_with(msg, pats, Seq::empty(), c));
    crate::tokenizer::lemma_container_roundtrip(msg, pats, Seq::empty(), c);
    assert(FLAG_CODON_ONLY & FLAG_ANS_O1 == 0 && FLAG_CODON_ONLY & FLAG_COMPRESSION == 0) by (bit_vector);
    assert(FLAG_COMPRESSION & FLAG_ANS_O1 == 0 && FLAG_COMPRESSION & FLAG_COMPRESSION != 0) by (bit_vector);
    if frames[i] == codon_frame(c) {
        lemma_frame_len(FLAG_CODON_ONLY, c);
        lemma_frame_roundtrip(FLAG_CODON_ONLY, c);
    } else {
        lemma_frame_len(FLAG_COMPRESSION, deflate_spec(c));
        lemma_frame_roundtrip(FLAG_COMPRESSION, deflate_spec(c));
    }
}

proof fn lemma_msg_len(ms: Seq<Seq<u8>>, i: int)
    requires
        0 <= i < ms.len(),
    ensures
        ms[i].len() <= concat_all(ms).len(),
    decreases ms.len(),
{
    if i < ms.len() - 1 {
        lemma_msg_len(ms.drop_last(), i);
    }
}

} // verus!
