//! The sidecar protocol's decisions: a request is an op byte and a payload;
//! the state holds one global sliding window and the running totals. Each
//! request gives an action: a reply to send, window statistics to report,
//! or a snapshot to save or load, which the caller performs.

use vstd::prelude::*;
use crate::bytes::{le32_bytes, le32_value};
use crate::pipeline::{pipeline_compressed, pipeline_decoded, Mode};
use crate::pipeline::inflate_spec;
use crate::tokenizer::sliding_v2::{exported_as, fed, feedable, lifted_entries, triples_view, v2_frame, SlidingTokenizerV2};

verus! {

pub const OP_COMPRESS: u8 = 0x01;
pub const OP_DECOMPRESS: u8 = 0x02;
pub const OP_GN_COMPRESS: u8 = 0x03;
pub const OP_STATS: u8 = 0x04;
pub const OP_BATCH: u8 = 0x05;
pub const OP_PRESSURIZED: u8 = 0x06;
pub const OP_SAVE: u8 = 0x07;
pub const OP_LOAD: u8 = 0x08;

/// What a request asks of the caller.
pub enum SidecarAction {
    /// Send these bytes back.
    Reply(Vec<u8>),
    /// Report the window's entry and batch counts and the running totals.
    Stats { entries: usize, batches: u64, compress_calls: u64, total_input: u64, total_output: u64 },
    /// Save these entries to the snapshot file named by `path`.
    SaveSnapshot { path: Vec<u8>, entries: Vec<(Vec<u8>, u64, u64)> },
    /// Load the snapshot file named by `path` and pass its entries to
    /// `SidecarState::import_snapshot`.
    LoadSnapshot { path: Vec<u8> },
}

/// The chunks of a batch payload: each a u32 little-endian length and its
/// bytes, up to the first that runs past the end.
pub open spec fn batch_chunks(data: Seq<u8>, pos: int) -> Seq<Seq<u8>>
    decreases data.len() - pos,
{
    if pos < 0 || pos + 4 > data.len() {
        Seq::empty()
    } else {
        let n = le32_value(data.subrange(pos, pos + 4)) as int;
        let p = pos + 4;
        if p + n > data.len() {
            Seq::empty()
        } else {
            seq![data.subrange(p, p + n)] + batch_chunks(data, p + n)
        }
    }
}

/// Replies framed as a batch: each a u32 little-endian length and its
/// bytes.
pub open spec fn batch_frame(rs: Seq<Seq<u8>>) -> Seq<u8>
    decreases rs.len(),
{
    if rs.len() == 0 {
        Seq::empty()
    } else {
        batch_frame(rs.drop_last()) + le32_bytes(rs.last().len() as u32) + rs.last()
    }
}

/// The warm-up windows of a pressurized payload from position `pos`, at
/// most `k` of them, and the position after them.
pub open spec fn warmup_windows(data: Seq<u8>, pos: int, k: nat) -> (Seq<Seq<u8>>, int)
    decreases k,
{
    if k == 0 || pos < 0 || pos + 4 > data.len() {
        (Seq::empty(), pos)
    } else {
        let n = le32_value(data.subrange(pos, pos + 4)) as int;
        let p = pos + 4;
        if p + n > data.len() {
            (Seq::empty(), pos)
        } else {
            let rest = warmup_windows(data, p + n, (k - 1) as nat);
            (seq![data.subrange(p, p + n)] + rest.0, rest.1)
        }
    }
}

/// The target of a pressurized payload: the window count byte, that many
/// warm-up windows (fewer when one runs past the end), then the target
/// with its u32 little-endian length; `None` when it runs past the end.
pub open spec fn pressurized_target(data: Seq<u8>) -> Option<Seq<u8>> {
    if data.len() == 0 {
        None
    } else {
        let pos = warmup_windows(data, 1, data[0] as nat).1;
        if pos + 4 > data.len() {
            None
        } else {
            let n = le32_value(data.subrange(pos, pos + 4)) as int;
            if pos + 4 + n > data.len() { None } else { Some(data.subrange(pos + 4, pos + 4 + n)) }
        }
    }
}

/// A running total after adding past 2^64.
pub open spec fn wrap64(x: int) -> u64 {
    (x % 0x1_0000_0000_0000_0000) as u64
}

/// A compressed reply: the window's frame of the data after encoding it,
/// or a shorter DEFLATE stream of that frame.
pub open spec fn compressed_reply(t: SlidingTokenizerV2, data: Seq<u8>, r: Seq<u8>) -> bool {
    let frame = v2_frame(t.version(), data, t.window_view(), t.cached_view());
    r == frame || (r.len() < frame.len() && inflate_spec(r) == Some(frame))
}

/// Chunk `chunk` taken by window `t0`, leaving `t1`, with reply `r`.
pub open spec fn chunk_step(t0: SlidingTokenizerV2, chunk: Seq<u8>, t1: SlidingTokenizerV2, r: Seq<u8>) -> bool {
    &&& feedable(t0, chunk.len())
    &&& fed(t0, chunk, t1)
    &&& compressed_reply(t1, chunk, r)
}

/// The replies `rs` so far, one for each of the first chunks, each taken
/// by the window the one before it left.
pub open spec fn run_ok(chunks: Seq<Seq<u8>>, states: Seq<SlidingTokenizerV2>, rs: Seq<Seq<u8>>) -> bool {
    &&& rs.len() <= chunks.len()
    &&& states.len() == rs.len() + 1
    &&& forall|i: int| 0 <= i < rs.len() ==> #[trigger] chunk_step(states[i], chunks[i], states[i + 1], rs[i])
}

/// A batch run: the chunks are compressed in turn, with `states` the
/// windows between them, up to the first one the window cannot take
/// (`rs` holds one reply per chunk taken).
pub open spec fn batch_run(chunks: Seq<Seq<u8>>, states: Seq<SlidingTokenizerV2>, rs: Seq<Seq<u8>>) -> bool {
    &&& run_ok(chunks, states, rs)
    &&& rs.len() < chunks.len() ==> !feedable(states.last(), chunks[rs.len() as int].len())
}

/// `states` are the windows while `ws` are fed in order: each next one
/// follows from the one before by one window of bytes.
pub open spec fn feed_chain(ws: Seq<Seq<u8>>, states: Seq<SlidingTokenizerV2>) -> bool {
    &&& states.len() == ws.len() + 1
    &&& forall|i: int| 0 <= i < ws.len() ==> #[trigger] fed(states[i], ws[i], states[i + 1])
}

pub struct SidecarState {
    slider: SlidingTokenizerV2,
    compress_calls: u64,
    total_input: u64,
    total_output: u64,
}

impl SidecarState {
    /// The global window.
    pub closed spec fn window(&self) -> SlidingTokenizerV2 {
        self.slider
    }

    /// Compress calls, input bytes and output bytes so far (each wrapping
    /// at 2^64).
    pub closed spec fn totals(&self) -> (u64, u64, u64) {
        (self.compress_calls, self.total_input, self.total_output)
    }

    pub closed spec fn wf(&self) -> bool {
        &&& self.slider.wf()
        &&& self.slider.stale() || self.slider.has_index()
    }

    /// A state whose window is seeded with the bundled static dictionary.
    pub fn new() -> (s: Self)
        ensures
            s.wf(),
            s.totals() == (0u64, 0u64, 0u64),
            s.window().batches() == 0,
            s.window().version() == 1,
    {
        let static_entries = crate::static_dict::load_static_dict();
        SidecarState { slider: SlidingTokenizerV2::new_with_static(static_entries), compress_calls: 0, total_input: 0, total_output: 0 }
    }

    /// Replace the window by loaded snapshot entries (version 1); the
    /// reply names how many were loaded.
    pub fn import_snapshot(&mut self, entries: Vec<(Vec<u8>, u64, u64)>) -> (reply: Vec<u8>)
        requires
            old(self).wf(),
        ensures
            final(self).wf(),
            final(self).totals() == old(self).totals(),
            entries@.len() <= crate::tokenizer::sliding_v2::WINDOW_LIMIT ==> {
                &&& final(self).window().window_view() == crate::tokenizer::sliding_v2::imported_window(
                    triples_view(entries@), old(self).window().batches())
                &&& final(self).window().version() == 1
            },
            entries@.len() > crate::tokenizer::sliding_v2::WINDOW_LIMIT ==> *final(self) == *old(self),
    {
        let n = entries.len();
        if n > crate::tokenizer::sliding_v2::WINDOW_LIMIT {
            return loaded_message(0);
        }
        self.slider.import_dict(1, entries);
        loaded_message(n)
    }

    /// Encode with the window, then deflate when that is shorter.
    fn compress_chunk(&mut self, data: &[u8]) -> (r: Option<Vec<u8>>)
        requires
            old(self).wf(),
        ensures
            final(self).wf(),
            r is Some <==> feedable(old(self).window(), data@.len()),
            fed(old(self).window(), data@, final(self).window()),
            match r {
                Some(c) => {
                    &&& compressed_reply(final(self).window(), data@, c@)
                    &&& final(self).window().batches() == old(self).window().batches() + 1
                    &&& final(self).totals() == (wrap64(old(self).totals().0 + 1), wrap64(old(self).totals().1 + data@.len()),
                        wrap64(old(self).totals().2 + c@.len()))
                },
                None => *final(self) == *old(self),
            },
    {
        let tokenized = match self.encode_window(data) {
            Some(t) => t,
            None => return None,
        };
        let mut comp = crate::tokenizer::lz77_gn::default_compressor();
        let compressed = crate::tokenizer::lz77_gn::deflate_if_smaller(&mut comp, tokenized);
        self.compress_calls = self.compress_calls.wrapping_add(1);
        self.total_input = self.total_input.wrapping_add(data.len() as u64);
        self.total_output = self.total_output.wrapping_add(compressed.len() as u64);
        Some(compressed)
    }

    /// Encode with the window when its counters can absorb the data (and
    /// the data is short enough for the frame's length field).
    fn encode_window(&mut self, data: &[u8]) -> (r: Option<Vec<u8>>)
        requires
            old(self).wf(),
        ensures
            final(self).wf(),
            final(self).totals() == old(self).totals(),
            r is Some <==> feedable(old(self).window(), data@.len()),
            fed(old(self).window(), data@, final(self).window()),
            match r {
                Some(t) => {
                    &&& t@ == v2_frame(final(self).window().version(), data@, final(self).window().window_view(),
                        final(self).window().cached_view())
                    &&& final(self).window().batches() == old(self).window().batches() + 1
                },
                None => *final(self) == *old(self),
            },
    {
        if data.len() > 0xffff_ffff || data.len() > usize::MAX / 128 || !self.slider.counters_room(data.len()) {
            return None;
        }
        Some(self.slider.encode(data))
    }

    /// Handle one request.
    pub fn handle(&mut self, op: u8, data: &[u8]) -> (a: SidecarAction)
        requires
            old(self).wf(),
        ensures
            final(self).wf(),
            op == OP_DECOMPRESS ==> ({
                &&& *final(self) == *old(self)
                &&& a matches SidecarAction::Reply(r)
                &&& r@ == match pipeline_decoded(data@) {
                    Some(d) => d,
                    None => data@,
                }
            }),
            op == OP_GN_COMPRESS ==> ({
                &&& *final(self) == *old(self)
                &&& a matches SidecarAction::Reply(r)
                &&& data@.len() <= u32::MAX && data@.len() * 128 <= usize::MAX ==> pipeline_compressed(data@, Mode::Auto, r@)
            }),
            op == OP_STATS ==> ({
                &&& *final(self) == *old(self)
                &&& a matches SidecarAction::Stats { entries, batches, compress_calls, total_input, total_output }
                &&& entries == old(self).window().window_view().len()
                &&& batches == old(self).window().batches()
                &&& (compress_calls, total_input, total_output) == old(self).totals()
            }),
            op == OP_SAVE ==> ({
                &&& *final(self) == *old(self)
                &&& a matches SidecarAction::SaveSnapshot { path, entries }
                &&& path@ == data@
                &&& exported_as(old(self).window().window_view(), old(self).window().cached_view(), old(self).window().stale(), entries@)
            }),
            op == OP_LOAD ==> ({
                &&& *final(self) == *old(self)
                &&& a matches SidecarAction::LoadSnapshot { path }
                &&& path@ == data@
            }),
            op == OP_COMPRESS ==> ({
                &&& a matches SidecarAction::Reply(r)
                &&& fed(old(self).window(), data@, final(self).window())
                &&& if feedable(old(self).window(), data@.len()) {
                    &&& compressed_reply(final(self).window(), data@, r@)
                    &&& final(self).totals() == (wrap64(old(self).totals().0 + 1), wrap64(old(self).totals().1 + data@.len()),
                        wrap64(old(self).totals().2 + r@.len()))
                } else {
                    r@.len() == 0 && *final(self) == *old(self)
                }
            }),
            op == OP_BATCH ==> ({
                &&& a matches SidecarAction::Reply(r)
                &&& exists|states: Seq<SlidingTokenizerV2>, rs: Seq<Seq<u8>>|
                    #[trigger] batch_run(batch_chunks(data@, 0), states, rs)
                    && states[0] == old(self).window() && states.last() == final(self).window()
                    && r@ == batch_frame(rs)
            }),
            op == OP_PRESSURIZED ==> ({
                &&& a matches SidecarAction::Reply(r)
                &&& data@.len() == 0 ==> r@.len() == 0 && *final(self) == *old(self)
                &&& data@.len() > 0 ==> exists|states: Seq<SlidingTokenizerV2>|
                    #[trigger] feed_chain(warmup_windows(data@, 1, data@[0] as nat).0, states)
                    && states[0] == old(self).window()
                    && pressurized_done(data@, states.last(), old(self).totals(), final(self).window(), final(self).totals(), r@)
            }),
            op == 0 || op > OP_LOAD ==> ({
                &&& *final(self) == *old(self)
                &&& a matches SidecarAction::Reply(r)
                &&& r@.len() == 0
            }),
    {
        if op == OP_COMPRESS {
            match self.compress_chunk(data) {
                Some(c) => SidecarAction::Reply(c),
                None => SidecarAction::Reply(Vec::new()),
            }
        } else if op == OP_DECOMPRESS {
            match crate::pipeline::decompress(data) {
                Ok(d) => SidecarAction::Reply(d),
                Err(_) => SidecarAction::Reply(vstd::slice::slice_to_vec(data)),
            }
        } else if op == OP_GN_COMPRESS {
            if data.len() > 0xffff_ffff || data.len() > usize::MAX / 128 {
                SidecarAction::Reply(Vec::new())
            } else {
                SidecarAction::Reply(crate::pipeline::compress(data))
            }
        } else if op == OP_STATS {
            let (entries, batches) = self.slider.stats();
            SidecarAction::Stats {
                entries,
                batches,
                compress_calls: self.compress_calls,
                total_input: self.total_input,
                total_output: self.total_output,
            }
        } else if op == OP_BATCH {
            SidecarAction::Reply(self.batch(data))
        } else if op == OP_PRESSURIZED {
            SidecarAction::Reply(self.pressurized(data))
        } else if op == OP_SAVE {
            let (_, entries) = self.slider.export_dict();
            SidecarAction::SaveSnapshot { path: vstd::slice::slice_to_vec(data), entries }
        } else if op == OP_LOAD {
            SidecarAction::LoadSnapshot { path: vstd::slice::slice_to_vec(data) }
        } else {
            SidecarAction::Reply(Vec::new())
        }
    }

    /// Compress each chunk of a batch payload in turn, up to the first the
    /// window cannot take; the replies framed as a batch.
    fn batch(&mut self, data: &[u8]) -> (out: Vec<u8>)
        requires
            old(self).wf(),
        ensures
            final(self).wf(),
            exists|states: Seq<SlidingTokenizerV2>, rs: Seq<Seq<u8>>|
                #[trigger] batch_run(batch_chunks(data@, 0), states, rs)
                && states[0] == old(self).window() && states.last() == final(self).window()
                && out@ == batch_frame(rs),
    {
        let mut out: Vec<u8> = Vec::new();
        let ghost mut rs: Seq<Seq<u8>> = Seq::empty();
        let ghost mut taken: Seq<Seq<u8>> = Seq::empty();
        let ghost w0 = self.window();
        let ghost mut states: Seq<SlidingTokenizerV2> = seq![w0];
        let ghost mut refused = false;
        let mut pos: usize = 0;
        let mut stop = false;
        proof {
            assert(batch_chunks(data@, 0) =~= taken + batch_chunks(data@, 0));
        }
        while data.len() - pos >= 4 && !stop
            invariant
                self.wf(),
                pos <= data@.len(),
                out@ == batch_frame(rs),
                batch_chunks(data@, 0) == taken + batch_chunks(data@, pos as int),
                states.len() == rs.len() + 1,
                states[0] == w0,
                states.last() == self.window(),
                run_ok(taken, states, rs),
                !refused ==> rs.len() == taken.len(),
                refused ==> stop && rs.len() + 1 == taken.len() && !feedable(self.window(), taken[rs.len() as int].len()),
                stop && !refused ==> batch_chunks(data@, pos as int).len() == 0,
            decreases data@.len() - pos + (if stop { 0int } else { 1int }),
        {
            let chunk_len = crate::bytes::read_le32(data, pos) as usize;
            let p = pos + 4;
            if chunk_len > data.len() - p {
                stop = true;
            } else {
                let chunk = vstd::slice::slice_subrange(data, p, p + chunk_len);
                proof {
                    assert(batch_chunks(data@, pos as int) == seq![data@.subrange(p as int, p + chunk_len)]
                        + batch_chunks(data@, p + chunk_len));
                    taken = taken.push(chunk@);
                    assert(batch_chunks(data@, 0) =~= taken + batch_chunks(data@, p + chunk_len));
                }
                pos = p + chunk_len;
                let ghost tm = self.window();
                let ghost t0 = taken.drop_last();
                match self.compress_chunk(chunk) {
                    Some(c) => {
                        let ghost before = out@;
                        #[verifier::truncate]
                        let clen = c.len() as u32;
                        crate::bytes::push_le32(&mut out, clen);
                        crate::bytes::append_bytes(&mut out, c.as_slice());
                        proof {
                            let rs0 = rs;
                            let s0 = states;
                            let rs1 = rs.push(c@);
                            assert(rs1.drop_last() =~= rs);
                            assert(out@ =~= batch_frame(rs1));
                            rs = rs1;
                            states = states.push(self.window());
                            assert forall|i: int| 0 <= i < rs.len() implies #[trigger] chunk_step(states[i], taken[i], states[i + 1], rs[i]) by {
                                if i < rs0.len() {
                                    assert(states[i] == s0[i] && states[i + 1] == s0[i + 1] && rs[i] == rs0[i]);
                                    assert(taken[i] == t0[i]);
                                } else {
                                    assert(states[i] == tm && taken[i] == chunk@ && rs[i] == c@);
                                }
                            }
                        }
                    },
                    None => {
                        stop = true;
                        proof {
                            refused = true;
                            assert(taken[rs.len() as int] == chunk@);
                            assert forall|i: int| 0 <= i < rs.len() implies #[trigger] chunk_step(states[i], taken[i], states[i + 1], rs[i]) by {
                                assert(taken[i] == t0[i]);
                            }
                        }
                    },
                }
            }
        }
        proof {
            let chunks = batch_chunks(data@, 0);
            if !refused {
                assert(batch_chunks(data@, pos as int).len() == 0);
                assert(chunks =~= taken);
            } else {
                assert(chunks[rs.len() as int] == taken[rs.len() as int]);
            }
            assert forall|i: int| 0 <= i < rs.len() implies #[trigger] chunk_step(states[i], chunks[i], states[i + 1], rs[i]) by {
                assert(chunks[i] == taken[i]);
            }
            assert(batch_run(chunks, states, rs));
        }
        out
    }

    /// Feed the warm-up windows of a pressurized payload to the window,
    /// then feed it the target: the window's frame of the target when it
    /// could take it, nothing when it could not or there is no target.
    fn pressurized(&mut self, data: &[u8]) -> (out: Vec<u8>)
        requires
            old(self).wf(),
        ensures
            final(self).wf(),
            data@.len() == 0 ==> out@.len() == 0 && *final(self) == *old(self),
            data@.len() > 0 ==> exists|states: Seq<SlidingTokenizerV2>|
                #[trigger] feed_chain(warmup_windows(data@, 1, data@[0] as nat).0, states)
                && states[0] == old(self).window()
                && pressurized_done(data@, states.last(), old(self).totals(), final(self).window(), final(self).totals(), out@),
    {
        if data.len() == 0 {
            return Vec::new();
        }
        let pk = data[0] as usize;
        let mut pos: usize = 1;
        let mut i: usize = 0;
        let mut stop = false;
        let ghost totals0 = self.totals();
        let ghost w0 = self.window();
        let ghost all = warmup_windows(data@, 1, pk as nat);
        let ghost mut taken: Seq<Seq<u8>> = Seq::empty();
        let ghost mut states: Seq<SlidingTokenizerV2> = seq![w0];
        proof {
            assert(all.0 =~= taken + warmup_windows(data@, pos as int, (pk - i) as nat).0);
        }
        while i < pk && !stop
            invariant
                self.wf(),
                1 <= pos <= data@.len(),
                i <= pk,
                pk == data@[0] as nat,
                all == warmup_windows(data@, 1, pk as nat),
                stop ==> warmup_windows(data@, pos as int, (pk - i) as nat) == (Seq::<Seq<u8>>::empty(), pos as int),
                all.1 == warmup_windows(data@, pos as int, (pk - i) as nat).1,
                all.0 == taken + warmup_windows(data@, pos as int, (pk - i) as nat).0,
                states.len() == taken.len() + 1,
                states[0] == w0,
                states.last() == self.window(),
                forall|j: int| 0 <= j < taken.len() ==> #[trigger] fed(states[j], taken[j], states[j + 1]),
                self.totals() == totals0,
            decreases pk - i + (if stop { 0int } else { 1int }),
        {
            if data.len() - pos < 4 {
                stop = true;
            } else {
                let wlen = crate::bytes::read_le32(data, pos) as usize;
                let p = pos + 4;
                if wlen > data.len() - p {
                    stop = true;
                } else {
                    let w = vstd::slice::slice_subrange(data, p, p + wlen);
                    let ghost tm = self.window();
                    let _ = self.encode_window(w);
                    proof {
                        let rest = warmup_windows(data@, p + wlen, (pk - i - 1) as nat);
                        assert(warmup_windows(data@, pos as int, (pk - i) as nat) == (seq![w@] + rest.0, rest.1));
                        let t0 = taken;
                        let s0 = states;
                        taken = taken.push(w@);
                        states = states.push(self.window());
                        assert(all.0 =~= taken + rest.0);
                        assert forall|j: int| 0 <= j < taken.len() implies #[trigger] fed(states[j], taken[j], states[j + 1]) by {
                            if j < t0.len() {
                                assert(states[j] == s0[j] && states[j + 1] == s0[j + 1] && taken[j] == t0[j]);
                            } else {
                                assert(states[j] == tm && taken[j] == w@);
                            }
                        }
                    }
                    pos = p + wlen;
                    i = i + 1;
                }
            }
        }
        proof {
            if !stop {
                assert(warmup_windows(data@, pos as int, 0) == (Seq::<Seq<u8>>::empty(), pos as int));
            }
            assert(all.0 =~= taken);
            assert(feed_chain(all.0, states));
        }
        if data.len() - pos < 4 {
            return Vec::new();
        }
        let tlen = crate::bytes::read_le32(data, pos) as usize;
        let p = pos + 4;
        if tlen > data.len() - p {
            return Vec::new();
        }
        let target = vstd::slice::slice_subrange(data, p, p + tlen);
        match self.encode_window(target) {
            Some(compressed) => {
                self.compress_calls = self.compress_calls.wrapping_add(1);
                self.total_input = self.total_input.wrapping_add(target.len() as u64);
                self.total_output = self.total_output.wrapping_add(compressed.len() as u64);
                compressed
            },
            None => Vec::new(),
        }
    }
}

/// What a pressurized request leaves, from the window `t` that the warm-up
/// windows left and the totals before it: with a target, the window after
/// being fed it and, when it could take it, its frame as the reply and the
/// totals counting it; else the window and totals as they were and no
/// reply.
pub open spec fn pressurized_done(
    data: Seq<u8>,
    t: SlidingTokenizerV2,
    totals: (u64, u64, u64),
    t1: SlidingTokenizerV2,
    totals1: (u64, u64, u64),
    out: Seq<u8>,
) -> bool {
    match pressurized_target(data) {
        Some(target) => {
            &&& fed(t, target, t1)
            &&& if feedable(t, target.len()) {
                &&& out == v2_frame(t1.version(), target, t1.window_view(), t1.cached_view())
                &&& totals1 == (wrap64(totals.0 + 1), wrap64(totals.1 + target.len()), wrap64(totals.2 + out.len()))
            } else {
                out.len() == 0 && totals1 == totals
            }
        },
        None => t1 == t && totals1 == totals && out.len() == 0,
    }
}

/// The reply to a snapshot load: `format!` of the count in decimal, as
/// bytes.
#[verifier::external_body]
fn loaded_message(n: usize) -> (m: Vec<u8>)
    ensures
        m@ == crate::text::ascii_bytes("loaded "@ + crate::text::decimal(n as nat) + " entries"@),
{
    format!("loaded {} entries", n).into_bytes()
}

} // verus!
