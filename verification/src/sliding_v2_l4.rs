//! A sliding-window tokenizer that keeps a compressed snapshot of its
//! dictionary, re-taken every RECOMPRESS_INTERVAL batches with the pipeline
//! itself, and can be restored from such a snapshot.

use vstd::prelude::*;
use vstd::slice::slice_to_vec;
use crate::level4::{window_records, window_view};
use crate::pipeline::{pipeline_compressed, pipeline_decoded, Mode};
use crate::tokenizer::sliding_v2::{
    exported_as, imported_index, imported_window, triples_view, v2_frame, v2_step, SlidingTokenizerV2,
    WINDOW_LIMIT,
};
use crate::tokenizer::sliding::{EntryView, WindowView};

verus! {

/// The entries a snapshot restores: those its decompressed records hold,
/// the first WINDOW_LIMIT of them at most.
pub open spec fn restored_entries(snapshot: Seq<u8>) -> Seq<(Seq<u8>, nat, nat)> {
    let d = match pipeline_decoded(snapshot) {
        Some(d) => crate::level4::window_parse(d, 0),
        None => Seq::empty(),
    };
    let kept = if d.len() <= WINDOW_LIMIT { d } else { d.take(WINDOW_LIMIT as int) };
    kept.map_values(|e: (Seq<u8>, u64, u64)| (e.0, e.1 as nat, e.2 as nat))
}

/// Re-take the snapshot after this many batches.
pub const RECOMPRESS_INTERVAL: u64 = 50;

/// The serialized entries fit a pipeline frame.
pub open spec fn records_fit(es: Seq<(Vec<u8>, u64, u64)>) -> bool {
    let n = window_records(window_view(es)).len();
    n <= u32::MAX && n * 128 <= usize::MAX
}

/// The snapshot bookkeeping after a batch that brought the batch count to
/// `bc`: before RECOMPRESS_INTERVAL batches have passed since the last
/// snapshot nothing changes; after that a non-empty exported dictionary
/// that fits a frame is compressed into the new snapshot.
pub open spec fn snapshot_step(
    win: Seq<WindowView>, cached: Seq<EntryView>, stale: bool, bc: nat,
    last0: nat, snap0: Option<Seq<u8>>, last1: nat, snap1: Option<Seq<u8>>,
) -> bool {
    if bc < last0 + RECOMPRESS_INTERVAL {
        last1 == last0 && snap1 == snap0
    } else {
        exists|es: Seq<(Vec<u8>, u64, u64)>| #[trigger] exported_as(win, cached, stale, es) && if es.len() > 0 && records_fit(es) {
            &&& last1 == bc
            &&& snap1 matches Some(s) && pipeline_compressed(window_records(window_view(es)), Mode::Auto, s)
        } else {
            last1 == last0 && snap1 == snap0
        }
    }
}

pub struct SlidingTokenizerL4 {
    inner: SlidingTokenizerV2,
    compressed_snapshot: Option<Vec<u8>>,
    last_compress_batch: u64,
}

impl SlidingTokenizerL4 {
    /// The underlying sliding-window tokenizer.
    pub closed spec fn tokenizer(&self) -> SlidingTokenizerV2 {
        self.inner
    }

    /// The compressed snapshot, if one was taken.
    pub closed spec fn snapshot_view(&self) -> Option<Seq<u8>> {
        match self.compressed_snapshot {
            Some(v) => Some(v@),
            None => None,
        }
    }

    /// The batch count when the snapshot was last taken.
    pub closed spec fn last_snapshot(&self) -> nat {
        self.last_compress_batch as nat
    }

    pub closed spec fn wf(&self) -> bool {
        &&& self.inner.wf()
        &&& self.inner.stale() || self.inner.has_index()
        &&& self.last_compress_batch <= self.inner.batches()
    }

    pub fn new() -> (t: Self)
        ensures
            t.wf(),
            t.tokenizer().window_view() == Seq::<WindowView>::empty(),
            t.tokenizer().batches() == 0,
            t.tokenizer().version() == 0,
            t.snapshot_view() is None,
            t.last_snapshot() == 0,
    {
        SlidingTokenizerL4 { inner: SlidingTokenizerV2::new(), compressed_snapshot: None, last_compress_batch: 0 }
    }

    /// A tokenizer seeded with a static dictionary, as
    /// `SlidingTokenizerV2::new_with_static` seeds one.
    pub fn new_with_static(entries: Vec<(Vec<u8>, u64, u64)>) -> (t: Self)
        ensures
            t.wf(),
            t.tokenizer().window_view() == imported_window(
                crate::tokenizer::sliding_v2::static_entries(triples_view(entries@)), 0),
            t.tokenizer().version() == 1,
            t.tokenizer().batches() == 0,
            t.snapshot_view() is None,
            t.last_snapshot() == 0,
    {
        SlidingTokenizerL4 { inner: SlidingTokenizerV2::new_with_static(entries), compressed_snapshot: None, last_compress_batch: 0 }
    }

    /// Encode a buffer with the sliding window, then re-take the snapshot
    /// when RECOMPRESS_INTERVAL batches have passed since the last one.
    pub fn encode(&mut self, buf: &[u8]) -> (out: Vec<u8>)
        requires
            old(self).wf(),
            old(self).tokenizer().counters_fit(buf@.len()),
            buf@.len() <= u32::MAX,
            buf@.len() * 128 <= usize::MAX,
        ensures
            final(self).wf(),
            final(self).tokenizer().batches() == old(self).tokenizer().batches() + 1,
            exists|bv: Seq<EntryView>|
                #[trigger] crate::tokenizer::sliding::batch_ok(buf@, bv) && v2_step(
                    old(self).tokenizer().window_view(), old(self).tokenizer().index_map(), old(self).tokenizer().version(),
                    old(self).tokenizer().cached_view(), old(self).tokenizer().stale(), old(self).tokenizer().ac_stale(),
                    old(self).tokenizer().ac_patterns(), old(self).tokenizer().batches() + 1, bv,
                    final(self).tokenizer().window_view(), final(self).tokenizer().index_map(), final(self).tokenizer().version(),
                    final(self).tokenizer().cached_view(), final(self).tokenizer().stale(), final(self).tokenizer().ac_stale(),
                    final(self).tokenizer().ac_patterns(),
                ),
            out@ == v2_frame(final(self).tokenizer().version(), buf@, final(self).tokenizer().window_view(),
                final(self).tokenizer().cached_view()),
            snapshot_step(final(self).tokenizer().window_view(), final(self).tokenizer().cached_view(),
                final(self).tokenizer().stale(), final(self).tokenizer().batches(), old(self).last_snapshot(),
                old(self).snapshot_view(), final(self).last_snapshot(), final(self).snapshot_view()),
    {
        let result = self.inner.encode(buf);
        let (_, batch_count) = self.inner.stats();
        if batch_count - self.last_compress_batch >= RECOMPRESS_INTERVAL {
            let (_, entries) = self.inner.export_dict();
            let ghost es = entries@;
            if entries.len() > 0 {
                let serialized = crate::level4::serialize_entries(entries.as_slice());
                if serialized.len() <= 0xffff_ffffusize && serialized.len() <= usize::MAX / 128 {
                    self.compressed_snapshot = Some(crate::pipeline::compress(serialized.as_slice()));
                    self.last_compress_batch = batch_count;
                }
            }
            proof {
                assert(exported_as(self.inner.window_view(), self.inner.cached_view(), self.inner.stale(), es));
            }
        }
        result
    }

    /// The number of window entries and of batches seen.
    pub fn stats(&self) -> (r: (usize, u64))
        ensures
            r.0 == self.tokenizer().window_view().len(),
            r.1 == self.tokenizer().batches(),
    {
        self.inner.stats()
    }

    /// The snapshot's length, 0 when none was taken.
    pub fn snapshot_size(&self) -> (n: usize)
        ensures
            n == match self.snapshot_view() {
                Some(s) => s.len(),
                None => 0,
            },
    {
        match &self.compressed_snapshot {
            Some(s) => s.len(),
            None => 0,
        }
    }

    /// The dictionary version and the dictionary in use.
    pub fn export_dict(&self) -> (r: (u32, Vec<(Vec<u8>, u64, u64)>))
        ensures
            r.0 == self.tokenizer().version(),
            exported_as(self.tokenizer().window_view(), self.tokenizer().cached_view(), self.tokenizer().stale(), r.1@),
    {
        self.inner.export_dict()
    }

    /// A tokenizer whose window holds the entries a snapshot decompresses
    /// to, as version 1, keeping the snapshot.
    pub fn restore_from_snapshot(snapshot: &[u8]) -> (t: Self)
        ensures
            t.wf(),
            t.snapshot_view() == Some(snapshot@),
            t.last_snapshot() == 0,
            t.tokenizer().batches() == 0,
            t.tokenizer().version() == 1,
            t.tokenizer().window_view() == imported_window(restored_entries(snapshot@), 0),
            t.tokenizer().index_map() == imported_index(restored_entries(snapshot@)),
    {
        let mut entries = crate::level4::decompress_window(snapshot);
        let ghost full = entries@;
        if entries.len() > WINDOW_LIMIT {
            entries.truncate(WINDOW_LIMIT);
        }
        proof {
            let d = match pipeline_decoded(snapshot@) {
                Some(d) => crate::level4::window_parse(d, 0),
                None => Seq::empty(),
            };
            assert(window_view(full) == d);
            assert(triples_view(entries@) =~= restored_entries(snapshot@));
        }
        let mut tok = SlidingTokenizerL4::new();
        tok.inner.import_dict(1, entries);
        tok.compressed_snapshot = Some(slice_to_vec(snapshot));
        tok
    }

    /// The snapshot, if one was taken.
    pub fn get_snapshot(&self) -> (r: Option<&[u8]>)
        ensures
            match self.snapshot_view() {
                Some(s) => r matches Some(v) && v@ == s,
                None => r is None,
            },
    {
        match &self.compressed_snapshot {
            Some(s) => Some(s.as_slice()),
            None => None,
        }
    }
}

impl Default for SlidingTokenizerL4 {
    fn default() -> (t: Self)
        ensures
            t.wf(),
            t.tokenizer().window_view() == Seq::<WindowView>::empty(),
            t.tokenizer().batches() == 0,
            t.snapshot_view() is None,
    {
        Self::new()
    }
}

} // verus!
