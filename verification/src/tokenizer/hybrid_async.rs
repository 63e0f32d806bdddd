//! A hybrid encoder whose vocabulary is a published snapshot: chunks are
//! tokenized against the current snapshot, the sliding window learns from
//! every fourth chunk, and the snapshot is rebuilt from the window every
//! 50 chunks at first (while fewer than 100 were seen), then every 100.

use vstd::prelude::*;
use std::sync::Arc;
use crate::tokenizer::dictionary::{entry_bytes, entry_view, entry_views, DictEntry};
use crate::tokenizer::lz77_gn::{gn_from, GNPrefixTokenizer, PrefixIndex};
use crate::tokenizer::sliding::EntryView;
use crate::tokenizer::sliding_v2::{exported_as, lifted_entries, merged_v2, SlidingTokenizerV2};
use crate::tokenizer::ranked;

verus! {

/// A published vocabulary: its index, the generation it was built in and
/// its number of entries.
pub struct VocabSnapshot {
    pub index: PrefixIndex<4>,
    pub generation: u64,
    pub entry_count: usize,
}

/// The window after folding in a chunk's dictionary, as
/// `SlidingTokenizerV2::ingest_fast` does it.
pub open spec fn ingested(t0: SlidingTokenizerV2, buf: Seq<u8>, t1: SlidingTokenizerV2) -> bool {
    &&& t1.wf()
    &&& t1.batches() == t0.batches() + 1
    &&& t1.cached_view() == t0.cached_view()
    &&& t1.has_index() == t0.has_index()
    &&& exists|bv: Seq<EntryView>|
        #[trigger] crate::tokenizer::sliding::batch_ok(buf, bv) && ({
            let m = merged_v2(t0.window_view(), t0.index_map(), bv, t0.batches());
            &&& t1.window_view() == m.0
            &&& t1.index_map() == m.1
        })
}

/// The rebuild interval after `total` chunks.
pub open spec fn rebuild_every(total: nat) -> nat {
    if total < 100 { 50 } else { 100 }
}

pub struct HybridAsyncEncoder {
    vocab: Arc<VocabSnapshot>,
    window: SlidingTokenizerV2,
    compressor: libdeflater::Compressor,
    chunks_since_rebuild: u64,
    total_chunks: u64,
    generation: u64,
}

impl HybridAsyncEncoder {
    /// The published vocabulary's patterns.
    pub closed spec fn vocab_patterns(&self) -> Seq<Seq<u8>> {
        self.vocab.index.entries_view()
    }

    /// The published vocabulary's generation and entry count.
    pub closed spec fn vocab_info(&self) -> (u64, usize) {
        (self.vocab.generation, self.vocab.entry_count)
    }

    pub closed spec fn window_state(&self) -> SlidingTokenizerV2 {
        self.window
    }

    /// Chunks since the last rebuild, chunks in all, and rebuilds.
    pub closed spec fn counters(&self) -> (nat, nat, nat) {
        (self.chunks_since_rebuild as nat, self.total_chunks as nat, self.generation as nat)
    }

    pub closed spec fn wf(&self) -> bool {
        &&& self.vocab.index.wf()
        &&& self.window.wf()
        &&& self.chunks_since_rebuild < 100
    }

    /// An encoder whose window and vocabulary start from the bundled
    /// static dictionary, generation 0.
    pub fn new() -> (e: Self)
        ensures
            e.wf(),
            e.counters() == (0nat, 0nat, 0nat),
            e.vocab_info().0 == 0,
            e.vocab_patterns() == static_patterns(),
            e.vocab_info().1 == static_patterns().len(),
            e.window_state().batches() == 0,
            e.window_state().version() == 1,
    {
        let static_entries = crate::static_dict::load_static_dict();
        proof {
            assert(crate::static_dict::dict_spec(Seq::<u8>::empty()) is Err);
            assert(crate::static_dict::dict_view(static_entries@).len() == 0);
        }
        let dict = lift_entries(&static_entries);
        let n = dict.len();
        proof {
            assert(static_entries@.len() == crate::static_dict::dict_view(static_entries@).len());
            assert(entry_views(dict@).len() == dict@.len());
            assert(lifted_entries(static_entries@).len() == static_entries@.len());
        }
        let index = PrefixIndex::<4>::build(dict.as_slice());
        proof {
            crate::tokenizer::lemma_entry_bytes_views(dict@);
            assert(entry_bytes(dict@) =~= static_patterns());
        }
        let window = SlidingTokenizerV2::new_with_static(static_entries);
        HybridAsyncEncoder {
            vocab: Arc::new(VocabSnapshot { index, generation: 0, entry_count: n }),
            window,
            compressor: crate::tokenizer::lz77_gn::default_compressor(),
            chunks_since_rebuild: 0,
            total_chunks: 0,
            generation: 0,
        }
    }

    fn rebuild_interval(&self) -> (r: u64)
        ensures
            r == rebuild_every(self.total_chunks as nat),
    {
        if self.total_chunks < 100 { 50 } else { 100 }
    }

    /// Publish a vocabulary built from the window's dictionary, largest
    /// saving first, as the next generation.
    fn rebuild_vocab(&mut self)
        requires
            old(self).vocab.index.wf(),
            old(self).window.wf(),
            old(self).generation < u64::MAX,
        ensures
            final(self).wf(),
            final(self).window == old(self).window,
            final(self).total_chunks == old(self).total_chunks,
            final(self).chunks_since_rebuild == 0,
            final(self).generation == old(self).generation + 1,
            rebuilt_from(old(self).window, (old(self).generation + 1) as u64, final(self).vocab_patterns(), final(self).vocab_info()),
    {
        let (_, raw) = self.window.export_dict();
        proof {
            crate::tokenizer::sliding_v2::lemma_export_bounded(self.window, raw@);
        }
        let lifted = lift_entries(&raw);
        let dict = crate::tokenizer::rank_by_saving(&lifted, lifted.len());
        self.generation = self.generation + 1;
        let n = dict.len();
        proof {
            assert(dict@.len() <= 0x2000_0000) by {
                let perm = choose|perm: Seq<int>| #[trigger] crate::tokenizer::ranked_by(entry_views(lifted@), entry_views(dict@), lifted@.len() as nat, perm);
            }
        }
        let index = PrefixIndex::<4>::build(dict.as_slice());
        self.vocab = Arc::new(VocabSnapshot { index, generation: self.generation, entry_count: n });
        self.chunks_since_rebuild = 0;
        proof {
            crate::tokenizer::lemma_entry_bytes_views(dict@);
            assert(entry_bytes_of(entry_views(dict@)) =~= crate::tokenizer::views_bytes(entry_views(dict@)));
            assert(exported_as(old(self).window.window_view(), old(self).window.cached_view(), old(self).window.stale(), raw@));
        }
    }

    /// Encode one chunk: learn from it when it is every fourth chunk (and
    /// the window's counters can absorb it), rebuild the vocabulary when
    /// the interval has passed, tokenize against the published vocabulary
    /// and keep the deflated tokens when they are shorter.
    pub fn encode(&mut self, buf: &[u8]) -> (out: Vec<u8>)
        requires
            old(self).wf(),
            old(self).counters().1 < u64::MAX,
            old(self).counters().2 < u64::MAX,
            buf@.len() <= u32::MAX,
            buf@.len() * 128 <= usize::MAX,
        ensures
            final(self).wf(),
            final(self).counters().1 == old(self).counters().1 + 1,
            ({
                let total = old(self).counters().1 + 1;
                let learn = total % 4 == 0 && old(self).window_state().counters_fit(buf@.len());
                &&& learn ==> ingested(old(self).window_state(), buf@, final(self).window_state())
                &&& !learn ==> final(self).window_state() == old(self).window_state()
            }),
            ({
                let since = old(self).counters().0 + 1;
                if since >= rebuild_every(old(self).counters().1 + 1) {
                    &&& final(self).counters().0 == 0
                    &&& final(self).counters().2 == old(self).counters().2 + 1
                    &&& rebuilt_from(final(self).window_state(), (old(self).counters().2 + 1) as u64,
                        final(self).vocab_patterns(), final(self).vocab_info())
                } else {
                    &&& final(self).counters().0 == since
                    &&& final(self).counters().2 == old(self).counters().2
                    &&& final(self).vocab_patterns() == old(self).vocab_patterns()
                    &&& final(self).vocab_info() == old(self).vocab_info()
                }
            }),
            ({
                let tokens = gn_from(4, final(self).vocab_patterns(), buf@, 0, true);
                out@ == tokens || (out@.len() < tokens.len() && crate::pipeline::inflate_spec(out@) == Some(tokens))
            }),
    {
        self.total_chunks = self.total_chunks + 1;
        self.chunks_since_rebuild = self.chunks_since_rebuild + 1;
        if self.total_chunks % 4 == 0 && self.window.counters_room(buf.len()) {
            self.window.ingest_fast(buf);
        }
        if self.chunks_since_rebuild >= self.rebuild_interval() {
            self.rebuild_vocab();
        }
        let tokenized = GNPrefixTokenizer::<4>::tokenize_with_index(buf, &self.vocab.index, true);
        crate::tokenizer::lz77_gn::deflate_if_smaller(&mut self.compressor, tokenized)
    }

    /// Rebuild the vocabulary when the interval has passed.
    pub fn maybe_rebuild(&mut self)
        requires
            old(self).wf(),
            old(self).counters().2 < u64::MAX,
        ensures
            final(self).wf(),
            final(self).window_state() == old(self).window_state(),
            final(self).counters().1 == old(self).counters().1,
            if old(self).counters().0 >= rebuild_every(old(self).counters().1) {
                &&& final(self).counters().0 == 0
                &&& final(self).counters().2 == old(self).counters().2 + 1
                &&& rebuilt_from(old(self).window_state(), (old(self).counters().2 + 1) as u64,
                    final(self).vocab_patterns(), final(self).vocab_info())
            } else {
                *final(self) == *old(self)
            },
    {
        if self.chunks_since_rebuild >= self.rebuild_interval() {
            self.rebuild_vocab();
        }
    }

    /// The window's entry and batch counts and the number of rebuilds.
    pub fn stats(&self) -> (r: (usize, u64, u64))
        ensures
            r.0 == self.window_state().window_view().len(),
            r.1 == self.window_state().batches(),
            r.2 == self.counters().2,
    {
        let (entries, batches) = self.window.stats();
        (entries, batches, self.generation)
    }
}

/// The patterns of the bundled static dictionary (none when it does not
/// parse).
pub open spec fn static_patterns() -> Seq<Seq<u8>> {
    let es = match crate::static_dict::dict_spec(Seq::empty()) {
        Ok(es) => es,
        Err(_) => Seq::empty(),
    };
    es.map_values(|e: (Seq<u8>, u64, u64)| e.0)
}

/// The byte strings of entry values.
pub open spec fn entry_bytes_of(es: Seq<EntryView>) -> Seq<Seq<u8>> {
    es.map_values(|e: EntryView| e.0)
}

/// `patterns` and `info` are a vocabulary of generation `generation`
/// built from the window's exported dictionary, largest saving first.
pub open spec fn rebuilt_from(window: SlidingTokenizerV2, generation: u64, patterns: Seq<Seq<u8>>, info: (u64, usize)) -> bool {
    exists|raw: Seq<(Vec<u8>, u64, u64)>, sorted: Seq<EntryView>|
        exported_as(window.window_view(), window.cached_view(), window.stale(), raw)
        && #[trigger] ranked(lifted_entries(raw), sorted, raw.len() as nat)
        && patterns == entry_bytes_of(sorted)
        && info == (generation, sorted.len() as usize)
}

/// Exported triples as dictionary entries.
fn lift_entries(raw: &Vec<(Vec<u8>, u64, u64)>) -> (r: Vec<DictEntry>)
    ensures
        entry_views(r@) == lifted_entries(raw@),
{
    let mut r: Vec<DictEntry> = Vec::new();
    let mut k: usize = 0;
    while k < raw.len()
        invariant
            k <= raw@.len(),
            entry_views(r@) == lifted_entries(raw@).take(k as int),
        decreases raw@.len() - k,
    {
        let e = DictEntry { bytes: vstd::slice::slice_to_vec(raw[k].0.as_slice()), freq: raw[k].1 as usize, saving: raw[k].2 as usize };
        let ghost before = r@;
        r.push(e);
        proof {
            assert(entry_views(r@) =~= entry_views(before).push(entry_view(e)));
            assert(lifted_entries(raw@).take(k + 1) =~= lifted_entries(raw@).take(k as int).push(lifted_entries(raw@)[k as int]));
        }
        k = k + 1;
    }
    proof {
        assert(lifted_entries(raw@).take(raw@.len() as int) =~= lifted_entries(raw@));
    }
    r
}

impl Default for HybridAsyncEncoder {
    fn default() -> (e: Self)
        ensures
            e.wf(),
            e.counters() == (0nat, 0nat, 0nat),
    {
        Self::new()
    }
}

} // verus!
