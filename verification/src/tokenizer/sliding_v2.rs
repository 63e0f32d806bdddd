//! A sliding-window codon table whose dictionary is shared out of band.
//!
//! Unlike the first sliding tokenizer, frames carry no dictionary: a frame
//! is `GNSL`, the dictionary version (u32 little endian), the original
//! length (u32 little endian, saturated) and the token stream. Encoder and
//! decoder keep matching window state, or exchange it with `export_dict`
//! and `import_dict`. The window is not evicted; it saturates at
//! MAX_WINDOW_ENTRIES entries, after which new patterns replace stale
//! low-saving ones.

use vstd::prelude::*;
use vstd::slice::slice_to_vec;
use crate::tokenizer::dictionary::{DictEntry, entry_bytes, entry_views};
use crate::tokenizer::codon::{FirstByteIndex, AcIndex, encode_spec, decode_spec};
use crate::tokenizer::sliding::{WindowView, EntryView, worst_among, active_views};
use crate::tokenizer::{ranked, views_bytes};

verus! {

pub const SLIDING_MAGIC: [u8; 4] = [0x47, 0x4E, 0x53, 0x4C];
pub const MAX_WINDOW_ENTRIES: usize = 20000;
pub const EVICTION_AGE: u64 = 100;
pub const MIN_SAVING_THRESHOLD: usize = 3;

/// The most entries a window can be given in one import.
pub const WINDOW_LIMIT: usize = 0x2000_0000;

// ---------------------------------------------------------------------------
// The byte-string index
// ---------------------------------------------------------------------------

#[verifier::external_type_specification]
#[verifier::external_body]
#[verifier::reject_recursive_types(K)]
#[verifier::reject_recursive_types(V)]
#[verifier::reject_recursive_types(S)]
pub struct ExAHashMap<K, V, S>(ahash::AHashMap<K, V, S>);

#[verifier::external_type_specification]
#[verifier::external_body]
pub struct ExAHashRandomState(ahash::RandomState);

/// The map with no byte strings.
pub open spec fn empty_index() -> Map<Seq<u8>, usize> {
    Map::empty()
}

/// What an index map holds: byte strings and the window positions
/// recorded for them.
pub uninterp spec fn amap_contents(m: ahash::AHashMap<Vec<u8>, usize>) -> Map<Seq<u8>, usize>;

/// `ahash::AHashMap::new`: an empty map.
#[verifier::external_body]
fn amap_new() -> (m: ahash::AHashMap<Vec<u8>, usize>)
    ensures
        amap_contents(m) == empty_index(),
{
    ahash::AHashMap::new()
}

/// `ahash::AHashMap::get`: the value recorded for `k`, if any.
#[verifier::external_body]
fn amap_get(m: &ahash::AHashMap<Vec<u8>, usize>, k: &[u8]) -> (r: Option<usize>)
    ensures
        r == (if amap_contents(*m).dom().contains(k@) { Some(amap_contents(*m)[k@]) } else { None::<usize> }),
{
    m.get(k).copied()
}

/// `ahash::AHashMap::insert`: record `v` for `k`, replacing any value.
#[verifier::external_body]
fn amap_insert(m: &mut ahash::AHashMap<Vec<u8>, usize>, k: Vec<u8>, v: usize)
    ensures
        amap_contents(*final(m)) == amap_contents(*old(m)).insert(k@, v),
{
    m.insert(k, v);
}

/// `ahash::AHashMap::remove`: drop the value recorded for `k`, if any.
#[verifier::external_body]
fn amap_remove(m: &mut ahash::AHashMap<Vec<u8>, usize>, k: &[u8])
    ensures
        amap_contents(*final(m)) == amap_contents(*old(m)).remove(k@),
{
    m.remove(k);
}

/// `clear` of the map (through its `DerefMut` to the std map): empty it.
#[verifier::external_body]
fn amap_clear(m: &mut ahash::AHashMap<Vec<u8>, usize>)
    ensures
        amap_contents(*final(m)) == empty_index(),
{
    m.clear();
}

// ---------------------------------------------------------------------------
// Window state
// ---------------------------------------------------------------------------

/// Batches since `seen`, as of batch `bc` (zero when `seen` is later).
pub open spec fn age(bc: nat, seen: nat) -> nat {
    crate::tokenizer::sliding::age(bc, seen)
}

/// The window, the index and whether the pattern set changed after
/// merging `batch` in batch `bc`. Entries of saving below the threshold
/// are skipped; a known pattern adds its frequency and saving; a new one
/// is appended while there is room, or else replaces the worst replaceable
/// entry, whose bytes leave the index.
pub open spec fn merged_v2(win0: Seq<WindowView>, idx0: Map<Seq<u8>, usize>, batch: Seq<EntryView>, bc: nat) -> (Seq<WindowView>, Map<Seq<u8>, usize>, bool)
    decreases batch.len(),
{
    if batch.len() == 0 {
        (win0, idx0, false)
    } else {
        let prev = merged_v2(win0, idx0, batch.drop_last(), bc);
        let win = prev.0;
        let idx = prev.1;
        let e = batch.last();
        if e.2 < MIN_SAVING_THRESHOLD {
            prev
        } else if idx.dom().contains(e.0) {
            let i = idx[e.0] as int;
            (win.update(i, (win[i].0, win[i].1 + e.1, bc, win[i].3 + e.2)), idx, prev.2)
        } else if win.len() < MAX_WINDOW_ENTRIES {
            (win.push((e.0, e.1, bc, e.2)), idx.insert(e.0, win.len() as usize), true)
        } else {
            match worst_among(win, e.2, bc, win.len() as int) {
                Some(w) => (win.update(w, (e.0, e.1, bc, e.2)), idx.remove(win[w].0).insert(e.0, w as usize), true),
                None => prev,
            }
        }
    }
}

/// Every byte string in the index points at a window entry holding it.
pub open spec fn index_valid(win: Seq<WindowView>, idx: Map<Seq<u8>, usize>) -> bool {
    forall|k: Seq<u8>| #[trigger] idx.dom().contains(k) ==> idx[k] < win.len() && win[idx[k] as int].0 == k
}

#[derive(Debug, Clone)]
struct WindowEntry {
    bytes: Vec<u8>,
    cumulative_freq: u64,
    last_seen: u64,
    saving: u64,
}

spec fn wview(e: WindowEntry) -> WindowView {
    (e.bytes@, e.cumulative_freq as nat, e.last_seen as nat, e.saving as nat)
}

spec fn wviews(w: Seq<WindowEntry>) -> Seq<WindowView> {
    w.map_values(|e: WindowEntry| wview(e))
}

pub struct SlidingTokenizerV2 {
    window: Vec<WindowEntry>,
    batch_count: u64,
    dict_version: u32,
    index: ahash::AHashMap<Vec<u8>, usize>,
    cached_index: Option<FirstByteIndex>,
    cached_entries: Vec<DictEntry>,
    cached_ac: Option<AcIndex>,
    index_dirty: bool,
    ac_dirty: bool,
}

impl SlidingTokenizerV2 {
    /// The window, entry by entry.
    pub closed spec fn window_view(&self) -> Seq<WindowView> {
        wviews(self.window@)
    }

    pub closed spec fn batches(&self) -> nat {
        self.batch_count as nat
    }

    pub closed spec fn version(&self) -> u32 {
        self.dict_version
    }

    /// The index from byte strings to window positions.
    pub closed spec fn index_map(&self) -> Map<Seq<u8>, usize> {
        amap_contents(self.index)
    }

    /// The entries the cached prefix index was built from.
    pub closed spec fn cached_view(&self) -> Seq<EntryView> {
        entry_views(self.cached_entries@)
    }

    /// Whether the cached index must be rebuilt before use.
    pub closed spec fn stale(&self) -> bool {
        self.index_dirty
    }

    /// Whether the automaton must be rebuilt with the next index.
    pub closed spec fn ac_stale(&self) -> bool {
        self.ac_dirty
    }

    /// A prefix index is cached.
    pub closed spec fn has_index(&self) -> bool {
        self.cached_index is Some
    }

    /// The patterns of the cached automaton, if one is cached.
    pub closed spec fn ac_patterns(&self) -> Option<Seq<Seq<u8>>> {
        match self.cached_ac {
            Some(a) => Some(a.patterns()),
            None => None,
        }
    }

    pub closed spec fn wf(&self) -> bool {
        &&& self.window@.len() <= WINDOW_LIMIT
        &&& index_valid(self.window_view(), self.index_map())
        &&& self.cached_entries@.len() <= self.window@.len()
        &&& (self.cached_index matches Some(ix) ==> ix.wf() && ix.entries_view() == entry_bytes(self.cached_entries@))
        &&& (self.cached_ac matches Some(a) ==> a.wf())
    }

    /// The counters can absorb a batch of `n` bytes: the batch count can
    /// grow, and every cumulative frequency and saving can take the
    /// batch's additions (at most 200 entries of at most 128 per byte)
    /// within `u64`.
    pub open spec fn counters_fit(&self, n: nat) -> bool {
        &&& self.batches() < u64::MAX
        &&& forall|k: int| 0 <= k < self.window_view().len() ==> (#[trigger] self.window_view()[k]).1 + 200 * 128 * n <= u64::MAX
        &&& forall|k: int| 0 <= k < self.window_view().len() ==> (#[trigger] self.window_view()[k]).3 + 200 * 128 * n <= u64::MAX
    }

    pub fn new() -> (t: Self)
        ensures
            t.wf(),
            t.window_view() == Seq::<WindowView>::empty(),
            t.batches() == 0,
            t.version() == 0,
            t.index_map() == empty_index(),
            t.cached_view() == Seq::<EntryView>::empty(),
            t.stale() && t.ac_stale(),
            !t.has_index(),
            t.ac_patterns() is None,
    {
        let t = SlidingTokenizerV2 {
            window: Vec::new(),
            batch_count: 0,
            dict_version: 0,
            index: amap_new(),
            cached_index: None,
            cached_entries: Vec::new(),
            cached_ac: None,
            index_dirty: true,
            ac_dirty: true,
        };
        proof {
            assert(t.window_view() =~= Seq::<WindowView>::empty());
            assert(t.cached_view() =~= Seq::<EntryView>::empty());
        }
        t
    }

    pub fn dict_version(&self) -> (v: u32)
        ensures
            v == self.version(),
    {
        self.dict_version
    }

    /// Whether the counters can absorb a batch of `n` bytes.
    pub fn counters_room(&self, n: usize) -> (b: bool)
        ensures
            b == self.counters_fit(n as nat),
    {
        if self.batch_count == u64::MAX {
            return false;
        }
        let add: u128 = 25600u128 * (n as u128);
        if add > u64::MAX as u128 {
            proof {
                assert(self.window_view().len() == self.window@.len());
                if self.window@.len() > 0 {
                    assert(self.window_view()[0].1 + 200 * 128 * n > u64::MAX);
                }
            }
            return self.window.len() == 0;
        }
        let mut k: usize = 0;
        while k < self.window.len()
            invariant
                k <= self.window@.len(),
                add == 200 * 128 * n,
                add <= u64::MAX,
                forall|j: int| 0 <= j < k ==> (#[trigger] self.window_view()[j]).1 + add <= u64::MAX
                    && self.window_view()[j].3 + add <= u64::MAX,
            decreases self.window@.len() - k,
        {
            let e = &self.window[k];
            proof {
                assert(self.window_view()[k as int] == wview(self.window@[k as int]));
            }
            if e.cumulative_freq as u128 + add > u64::MAX as u128 || e.saving as u128 + add > u64::MAX as u128 {
                return false;
            }
            k = k + 1;
        }
        true
    }

    /// The number of window entries and of batches seen.
    pub fn stats(&self) -> (r: (usize, u64))
        ensures
            r.0 == self.window_view().len(),
            r.1 == self.batches(),
    {
        (self.window.len(), self.batch_count)
    }

    /// The replaceable entry of smallest saving, the first among equals.
    fn worst_entry(&self, min_value: u64) -> (r: Option<usize>)
        ensures
            match worst_among(self.window_view(), min_value as nat, self.batch_count as nat, self.window_view().len() as int) {
                Some(w) => r == Some(w as usize),
                None => r is None,
            },
    {
        let ghost wv = self.window_view();
        let bc = self.batch_count;
        let mut best: Option<usize> = None;
        let mut k: usize = 0;
        while k < self.window.len()
            invariant
                k <= self.window@.len(),
                wv == self.window_view(),
                wv.len() == self.window@.len(),
                bc == self.batch_count,
                match worst_among(wv, min_value as nat, bc as nat, k as int) {
                    Some(w) => best == Some(w as usize),
                    None => best is None,
                },
            decreases self.window@.len() - k,
        {
            let e = &self.window[k];
            proof {
                assert(wv[k as int] == wview(self.window@[k as int]));
                lemma_worst_in(wv, min_value as nat, bc as nat, k as int);
            }
            let a = if bc > e.last_seen { bc - e.last_seen } else { 0 };
            if e.saving < min_value && a > 5 {
                let better = match best {
                    None => true,
                    Some(b) => {
                        proof {
                            assert(wv[b as int] == wview(self.window@[b as int]));
                        }
                        e.saving < self.window[b].saving
                    },
                };
                if better {
                    best = Some(k);
                }
            }
            k = k + 1;
        }
        best
    }
}

proof fn lemma_worst_in(win: Seq<WindowView>, mv: nat, bc: nat, k: int)
    ensures
        worst_among(win, mv, bc, k) matches Some(w) ==> 0 <= w < k && crate::tokenizer::sliding::replaceable(win[w], mv, bc),
    decreases k,
{
    if k > 0 {
        lemma_worst_in(win, mv, bc, k - 1);
    }
}

impl SlidingTokenizerV2 {
    /// Merge a batch dictionary into the window, recording the current
    /// batch; whether the pattern set changed.
    fn update_window(&mut self, batch: &[DictEntry], Ghost(bnd): Ghost<nat>) -> (changed: bool)
        requires
            old(self).wf(),
            batch@.len() <= 200,
            200 * bnd <= u64::MAX,
            forall|k: int| 0 <= k < batch@.len() ==> (#[trigger] batch@[k]).freq <= bnd && batch@[k].saving <= bnd,
            forall|k: int| 0 <= k < old(self).window_view().len() ==> (#[trigger] old(self).window_view()[k]).1
                + 200 * bnd <= u64::MAX,
            forall|k: int| 0 <= k < old(self).window_view().len() ==> (#[trigger] old(self).window_view()[k]).3
                + 200 * bnd <= u64::MAX,
        ensures
            (final(self).window_view(), final(self).index_map(), changed) == merged_v2(old(self).window_view(),
                old(self).index_map(), entry_views(batch@), old(self).batch_count as nat),
            final(self).wf(),
            final(self).batch_count == old(self).batch_count,
            final(self).dict_version == old(self).dict_version,
            final(self).cached_entries == old(self).cached_entries,
            final(self).cached_index == old(self).cached_index,
            final(self).cached_ac == old(self).cached_ac,
            final(self).index_dirty == old(self).index_dirty,
            final(self).ac_dirty == old(self).ac_dirty,
    {
        let ghost win0 = self.window_view();
        let ghost idx0 = self.index_map();
        let ghost bv = entry_views(batch@);
        let bc = self.batch_count;
        let ghost mut slack: int = (200 * bnd) as int;
        let mut changed = false;
        proof {
            assert(bv.take(0) =~= Seq::<EntryView>::empty());
        }
        let mut k: usize = 0;
        while k < batch.len()
            invariant
                k <= batch@.len() <= 200,
                bv == entry_views(batch@),
                200 * bnd <= u64::MAX,
                slack == (200 - k) * bnd,
                0 <= slack <= 200 * bnd,
                forall|j: int| 0 <= j < batch@.len() ==> (#[trigger] batch@[j]).freq <= bnd && batch@[j].saving <= bnd,
                (wviews(self.window@), amap_contents(self.index), changed) == merged_v2(win0, idx0, bv.take(k as int), bc as nat),
                self.window@.len() <= WINDOW_LIMIT,
                index_valid(wviews(self.window@), amap_contents(self.index)),
                self.cached_entries@.len() <= self.window@.len(),
                forall|j: int| 0 <= j < self.window@.len() ==> (#[trigger] wviews(self.window@)[j]).1 + slack <= u64::MAX,
                forall|j: int| 0 <= j < self.window@.len() ==> (#[trigger] wviews(self.window@)[j]).3 + slack <= u64::MAX,
                self.batch_count == old(self).batch_count,
                bc == self.batch_count,
                self.dict_version == old(self).dict_version,
                self.cached_entries == old(self).cached_entries,
                self.cached_index == old(self).cached_index,
                self.cached_ac == old(self).cached_ac,
                self.index_dirty == old(self).index_dirty,
                self.ac_dirty == old(self).ac_dirty,
            decreases batch@.len() - k,
        {
            let e = &batch[k];
            let ghost wv = wviews(self.window@);
            let ghost im = amap_contents(self.index);
            let ghost ev = bv[k as int];
            proof {
                assert(bv.take(k + 1).drop_last() =~= bv.take(k as int));
                assert(bv.take(k + 1).last() == ev);
                assert(ev == crate::tokenizer::dictionary::entry_view(*e));
                assert((200 - (k + 1)) * bnd == (200 - k) * bnd - bnd) by (nonlinear_arith);
                assert((200 - (k + 1)) * bnd >= 0) by (nonlinear_arith)
                    requires k < 200;
                assert(bnd <= slack) by (nonlinear_arith)
                    requires slack == (200 - k) * bnd, k < 200;
            }
            if e.saving >= MIN_SAVING_THRESHOLD {
                let found = amap_get(&self.index, e.bytes.as_slice());
                match found {
                    Some(i) => {
                        proof {
                            assert(im.dom().contains(ev.0));
                            assert(wv[i as int] == wview(self.window@[i as int]));
                        }
                        let old_e = &self.window[i];
                        let ne = WindowEntry {
                            bytes: slice_to_vec(old_e.bytes.as_slice()),
                            cumulative_freq: old_e.cumulative_freq + e.freq as u64,
                            last_seen: bc,
                            saving: old_e.saving + e.saving as u64,
                        };
                        self.window.set(i, ne);
                        proof {
                            assert(wviews(self.window@) =~= wv.update(i as int, wview(ne)));
                        }
                    },
                    None => {
                        if self.window.len() < MAX_WINDOW_ENTRIES {
                            let pos = self.window.len();
                            amap_insert(&mut self.index, slice_to_vec(e.bytes.as_slice()), pos);
                            let ne = WindowEntry {
                                bytes: slice_to_vec(e.bytes.as_slice()),
                                cumulative_freq: e.freq as u64,
                                last_seen: bc,
                                saving: e.saving as u64,
                            };
                            self.window.push(ne);
                            changed = true;
                            proof {
                                assert(wviews(self.window@) =~= wv.push(wview(ne)));
                                let nw = wviews(self.window@);
                                let ni = amap_contents(self.index);
                                assert forall|key: Seq<u8>| #[trigger] ni.dom().contains(key) implies ni[key] < nw.len()
                                    && nw[ni[key] as int].0 == key by {
                                    if key != ev.0 {
                                        assert(im.dom().contains(key));
                                    }
                                }
                            }
                        } else {
                            let worst = self.worst_entry(e.saving as u64);
                            match worst {
                                Some(w) => {
                                    proof {
                                        lemma_worst_in(wv, ev.2, bc as nat, wv.len() as int);
                                        assert(wv[w as int] == wview(self.window@[w as int]));
                                    }
                                    let old_bytes = slice_to_vec(self.window[w].bytes.as_slice());
                                    amap_remove(&mut self.index, old_bytes.as_slice());
                                    amap_insert(&mut self.index, slice_to_vec(e.bytes.as_slice()), w);
                                    let ne = WindowEntry {
                                        bytes: slice_to_vec(e.bytes.as_slice()),
                                        cumulative_freq: e.freq as u64,
                                        last_seen: bc,
                                        saving: e.saving as u64,
                                    };
                                    self.window.set(w, ne);
                                    changed = true;
                                    proof {
                                        assert(wviews(self.window@) =~= wv.update(w as int, wview(ne)));
                                        let nw = wviews(self.window@);
                                        let ni = amap_contents(self.index);
                                        assert forall|key: Seq<u8>| #[trigger] ni.dom().contains(key) implies ni[key] < nw.len()
                                            && nw[ni[key] as int].0 == key by {
                                            if key != ev.0 {
                                                assert(im.dom().contains(key));
                                                assert(key != wv[w as int].0);
                                                assert(im[key] != w);
                                            }
                                        }
                                    }
                                },
                                None => {},
                            }
                        }
                    },
                }
            }
            proof {
                slack = slack - bnd;
            }
            k = k + 1;
        }
        proof {
            assert(bv.take(batch@.len() as int) =~= bv);
        }
        changed
    }
}

// ---------------------------------------------------------------------------
// Frames and the active dictionary
// ---------------------------------------------------------------------------

/// The frame magic "GNSL".
pub open spec fn sliding_magic() -> Seq<u8> {
    seq![0x47u8, 0x4Eu8, 0x53u8, 0x4Cu8]
}

/// A length as stored in a frame: saturated to `u32::MAX`.
pub open spec fn stored_len(n: nat) -> u32 {
    if n <= u32::MAX { n as u32 } else { u32::MAX }
}

/// The frame for `buf` under dictionary version `version`: the token
/// stream under the cached entries, or the bytes themselves when the
/// window is empty.
pub open spec fn v2_frame(version: u32, buf: Seq<u8>, win: Seq<WindowView>, cached: Seq<EntryView>) -> Seq<u8> {
    sliding_magic() + crate::bytes::le32_bytes(version) + crate::bytes::le32_bytes(stored_len(buf.len()))
        + if win.len() == 0 { buf } else { encode_spec(buf, views_bytes(cached)) }
}

/// The dictionary a decoder in the given state uses: the cached entries
/// when they are current, else the window ranked by saving (equally large
/// savings in any order).
pub open spec fn active_ok(win: Seq<WindowView>, cached: Seq<EntryView>, stale: bool, active: Seq<EntryView>) -> bool {
    if cached.len() > 0 && !stale {
        active == cached
    } else {
        ranked(active_views(win), active, win.len())
    }
}

/// What decoding a frame under the dictionary `active` gives: `None` when
/// the frame is shorter than its header, has another magic, or decodes to
/// another length than it states.
pub open spec fn v2_decode_spec(buf: Seq<u8>, active: Seq<EntryView>) -> Option<Seq<u8>> {
    if buf.len() < 12 || buf.take(4) != sliding_magic() {
        None
    } else {
        let n = crate::bytes::le32_value(buf.subrange(8, 12));
        let payload = buf.skip(12);
        let d = if active.len() == 0 { payload } else { decode_spec(payload, views_bytes(active)) };
        if d.len() == n { Some(d) } else { None }
    }
}

/// Decoding a frame with the dictionary it was encoded under gives the
/// buffer back, whenever the token ids of that dictionary decode to their
/// own entries (at most 256 entries) and the length was stored exactly.
pub proof fn lemma_v2_roundtrip(version: u32, buf: Seq<u8>, win: Seq<WindowView>, cached: Seq<EntryView>, stale: bool, active: Seq<EntryView>)
    requires
        buf.len() <= u32::MAX,
        cached.len() <= win.len(),
        cached.len() <= 256,
        win.len() > 0 ==> !stale,
        active_ok(win, cached, stale, active),
    ensures
        v2_decode_spec(v2_frame(version, buf, win, cached), active) == Some(buf),
{
    let f = v2_frame(version, buf, win, cached);
    let hdr = sliding_magic() + crate::bytes::le32_bytes(version) + crate::bytes::le32_bytes(stored_len(buf.len()));
    let body = if win.len() == 0 { buf } else { encode_spec(buf, views_bytes(cached)) };
    assert(f == hdr + body);
    assert(f.take(4) =~= sliding_magic());
    assert(f.subrange(8, 12) =~= crate::bytes::le32_bytes(stored_len(buf.len())));
    crate::bytes::lemma_le32_roundtrip(stored_len(buf.len()));
    assert(f.skip(12) =~= body);
    if win.len() == 0 {
        let perm = choose|perm: Seq<int>| #[trigger] crate::tokenizer::ranked_by(active_views(win), active, win.len(), perm);
        assert(active.len() == 0);
    } else if cached.len() > 0 {
        assert(active == cached);
        crate::tokenizer::codon::lemma_small_dict_ids_faithful(views_bytes(cached));
        crate::tokenizer::codon::lemma_codon_lossless(buf, views_bytes(cached));
    } else {
        let perm = choose|perm: Seq<int>| #[trigger] crate::tokenizer::ranked_by(active_views(win), active, win.len(), perm);
        assert(active.len() == win.len());
        assert(views_bytes(cached) =~= Seq::<Seq<u8>>::empty());
        crate::tokenizer::codon::lemma_encode_no_entries(buf);
        crate::tokenizer::codon::lemma_decode_escape_seq(buf, Seq::empty(), views_bytes(active));
        assert(crate::tokenizer::codon::escape_seq(buf) + Seq::<u8>::empty() =~= crate::tokenizer::codon::escape_seq(buf));
        assert(buf + Seq::<u8>::empty() =~= buf);
    }
}

impl SlidingTokenizerV2 {
    /// The window's entries as dictionary entries, ranked by saving.
    fn ranked_window(&self) -> (r: Vec<DictEntry>)
        ensures
            ranked(active_views(self.window_view()), entry_views(r@), self.window_view().len()),
    {
        let ghost wv = self.window_view();
        let mut combined: Vec<DictEntry> = Vec::new();
        let mut k: usize = 0;
        while k < self.window.len()
            invariant
                k <= self.window@.len(),
                wv == wviews(self.window@),
                entry_views(combined@) == active_views(wv).take(k as int),
            decreases self.window@.len() - k,
        {
            let e = &self.window[k];
            let d = DictEntry { bytes: slice_to_vec(e.bytes.as_slice()), freq: e.cumulative_freq as usize, saving: e.saving as usize };
            let ghost before = combined@;
            combined.push(d);
            proof {
                assert(wv[k as int] == wview(*e));
                assert(entry_views(combined@) =~= entry_views(before).push(crate::tokenizer::dictionary::entry_view(d)));
                assert(active_views(wv).take(k + 1) =~= active_views(wv).take(k as int).push(active_views(wv)[k as int]));
            }
            k = k + 1;
        }
        proof {
            assert(active_views(wv).take(wv.len() as int) =~= active_views(wv));
        }
        let n = combined.len();
        crate::tokenizer::rank_by_saving(&combined, n)
    }

    /// The dictionary in use: the cached entries when they are current,
    /// else the window ranked by saving.
    fn active_entries(&self) -> (r: Vec<DictEntry>)
        ensures
            active_ok(self.window_view(), self.cached_view(), self.stale(), entry_views(r@)),
    {
        if self.cached_entries.len() > 0 && !self.index_dirty {
            let mut r: Vec<DictEntry> = Vec::new();
            let mut k: usize = 0;
            while k < self.cached_entries.len()
                invariant
                    k <= self.cached_entries@.len(),
                    entry_views(r@) == entry_views(self.cached_entries@).take(k as int),
                decreases self.cached_entries@.len() - k,
            {
                let e = self.cached_entries[k].duplicate();
                let ghost before = r@;
                r.push(e);
                proof {
                    assert(entry_views(r@) =~= entry_views(before).push(crate::tokenizer::dictionary::entry_view(e)));
                    assert(entry_views(self.cached_entries@).take(k + 1) =~= entry_views(self.cached_entries@).take(k as int).push(
                        entry_views(self.cached_entries@)[k as int],
                    ));
                }
                k = k + 1;
            }
            proof {
                assert(entry_views(self.cached_entries@).take(self.cached_entries@.len() as int) =~= entry_views(self.cached_entries@));
            }
            r
        } else {
            self.ranked_window()
        }
    }

    /// The dictionary in use.
    pub fn active_entries_pub(&self) -> (r: Vec<DictEntry>)
        ensures
            active_ok(self.window_view(), self.cached_view(), self.stale(), entry_views(r@)),
    {
        self.active_entries()
    }

    /// Bring the cached index (and, when marked, the automaton) up to date
    /// with the window.
    fn refresh(&mut self)
        requires
            old(self).wf(),
            old(self).stale() || old(self).has_index(),
        ensures
            final(self).wf(),
            !final(self).stale(),
            final(self).has_index(),
            final(self).window_view() == old(self).window_view(),
            final(self).index_map() == old(self).index_map(),
            final(self).batches() == old(self).batches(),
            final(self).version() == old(self).version(),
            old(self).stale() ==> ranked(active_views(final(self).window_view()), final(self).cached_view(), final(self).window_view().len()),
            !old(self).stale() ==> final(self).cached_view() == old(self).cached_view() && final(self).ac_stale() == old(self).ac_stale()
                && final(self).ac_patterns() == old(self).ac_patterns(),
            old(self).stale() && !old(self).ac_stale() ==> !final(self).ac_stale() && final(self).ac_patterns() == old(self).ac_patterns(),
            old(self).stale() && old(self).ac_stale() ==> !final(self).ac_stale() && ac_built_from(final(self).cached_view(), final(self).ac_patterns()),
    {
        if self.index_dirty {
            let entries = self.ranked_window();
            proof {
                let wv = self.window_view();
                let perm = choose|perm: Seq<int>| #[trigger] crate::tokenizer::ranked_by(active_views(wv), entry_views(entries@), wv.len(), perm);
                assert(entry_views(entries@).len() == wv.len());
                crate::tokenizer::lemma_entry_bytes_views(entries@);
            }
            let ix = FirstByteIndex::build(entries.as_slice());
            if self.ac_dirty {
                self.cached_ac = crate::tokenizer::codon::build_ac(entries.as_slice());
                self.ac_dirty = false;
            }
            self.cached_entries = entries;
            self.cached_index = Some(ix);
            self.index_dirty = false;
        }
    }
}

/// An automaton cached for the entries `c`, if any, matches the entries of
/// at least four bytes ranked by saving.
pub open spec fn ac_built_from(c: Seq<EntryView>, a: Option<Seq<Seq<u8>>>) -> bool {
    a matches Some(p) ==> exists|ranking: Seq<EntryView>|
        ranked(crate::tokenizer::codon::long_views(c), ranking, crate::tokenizer::codon::long_views(c).len()) && p == views_bytes(ranking)
}

/// The state after encoding `buf` in batch `bc` from state 0, with batch
/// dictionary `bv`: the merged window and index, the version bumped when
/// the pattern set changed, and the cached index (and automaton) rebuilt
/// when they had gone stale and the window is not empty.
pub open spec fn v2_step(
    w0: Seq<WindowView>, i0: Map<Seq<u8>, usize>, ver0: u32, c0: Seq<EntryView>, st0: bool, acst0: bool,
    ac0: Option<Seq<Seq<u8>>>, bc: nat, bv: Seq<EntryView>,
    w1: Seq<WindowView>, i1: Map<Seq<u8>, usize>, ver1: u32, c1: Seq<EntryView>, st1: bool, acst1: bool,
    ac1: Option<Seq<Seq<u8>>>,
) -> bool {
    let m = merged_v2(w0, i0, bv, bc);
    let st_mid = st0 || m.2;
    let acst_mid = acst0 || (m.2 && bc % 50 == 0);
    &&& w1 == m.0
    &&& i1 == m.1
    &&& ver1 == (if m.2 { ((ver0 + 1) % 0x1_0000_0000) as u32 } else { ver0 })
    &&& if w1.len() == 0 {
        c1 == c0 && st1 == st_mid && acst1 == acst_mid && ac1 == ac0
    } else {
        &&& !st1
        &&& st_mid ==> ranked(active_views(w1), c1, w1.len())
        &&& !st_mid ==> c1 == c0 && acst1 == acst_mid && ac1 == ac0
        &&& st_mid && !acst_mid ==> !acst1 && ac1 == ac0
        &&& st_mid && acst_mid ==> !acst1 && ac_built_from(c1, ac1)
    }
}

/// The plain values of exported entries.
pub open spec fn triples_view(v: Seq<(Vec<u8>, u64, u64)>) -> Seq<(Seq<u8>, nat, nat)> {
    v.map_values(|t: (Vec<u8>, u64, u64)| (t.0@, t.1 as nat, t.2 as nat))
}

/// `t` is a fresh tokenizer: empty window and caches, no batches, version 0.
pub open spec fn fresh(t: SlidingTokenizerV2) -> bool {
    &&& t.wf()
    &&& t.window_view() == Seq::<WindowView>::empty()
    &&& t.batches() == 0
    &&& t.version() == 0
    &&& t.index_map() == empty_index()
    &&& t.cached_view() == Seq::<EntryView>::empty()
    &&& t.stale() && t.ac_stale()
    &&& !t.has_index()
    &&& t.ac_patterns() is None
}

/// `t1` is `t0` after encoding `buf`, as `SlidingTokenizerV2::encode`
/// leaves it (the frame aside).
pub open spec fn v2_encoded(t0: SlidingTokenizerV2, buf: Seq<u8>, t1: SlidingTokenizerV2) -> bool {
    &&& t1.wf()
    &&& t1.batches() == t0.batches() + 1
    &&& t1.stale() || t1.has_index()
    &&& exists|bv: Seq<EntryView>|
        #[trigger] crate::tokenizer::sliding::batch_ok(buf, bv) && v2_step(
            t0.window_view(), t0.index_map(), t0.version(), t0.cached_view(), t0.stale(), t0.ac_stale(), t0.ac_patterns(),
            t0.batches() + 1, bv, t1.window_view(), t1.index_map(), t1.version(), t1.cached_view(), t1.stale(), t1.ac_stale(),
            t1.ac_patterns(),
        )
}

/// The counters of `t` can absorb `n` bytes and `n` bytes fit a frame.
pub open spec fn feedable(t: SlidingTokenizerV2, n: nat) -> bool {
    t.counters_fit(n) && n <= u32::MAX && n * 128 <= usize::MAX
}

/// `t1` is `t0` after being fed `buf`: encoded when its counters can absorb
/// it and it fits a frame, else unchanged.
pub open spec fn fed(t0: SlidingTokenizerV2, buf: Seq<u8>, t1: SlidingTokenizerV2) -> bool {
    if feedable(t0, buf.len()) {
        v2_encoded(t0, buf, t1)
    } else {
        t1 == t0
    }
}

/// `es` is the dictionary a tokenizer in this state exports.
pub open spec fn exported_as(win: Seq<WindowView>, cached: Seq<EntryView>, stale: bool, es: Seq<(Vec<u8>, u64, u64)>) -> bool {
    exists|active: Seq<EntryView>| #[trigger] active_ok(win, cached, stale, active) && triples_view(es) == exported(active)
}

/// A well-formed tokenizer exports at most WINDOW_LIMIT entries.
pub proof fn lemma_export_bounded(t: SlidingTokenizerV2, es: Seq<(Vec<u8>, u64, u64)>)
    requires
        t.wf(),
        exported_as(t.window_view(), t.cached_view(), t.stale(), es),
    ensures
        es.len() <= WINDOW_LIMIT,
{
    let active = choose|active: Seq<EntryView>| #[trigger] active_ok(t.window_view(), t.cached_view(), t.stale(), active)
        && triples_view(es) == exported(active);
    assert(triples_view(es).len() == es.len());
    assert(exported(active).len() == active.len());
    if !(t.cached_view().len() > 0 && !t.stale()) {
        let c = active_views(t.window_view());
        let perm = choose|perm: Seq<int>| #[trigger] crate::tokenizer::ranked_by(c, active, t.window_view().len() as nat, perm);
    }
}

/// Exported triples as dictionary entry values.
pub open spec fn lifted_entries(es: Seq<(Vec<u8>, u64, u64)>) -> Seq<EntryView> {
    es.map_values(|e: (Vec<u8>, u64, u64)| (e.0@, (e.1 as usize) as nat, (e.2 as usize) as nat))
}

/// Entry values as exported: bytes, frequency and saving as `u64`.
pub open spec fn exported(active: Seq<EntryView>) -> Seq<(Seq<u8>, nat, nat)> {
    active.map_values(|e: EntryView| (e.0, ((e.1 as u64) as nat), ((e.2 as u64) as nat)))
}

/// The window an import of `es` leaves, every entry seen in batch `bc`.
pub open spec fn imported_window(es: Seq<(Seq<u8>, nat, nat)>, bc: nat) -> Seq<WindowView> {
    es.map_values(|e: (Seq<u8>, nat, nat)| (e.0, e.1, bc, e.2))
}

/// The index an import of `es` leaves: each byte string at its last position.
pub open spec fn imported_index(es: Seq<(Seq<u8>, nat, nat)>) -> Map<Seq<u8>, usize>
    decreases es.len(),
{
    if es.len() == 0 {
        empty_index()
    } else {
        imported_index(es.drop_last()).insert(es.last().0, (es.len() - 1) as usize)
    }
}

proof fn lemma_imported_index_valid(es: Seq<(Seq<u8>, nat, nat)>, bc: nat)
    requires
        es.len() <= WINDOW_LIMIT,
    ensures
        index_valid(imported_window(es, bc), imported_index(es)),
    decreases es.len(),
{
    if es.len() > 0 {
        let e0 = es.drop_last();
        lemma_imported_index_valid(e0, bc);
        let w0 = imported_window(e0, bc);
        let w = imported_window(es, bc);
        let i0 = imported_index(e0);
        let i = imported_index(es);
        assert(w.len() == es.len());
        assert(w[es.len() - 1].0 == es.last().0);
        assert forall|k: Seq<u8>| #[trigger] i.dom().contains(k) implies i[k] < w.len() && w[i[k] as int].0 == k by {
            if k != es.last().0 {
                assert(i0.dom().contains(k));
                assert(i[k] == i0[k]);
                assert(w[i0[k] as int] == w0[i0[k] as int]);
            } else {
                assert(i[k] == (es.len() - 1) as usize);
            }
        }
    }
}

impl SlidingTokenizerV2 {
    /// Encode a buffer after merging its dictionary into the window. The
    /// dictionary is not in the frame; the decoder must share the state.
    pub fn encode(&mut self, buf: &[u8]) -> (out: Vec<u8>)
        requires
            old(self).wf(),
            old(self).stale() || old(self).has_index(),
            old(self).counters_fit(buf@.len()),
            buf@.len() <= u32::MAX,
            buf@.len() * 128 <= usize::MAX,
        ensures
            final(self).wf(),
            final(self).batches() == old(self).batches() + 1,
            final(self).stale() || final(self).has_index(),
            exists|bv: Seq<EntryView>|
                #[trigger] crate::tokenizer::sliding::batch_ok(buf@, bv) && v2_step(
                    old(self).window_view(), old(self).index_map(), old(self).version(), old(self).cached_view(),
                    old(self).stale(), old(self).ac_stale(), old(self).ac_patterns(), old(self).batches() + 1, bv,
                    final(self).window_view(), final(self).index_map(), final(self).version(), final(self).cached_view(),
                    final(self).stale(), final(self).ac_stale(), final(self).ac_patterns(),
                ),
            out@ == v2_frame(final(self).version(), buf@, final(self).window_view(), final(self).cached_view()),
    {
        let ghost w0 = self.window_view();
        let ghost i0 = self.index_map();
        let ghost c0 = self.cached_view();
        let ghost st0 = self.stale();
        let ghost acst0 = self.ac_stale();
        let ghost ac0 = self.ac_patterns();
        let ghost ver0 = self.version();
        self.batch_count = self.batch_count + 1;
        let batch_entries = crate::tokenizer::dictionary::build(buf);
        let ghost ad = batch_entries@;
        let ghost bv = entry_views(ad);
        let ghost bnd: nat = 128 * buf@.len();
        proof {
            assert(self.window_view() == w0);
            assert forall|k: int| 0 <= k < ad.len() implies (#[trigger] ad[k]).freq <= bnd && ad[k].saving <= bnd by {
                lemma_freq_le_saving(buf@, ad, k);
            }
            assert(crate::tokenizer::adaptive_ok(buf@, ad));
            assert(crate::tokenizer::sliding::batch_ok(buf@, bv));
            assert(200 * bnd == 200 * 128 * buf@.len()) by (nonlinear_arith)
                requires
                    bnd == 128 * buf@.len();
            assert(200 * bnd <= u64::MAX) by (nonlinear_arith)
                requires
                    bnd == 128 * buf@.len(),
                    buf@.len() <= u32::MAX;
        }
        let changed = self.update_window(batch_entries.as_slice(), Ghost(bnd));
        if changed {
            self.dict_version = self.dict_version.wrapping_add(1);
            self.index_dirty = true;
            if self.batch_count % 50 == 0 {
                self.ac_dirty = true;
            }
        }
        let tokenized = if self.window.len() == 0 {
            slice_to_vec(buf)
        } else {
            self.refresh();
            match &self.cached_index {
                Some(ix) => crate::tokenizer::codon::encode_with_index(buf, ix),
                None => Vec::new(),
            }
        };
        let mut out: Vec<u8> = Vec::new();
        out.push(SLIDING_MAGIC[0]);
        out.push(SLIDING_MAGIC[1]);
        out.push(SLIDING_MAGIC[2]);
        out.push(SLIDING_MAGIC[3]);
        crate::bytes::push_le32(&mut out, self.dict_version);
        let orig_len: u32 = if buf.len() <= 0xFFFF_FFFF { buf.len() as u32 } else { 0xFFFF_FFFF };
        crate::bytes::push_le32(&mut out, orig_len);
        crate::bytes::append_bytes(&mut out, tokenized.as_slice());
        proof {
            if self.window_view().len() > 0 {
                crate::tokenizer::lemma_entry_bytes_views(self.cached_entries@);
            }
            assert(out@ =~= v2_frame(self.version(), buf@, self.window_view(), self.cached_view()));
            assert(v2_step(w0, i0, ver0, c0, st0, acst0, ac0, (self.batch_count) as nat, bv, self.window_view(),
                self.index_map(), self.version(), self.cached_view(), self.stale(), self.ac_stale(), self.ac_patterns()));
        }
        out
    }

    /// Fold a buffer's dictionary into the window without encoding it.
    pub fn ingest_fast(&mut self, buf: &[u8])
        requires
            old(self).wf(),
            old(self).counters_fit(buf@.len()),
            buf@.len() <= u32::MAX,
            buf@.len() * 128 <= usize::MAX,
        ensures
            final(self).wf(),
            final(self).batches() == old(self).batches() + 1,
            final(self).cached_view() == old(self).cached_view(),
            final(self).has_index() == old(self).has_index(),
            final(self).ac_stale() == old(self).ac_stale(),
            final(self).ac_patterns() == old(self).ac_patterns(),
            exists|bv: Seq<EntryView>|
                #[trigger] crate::tokenizer::sliding::batch_ok(buf@, bv) && ({
                    let m = merged_v2(old(self).window_view(), old(self).index_map(), bv, old(self).batches());
                    &&& final(self).window_view() == m.0
                    &&& final(self).index_map() == m.1
                    &&& final(self).version() == (if m.2 { ((old(self).version() + 1) % 0x1_0000_0000) as u32 } else { old(self).version() })
                    &&& final(self).stale() == (if m.2 { final(self).batches() % 10 == 0 } else { old(self).stale() })
                }),
    {
        let batch_entries = crate::tokenizer::dictionary::build(buf);
        let ghost ad = batch_entries@;
        let ghost bv = entry_views(ad);
        let ghost bnd: nat = 128 * buf@.len();
        proof {
            assert forall|k: int| 0 <= k < ad.len() implies (#[trigger] ad[k]).freq <= bnd && ad[k].saving <= bnd by {
                lemma_freq_le_saving(buf@, ad, k);
            }
            assert(crate::tokenizer::adaptive_ok(buf@, ad));
            assert(crate::tokenizer::sliding::batch_ok(buf@, bv));
            assert(200 * bnd == 200 * 128 * buf@.len()) by (nonlinear_arith)
                requires
                    bnd == 128 * buf@.len();
            assert(200 * bnd <= u64::MAX) by (nonlinear_arith)
                requires
                    bnd == 128 * buf@.len(),
                    buf@.len() <= u32::MAX;
        }
        let changed = self.update_window(batch_entries.as_slice(), Ghost(bnd));
        self.batch_count = self.batch_count + 1;
        if changed {
            self.dict_version = self.dict_version.wrapping_add(1);
            self.index_dirty = self.batch_count % 10 == 0;
        }
    }

    /// Decode a frame with the current dictionary.
    pub fn decode(&self, buf: &[u8]) -> (r: Result<Vec<u8>, String>)
        ensures
            buf@.len() < 12 ==> (r matches Err(e) && e@ == "sliding_v2: too short"@),
            buf@.len() >= 12 && buf@.take(4) != sliding_magic() ==> (r matches Err(e) && e@ == "sliding_v2: bad magic"@),
            exists|active: Seq<EntryView>|
                #[trigger] active_ok(self.window_view(), self.cached_view(), self.stale(), active) && match v2_decode_spec(buf@, active) {
                    Some(d) => r matches Ok(v) && v@ == d,
                    None => r is Err,
                },
    {
        let active = self.active_entries();
        let ghost av = entry_views(active@);
        proof {
            crate::tokenizer::lemma_entry_bytes_views(active@);
        }
        if buf.len() < 12 {
            return Err(String::from_str("sliding_v2: too short"));
        }
        if !(buf[0] == SLIDING_MAGIC[0] && buf[1] == SLIDING_MAGIC[1] && buf[2] == SLIDING_MAGIC[2] && buf[3] == SLIDING_MAGIC[3]) {
            proof {
                if buf@.take(4) == sliding_magic() {
                    assert(buf@.take(4)[0] == buf@[0] && buf@.take(4)[1] == buf@[1]);
                    assert(buf@.take(4)[2] == buf@[2] && buf@.take(4)[3] == buf@[3]);
                }
            }
            return Err(String::from_str("sliding_v2: bad magic"));
        }
        proof {
            assert(buf@.take(4) =~= sliding_magic());
        }
        let orig_len = crate::bytes::read_le32(buf, 8) as usize;
        let payload = vstd::slice::slice_subrange(buf, 12, buf.len());
        proof {
            assert(payload@ =~= buf@.skip(12));
        }
        let decoded = if active.len() == 0 {
            slice_to_vec(payload)
        } else {
            crate::tokenizer::codon::decode(payload, active.as_slice())
        };
        if decoded.len() != orig_len {
            return Err(len_mismatch_message(decoded.len(), orig_len));
        }
        Ok(decoded)
    }

    /// Decode a token stream (no frame header) with the current dictionary.
    pub fn decode_raw(&self, tokenized: &[u8]) -> (r: Result<Vec<u8>, String>)
        ensures
            exists|active: Seq<EntryView>|
                #[trigger] active_ok(self.window_view(), self.cached_view(), self.stale(), active) && (r matches Ok(v)
                    && v@ == (if active.len() == 0 { tokenized@ } else { decode_spec(tokenized@, views_bytes(active)) })),
    {
        let active = self.active_entries();
        proof {
            crate::tokenizer::lemma_entry_bytes_views(active@);
        }
        if active.len() == 0 {
            return Ok(slice_to_vec(tokenized));
        }
        Ok(crate::tokenizer::codon::decode(tokenized, active.as_slice()))
    }

    /// The dictionary version and the dictionary in use, for out-of-band
    /// synchronisation.
    pub fn export_dict(&self) -> (r: (u32, Vec<(Vec<u8>, u64, u64)>))
        ensures
            r.0 == self.version(),
            exists|active: Seq<EntryView>|
                #[trigger] active_ok(self.window_view(), self.cached_view(), self.stale(), active) && triples_view(r.1@) == exported(active),
    {
        let active = self.active_entries();
        let ghost av = entry_views(active@);
        let mut out: Vec<(Vec<u8>, u64, u64)> = Vec::new();
        let mut k: usize = 0;
        while k < active.len()
            invariant
                k <= active@.len(),
                av == entry_views(active@),
                triples_view(out@) == exported(av).take(k as int),
            decreases active@.len() - k,
        {
            let e = &active[k];
            let t = (slice_to_vec(e.bytes.as_slice()), e.freq as u64, e.saving as u64);
            let ghost before = out@;
            out.push(t);
            proof {
                assert(triples_view(out@) =~= triples_view(before).push((t.0@, t.1 as nat, t.2 as nat)));
                assert(exported(av).take(k + 1) =~= exported(av).take(k as int).push(exported(av)[k as int]));
            }
            k = k + 1;
        }
        proof {
            assert(exported(av).take(av.len() as int) =~= exported(av));
        }
        (self.dict_version, out)
    }

    /// Replace the window by imported entries (decoder-side initialisation).
    pub fn import_dict(&mut self, version: u32, entries: Vec<(Vec<u8>, u64, u64)>)
        requires
            old(self).wf(),
            entries@.len() <= WINDOW_LIMIT,
        ensures
            final(self).wf(),
            final(self).window_view() == imported_window(triples_view(entries@), old(self).batches()),
            final(self).index_map() == imported_index(triples_view(entries@)),
            final(self).version() == version,
            final(self).batches() == old(self).batches(),
            final(self).cached_view() == Seq::<EntryView>::empty(),
            final(self).stale() && final(self).ac_stale(),
            !final(self).has_index(),
            final(self).ac_patterns() == old(self).ac_patterns(),
    {
        let ghost tv = triples_view(entries@);
        self.window = Vec::new();
        amap_clear(&mut self.index);
        self.cached_index = None;
        self.cached_entries = Vec::new();
        self.index_dirty = true;
        self.ac_dirty = true;
        self.dict_version = version;
        let bc = self.batch_count;
        let mut k: usize = 0;
        while k < entries.len()
            invariant
                k <= entries@.len() <= WINDOW_LIMIT,
                tv == triples_view(entries@),
                bc == self.batch_count,
                wviews(self.window@) == imported_window(tv.take(k as int), bc as nat),
                amap_contents(self.index) == imported_index(tv.take(k as int)),
                self.window@.len() == k,
                self.cached_entries@.len() == 0,
                self.cached_index is None,
                self.index_dirty && self.ac_dirty,
                self.dict_version == version,
                self.cached_ac == old(self).cached_ac,
                old(self).cached_ac matches Some(a) ==> a.wf(),
                self.batch_count == old(self).batch_count,
            decreases entries@.len() - k,
        {
            let (b, f, sv) = (slice_to_vec(entries[k].0.as_slice()), entries[k].1, entries[k].2);
            amap_insert(&mut self.index, slice_to_vec(b.as_slice()), k);
            let ne = WindowEntry { bytes: b, cumulative_freq: f, last_seen: bc, saving: sv };
            let ghost before = self.window@;
            self.window.push(ne);
            proof {
                assert(tv.take(k + 1).drop_last() =~= tv.take(k as int));
                assert(tv.take(k + 1).last() == tv[k as int]);
                assert(wviews(self.window@) =~= wviews(before).push(wview(ne)));
                assert(imported_window(tv.take(k + 1), bc as nat) =~= imported_window(tv.take(k as int), bc as nat).push(wview(ne)));
            }
            k = k + 1;
        }
        proof {
            assert(tv.take(entries@.len() as int) =~= tv);
            lemma_imported_index_valid(tv, bc as nat);
            assert(self.cached_view() =~= Seq::<EntryView>::empty());
        }
    }
}

/// A selected entry's frequency is at most its saving.
proof fn lemma_freq_le_saving(buf: Seq<u8>, ad: Seq<DictEntry>, k: int)
    requires
        buf.len() > 0,
        crate::tokenizer::dictionary::is_selection(crate::tokenizer::dictionary::freq_spec(buf), ad, crate::tokenizer::dictionary::MAX_ENTRIES as nat),
        0 <= k < ad.len(),
    ensures
        ad[k].freq <= ad[k].saving,
{
    let cands = crate::tokenizer::dictionary::freq_spec(buf);
    assert(crate::tokenizer::dictionary::entry_from(cands, ad[k]));
    let q = choose|q: int| 0 <= q < cands.len() && crate::tokenizer::dictionary::cand_ok(cands[q].0, cands[q].1)
        && #[trigger] cands[q].0 == ad[k].bytes@ && cands[q].1 == ad[k].freq
        && ad[k].saving == crate::tokenizer::dictionary::saving_of(cands[q].0, cands[q].1);
    let w = cands[q].0.len() - 2;
    let c = cands[q].1;
    assert(w * c >= c) by (nonlinear_arith)
        requires w >= 1, c >= 0;
}

/// `format!` of the two lengths in decimal.
#[verifier::external_body]
fn len_mismatch_message(got: usize, expected: usize) -> (m: String)
    ensures
        m@ == "sliding_v2: len mismatch "@ + crate::text::decimal(got as nat) + " vs "@ + crate::text::decimal(expected as nat),
{
    format!("sliding_v2: len mismatch {} vs {}", got, expected)
}

/// The entries a static dictionary seeds the window with: those of saving
/// at least MIN_SAVING_THRESHOLD, until MAX_WINDOW_ENTRIES are taken.
pub open spec fn static_entries(es: Seq<(Seq<u8>, nat, nat)>) -> Seq<(Seq<u8>, nat, nat)>
    decreases es.len(),
{
    if es.len() == 0 {
        Seq::empty()
    } else {
        let prev = static_entries(es.drop_last());
        if prev.len() >= MAX_WINDOW_ENTRIES || es.last().2 < MIN_SAVING_THRESHOLD {
            prev
        } else {
            prev.push(es.last())
        }
    }
}

proof fn lemma_static_entries_len(es: Seq<(Seq<u8>, nat, nat)>)
    ensures
        static_entries(es).len() <= MAX_WINDOW_ENTRIES,
    decreases es.len(),
{
    if es.len() > 0 {
        lemma_static_entries_len(es.drop_last());
    }
}

/// State 1 is state 0 with its cached index brought up to date.
pub open spec fn refreshed(
    w0: Seq<WindowView>, c0: Seq<EntryView>, st0: bool, acst0: bool, ac0: Option<Seq<Seq<u8>>>,
    c1: Seq<EntryView>, st1: bool, acst1: bool, ac1: Option<Seq<Seq<u8>>>,
) -> bool {
    &&& !st1
    &&& st0 ==> ranked(active_views(w0), c1, w0.len())
    &&& !st0 ==> c1 == c0 && acst1 == acst0 && ac1 == ac0
    &&& st0 && !acst0 ==> !acst1 && ac1 == ac0
    &&& st0 && acst0 ==> !acst1 && ac_built_from(c1, ac1)
}

impl SlidingTokenizerV2 {
    /// A tokenizer seeded with a static dictionary: entries of saving at
    /// least MIN_SAVING_THRESHOLD, in order, up to MAX_WINDOW_ENTRIES, as
    /// seen in batch 0; dictionary version 1.
    pub fn new_with_static(entries: Vec<(Vec<u8>, u64, u64)>) -> (t: Self)
        ensures
            t.wf(),
            t.window_view() == imported_window(static_entries(triples_view(entries@)), 0),
            t.index_map() == imported_index(static_entries(triples_view(entries@))),
            t.version() == 1,
            t.batches() == 0,
            t.cached_view() == Seq::<EntryView>::empty(),
            t.stale() && t.ac_stale(),
            !t.has_index(),
            t.ac_patterns() is None,
    {
        let ghost tv = triples_view(entries@);
        let mut tok = SlidingTokenizerV2::new();
        let mut k: usize = 0;
        let mut full = false;
        proof {
            assert(wviews(tok.window@).len() == tok.window@.len());
            assert(tv.take(0) =~= Seq::<(Seq<u8>, nat, nat)>::empty());
            assert(imported_window(Seq::<(Seq<u8>, nat, nat)>::empty(), 0) =~= Seq::<WindowView>::empty());
        }
        while k < entries.len() && !full
            invariant
                k <= entries@.len(),
                tv == triples_view(entries@),
                wviews(tok.window@) == imported_window(static_entries(tv.take(k as int)), 0),
                amap_contents(tok.index) == imported_index(static_entries(tv.take(k as int))),
                tok.window@.len() == static_entries(tv.take(k as int)).len(),
                tok.window@.len() <= MAX_WINDOW_ENTRIES,
                full ==> static_entries(tv) == static_entries(tv.take(k as int)),
                tok.cached_entries@.len() == 0,
                tok.cached_index is None,
                tok.cached_ac is None,
                tok.batch_count == 0,
                tok.dict_version == 0,
                tok.index_dirty && tok.ac_dirty,
            decreases entries@.len() - k + (if full { 0int } else { 1int }),
        {
            let ghost prev = static_entries(tv.take(k as int));
            proof {
                assert(tv.take(k + 1).drop_last() =~= tv.take(k as int));
                assert(tv.take(k + 1).last() == tv[k as int]);
            }
            if entries[k].2 < MIN_SAVING_THRESHOLD as u64 {
                k = k + 1;
            } else {
                let idx = tok.window.len();
                if idx >= MAX_WINDOW_ENTRIES {
                    proof {
                        lemma_static_full(tv, k as int, tv.len() as int);
                        assert(tv.take(tv.len() as int) =~= tv);
                    }
                    full = true;
                } else {
                    let b = slice_to_vec(entries[k].0.as_slice());
                    amap_insert(&mut tok.index, slice_to_vec(b.as_slice()), idx);
                    let ne = WindowEntry { bytes: b, cumulative_freq: entries[k].1, last_seen: 0, saving: entries[k].2 };
                    let ghost before = tok.window@;
                    tok.window.push(ne);
                    proof {
                        let np = prev.push(tv[k as int]);
                        assert(static_entries(tv.take(k + 1)) == np);
                        assert(np.drop_last() =~= prev);
                        assert(np.last() == tv[k as int]);
                        assert(wviews(tok.window@) =~= wviews(before).push(wview(ne)));
                        assert(imported_window(np, 0) =~= imported_window(prev, 0).push(wview(ne)));
                    }
                    k = k + 1;
                }
            }
        }
        proof {
            if !full {
                assert(tv.take(entries@.len() as int) =~= tv);
            }
            lemma_static_entries_len(tv);
            lemma_imported_index_valid(static_entries(tv), 0);
        }
        tok.dict_version = 1;
        tok.index_dirty = true;
        tok.ac_dirty = true;
        tok.cached_ac = None;
        tok
    }

    /// Split-stream encode with the cached automaton (built first when
    /// stale): token ids and literals; every byte a literal when no
    /// automaton is cached.
    pub fn encode_ac_split(&mut self, buf: &[u8]) -> (r: (Vec<u8>, Vec<u8>))
        requires
            old(self).wf(),
            old(self).stale() || old(self).has_index(),
        ensures
            final(self).wf(),
            final(self).has_index(),
            final(self).window_view() == old(self).window_view(),
            final(self).index_map() == old(self).index_map(),
            final(self).version() == old(self).version(),
            final(self).batches() == old(self).batches(),
            refreshed(old(self).window_view(), old(self).cached_view(), old(self).stale(), old(self).ac_stale(),
                old(self).ac_patterns(), final(self).cached_view(), final(self).stale(), final(self).ac_stale(),
                final(self).ac_patterns()),
            match final(self).ac_patterns() {
                Some(p) => (r.0@, r.1@) == crate::tokenizer::codon::ac_split_from(buf@,
                    crate::tokenizer::codon::ac_leftmost_longest(p, buf@), 0, 0),
                None => r.0@.len() == 0 && r.1@ == buf@,
            },
    {
        self.refresh();
        match &self.cached_ac {
            Some(ac) => crate::tokenizer::codon::encode_ac_split(buf, ac),
            None => (Vec::new(), slice_to_vec(buf)),
        }
    }

    /// Encode with the cached automaton (built first when stale) in the
    /// codon format; without one, with an automaton over the dictionary in
    /// use.
    pub fn encode_ac(&mut self, buf: &[u8]) -> (out: Vec<u8>)
        requires
            old(self).wf(),
            old(self).stale() || old(self).has_index(),
        ensures
            final(self).wf(),
            final(self).has_index(),
            final(self).window_view() == old(self).window_view(),
            final(self).index_map() == old(self).index_map(),
            final(self).version() == old(self).version(),
            final(self).batches() == old(self).batches(),
            refreshed(old(self).window_view(), old(self).cached_view(), old(self).stale(), old(self).ac_stale(),
                old(self).ac_patterns(), final(self).cached_view(), final(self).stale(), final(self).ac_stale(),
                final(self).ac_patterns()),
            final(self).ac_patterns() matches Some(p) ==> out@ == crate::tokenizer::codon::ac_with_from(buf@,
                crate::tokenizer::codon::ac_leftmost_longest(p, buf@), 0, 0),
            final(self).ac_patterns() is None ==> exists|active: Seq<EntryView>|
                #[trigger] active_ok(final(self).window_view(), final(self).cached_view(), final(self).stale(), active)
                && (active.len() == 0 ==> out@ == crate::tokenizer::codon::escape_seq(buf@))
                && (active.len() > 0 ==> exists|ranking: Seq<EntryView>|
                    ranked(crate::tokenizer::codon::long_views(active), ranking, crate::tokenizer::codon::long_views(active).len())
                    && (out@ == crate::tokenizer::codon::escape_seq(buf@) || out@ == crate::tokenizer::codon::ac_full_from(buf@,
                        crate::tokenizer::codon::ac_leftmost_longest(views_bytes(ranking), buf@), 0, 0))),
    {
        self.refresh();
        match &self.cached_ac {
            Some(ac) => crate::tokenizer::codon::encode_ac_with(buf, ac),
            None => {
                let active = self.active_entries();
                crate::tokenizer::codon::encode_ac(buf, active.as_slice())
            },
        }
    }

    /// Rebuild a buffer from split streams with the cached automaton (built
    /// first when stale) and the dictionary in use; `None` where the
    /// streams run short. Without an automaton the literals are the buffer.
    pub fn try_decode_ac_split(&mut self, buf: &[u8], tok_ids: &[u8], literals: &[u8]) -> (r: Option<Vec<u8>>)
        requires
            old(self).wf(),
            old(self).stale() || old(self).has_index(),
        ensures
            final(self).wf(),
            final(self).has_index(),
            final(self).window_view() == old(self).window_view(),
            final(self).index_map() == old(self).index_map(),
            final(self).version() == old(self).version(),
            final(self).batches() == old(self).batches(),
            refreshed(old(self).window_view(), old(self).cached_view(), old(self).stale(), old(self).ac_stale(),
                old(self).ac_patterns(), final(self).cached_view(), final(self).stale(), final(self).ac_stale(),
                final(self).ac_patterns()),
            final(self).ac_patterns() is None ==> (r matches Some(v) && v@ == literals@),
            exists|active: Seq<EntryView>|
                #[trigger] active_ok(final(self).window_view(), final(self).cached_view(), final(self).stale(), active)
                && (final(self).ac_patterns() matches Some(p) ==> match crate::tokenizer::codon::ac_unsplit_from(
                    crate::tokenizer::codon::ac_leftmost_longest(p, buf@), tok_ids@, literals@, views_bytes(active), 0, 0, 0, 0) {
                    Some(d) => r matches Some(v) && v@ == d,
                    None => r is None,
                }),
    {
        self.refresh();
        let entries = self.active_entries();
        proof {
            crate::tokenizer::lemma_entry_bytes_views(entries@);
        }
        let r = match &self.cached_ac {
            Some(ac) => crate::tokenizer::codon::try_decode_ac_split(buf, tok_ids, literals, ac, entries.as_slice()),
            None => Some(slice_to_vec(literals)),
        };
        if r.is_some() && self.cached_entries.len() > 0 {
            proof {
                assert forall|active: Seq<EntryView>|
                    #[trigger] active_ok(self.window_view(), self.cached_view(), false, active)
                    implies active == entry_views(entries@) by {}
            }
            Some(self.decode_ac_split(buf, tok_ids, literals))
        } else {
            r
        }
    }

    /// Rebuild a buffer from split streams, for a current state whose
    /// streams are long enough under every dictionary the state allows.
    pub fn decode_ac_split(&mut self, buf: &[u8], tok_ids: &[u8], literals: &[u8]) -> (out: Vec<u8>)
        requires
            old(self).wf(),
            !old(self).stale(),
            old(self).has_index(),
            old(self).ac_patterns() matches Some(p) ==> forall|active: Seq<EntryView>|
                #[trigger] active_ok(old(self).window_view(), old(self).cached_view(), false, active)
                ==> crate::tokenizer::codon::ac_unsplit_from(crate::tokenizer::codon::ac_leftmost_longest(p, buf@), tok_ids@,
                    literals@, views_bytes(active), 0, 0, 0, 0) is Some,
        ensures
            final(self).wf(),
            final(self).has_index(),
            !final(self).stale(),
            final(self).window_view() == old(self).window_view(),
            final(self).index_map() == old(self).index_map(),
            final(self).version() == old(self).version(),
            final(self).batches() == old(self).batches(),
            final(self).cached_view() == old(self).cached_view(),
            final(self).ac_stale() == old(self).ac_stale(),
            final(self).ac_patterns() == old(self).ac_patterns(),
            old(self).ac_patterns() is None ==> out@ == literals@,
            exists|active: Seq<EntryView>|
                #[trigger] active_ok(old(self).window_view(), old(self).cached_view(), false, active)
                && (old(self).ac_patterns() matches Some(p) ==> crate::tokenizer::codon::ac_unsplit_from(
                    crate::tokenizer::codon::ac_leftmost_longest(p, buf@), tok_ids@, literals@, views_bytes(active), 0, 0, 0, 0)
                    == Some(out@)),
    {
        self.refresh();
        let entries = self.active_entries();
        proof {
            crate::tokenizer::lemma_entry_bytes_views(entries@);
        }
        match &self.cached_ac {
            Some(ac) => crate::tokenizer::codon::decode_ac_split(buf, tok_ids, literals, ac, entries.as_slice()),
            None => slice_to_vec(literals),
        }
    }
}

proof fn lemma_static_full(tv: Seq<(Seq<u8>, nat, nat)>, k: int, j: int)
    requires
        0 <= k <= j <= tv.len(),
        static_entries(tv.take(k)).len() >= MAX_WINDOW_ENTRIES,
    ensures
        static_entries(tv.take(j)) == static_entries(tv.take(k)),
    decreases j - k,
{
    if j > k {
        lemma_static_full(tv, k, j - 1);
        assert(tv.take(j).drop_last() =~= tv.take(j - 1));
    }
}

impl Default for SlidingTokenizerV2 {
    fn default() -> (t: Self)
        ensures
            t.wf(),
            t.window_view() == Seq::<WindowView>::empty(),
            t.batches() == 0,
            t.version() == 0,
            t.stale() && t.ac_stale(),
            !t.has_index(),
    {
        Self::new()
    }
}

} // verus!
