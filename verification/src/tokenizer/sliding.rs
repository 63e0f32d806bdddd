//! A codon table that persists across batches.
//!
//! The tokenizer keeps a window of at most MAX_WINDOW_ENTRIES entries,
//! each with its bytes, cumulative frequency, the batch it was last seen
//! in and its cumulative saving. Every batch merges its own dictionary
//! into the window, evicts entries that went stale, and encodes with the
//! window's entries ranked by saving. Each output carries its dictionary,
//! so decoding needs no state.

use vstd::prelude::*;
use vstd::slice::slice_to_vec;
use crate::tokenizer::dictionary::{DictEntry, entry_views};
use crate::tokenizer::{
    TOK_MAGIC, tok_magic, tok_decode_spec, views_bytes, ranked, pass2_chosen, adaptive_ok, encoding_with,
    body_spec,
};

verus! {

pub const MAX_WINDOW_ENTRIES: usize = 200;
pub const EVICTION_AGE: u64 = 50;

/// A window entry as plain values: bytes, cumulative frequency, the batch
/// it was last seen in, cumulative saving.
pub type WindowView = (Seq<u8>, nat, nat, nat);

/// A dictionary entry as plain values: bytes, frequency, saving.
pub type EntryView = (Seq<u8>, nat, nat);

/// Batches since `seen`, as of batch `bc` (zero when `seen` is later).
pub open spec fn age(bc: nat, seen: nat) -> nat {
    if bc > seen { (bc - seen) as nat } else { 0 }
}

/// The lookup list the window starts a merge with: each entry's bytes
/// and position.
pub open spec fn initial_index(win: Seq<WindowView>) -> Seq<(Seq<u8>, int)> {
    Seq::new(win.len(), |k: int| (win[k].0, k))
}

/// The position recorded last for `key` in a lookup list.
pub open spec fn index_find(idx: Seq<(Seq<u8>, int)>, key: Seq<u8>) -> Option<int>
    decreases idx.len(),
{
    if idx.len() == 0 {
        None
    } else if idx.last().0 == key {
        Some(idx.last().1)
    } else {
        index_find(idx.drop_last(), key)
    }
}

/// An entry may be replaced by one of saving `mv` in batch `bc`: its own
/// saving is smaller and it was last seen more than five batches ago.
pub open spec fn replaceable(w: WindowView, mv: nat, bc: nat) -> bool {
    w.3 < mv && age(bc, w.2) > 5
}

/// The replaceable entry of smallest saving among `win[..k]`, the first
/// one among equally small.
pub open spec fn worst_among(win: Seq<WindowView>, mv: nat, bc: nat, k: int) -> Option<int>
    decreases k,
{
    if k <= 0 {
        None
    } else {
        let prev = worst_among(win, mv, bc, k - 1);
        if replaceable(win[k - 1], mv, bc) && (prev is None || win[k - 1].3 < win[prev->0].3) {
            Some(k - 1)
        } else {
            prev
        }
    }
}

/// The window and lookup list after merging `batch` in batch `bc`. An
/// entry whose bytes the list knows adds its frequency and saving to the
/// recorded position; an unknown one is appended while there is room, or
/// else replaces the worst replaceable entry, if any. Replaced entries
/// keep their old bytes in the list.
pub open spec fn merged(win0: Seq<WindowView>, batch: Seq<EntryView>, bc: nat) -> (Seq<WindowView>, Seq<(Seq<u8>, int)>)
    decreases batch.len(),
{
    if batch.len() == 0 {
        (win0, initial_index(win0))
    } else {
        let prev = merged(win0, batch.drop_last(), bc);
        let win = prev.0;
        let idx = prev.1;
        let e = batch.last();
        match index_find(idx, e.0) {
            Some(i) => (win.update(i, (win[i].0, win[i].1 + e.1, bc, win[i].3 + e.2)), idx),
            None => if win.len() < MAX_WINDOW_ENTRIES {
                (win.push((e.0, e.1, bc, e.2)), idx.push((e.0, win.len() as int)))
            } else {
                match worst_among(win, e.2, bc, win.len() as int) {
                    Some(w) => (win.update(w, (e.0, e.1, bc, e.2)), idx),
                    None => (win, idx),
                }
            },
        }
    }
}

/// An entry survives eviction in batch `bc`: seen in the last
/// EVICTION_AGE batches, or of cumulative frequency above ten.
pub open spec fn kept(w: WindowView, bc: nat) -> bool {
    age(bc, w.2) < EVICTION_AGE || w.1 > 10
}

/// The entries of `win` that survive eviction, in order.
pub open spec fn evicted(win: Seq<WindowView>, bc: nat) -> Seq<WindowView>
    decreases win.len(),
{
    if win.len() == 0 {
        Seq::empty()
    } else {
        evicted(win.drop_last(), bc) + if kept(win.last(), bc) { seq![win.last()] } else { Seq::empty() }
    }
}

/// The window after batch `bc` merges `batch`.
pub open spec fn window_after(win0: Seq<WindowView>, batch: Seq<EntryView>, bc: nat) -> Seq<WindowView> {
    evicted(merged(win0, batch, bc).0, bc)
}

/// The window's entries as dictionary entries.
pub open spec fn active_views(win: Seq<WindowView>) -> Seq<EntryView> {
    win.map_values(|w: WindowView| (w.0, (w.1 as usize) as nat, (w.3 as usize) as nat))
}

#[derive(Debug, Clone)]
struct WindowEntry {
    bytes: Vec<u8>,
    cumulative_freq: u64,
    last_seen: u64,
    saving: u64,
}

spec fn wview(e: WindowEntry) -> WindowView {
    (e.bytes@, e.cumulative_freq as nat, e.last_seen as nat, e.saving as nat)
}

spec fn wviews(w: Seq<WindowEntry>) -> Seq<WindowView> {
    w.map_values(|e: WindowEntry| wview(e))
}

spec fn idx_view(idx: Seq<(Vec<u8>, usize)>) -> Seq<(Seq<u8>, int)> {
    idx.map_values(|p: (Vec<u8>, usize)| (p.0@, p.1 as int))
}

/// Sliding window codon table: create once, encode many batches.
pub struct SlidingTokenizer {
    window: Vec<WindowEntry>,
    batch_count: u64,
}

/// Merging keeps the window within MAX_WINDOW_ENTRIES entries of at most
/// `lb` bytes, and its lookup positions inside the window.
proof fn lemma_merged_shape(win0: Seq<WindowView>, batch: Seq<EntryView>, bc: nat, lb: nat)
    requires
        win0.len() <= MAX_WINDOW_ENTRIES,
        forall|k: int| 0 <= k < win0.len() ==> (#[trigger] win0[k]).0.len() <= lb,
        forall|k: int| 0 <= k < batch.len() ==> (#[trigger] batch[k]).0.len() <= lb,
    ensures
        merged(win0, batch, bc).0.len() <= MAX_WINDOW_ENTRIES,
        merged(win0, batch, bc).0.len() >= win0.len(),
        forall|k: int| 0 <= k < merged(win0, batch, bc).0.len() ==> (#[trigger] merged(win0, batch, bc).0[k]).0.len() <= lb,
        forall|k: int| 0 <= k < merged(win0, batch, bc).1.len() ==> 0 <= (#[trigger] merged(win0, batch, bc).1[k]).1 < merged(win0, batch, bc).0.len(),
    decreases batch.len(),
{
    if batch.len() > 0 {
        let b0 = batch.drop_last();
        assert forall|k: int| 0 <= k < b0.len() implies (#[trigger] b0[k]).0.len() <= lb by {
            assert(b0[k] == batch[k]);
        }
        lemma_merged_shape(win0, b0, bc, lb);
        let prev = merged(win0, b0, bc);
        lemma_index_find_in(prev.1, batch.last().0, prev.0.len() as int);
        lemma_worst_among_in(prev.0, batch.last().2, bc, prev.0.len() as int);
    }
}

proof fn lemma_index_find_in(idx: Seq<(Seq<u8>, int)>, key: Seq<u8>, n: int)
    requires
        forall|k: int| 0 <= k < idx.len() ==> 0 <= (#[trigger] idx[k]).1 < n,
    ensures
        index_find(idx, key) matches Some(i) ==> 0 <= i < n,
    decreases idx.len(),
{
    if idx.len() > 0 && idx.last().0 != key {
        let i0 = idx.drop_last();
        assert forall|k: int| 0 <= k < i0.len() implies 0 <= (#[trigger] i0[k]).1 < n by {
            assert(i0[k] == idx[k]);
        }
        lemma_index_find_in(i0, key, n);
    }
}

proof fn lemma_worst_among_in(win: Seq<WindowView>, mv: nat, bc: nat, k: int)
    ensures
        worst_among(win, mv, bc, k) matches Some(w) ==> 0 <= w < k && replaceable(win[w], mv, bc),
    decreases k,
{
    if k > 0 {
        lemma_worst_among_in(win, mv, bc, k - 1);
    }
}

proof fn lemma_evicted_shape(win: Seq<WindowView>, bc: nat, lb: nat)
    requires
        forall|k: int| 0 <= k < win.len() ==> (#[trigger] win[k]).0.len() <= lb,
    ensures
        evicted(win, bc).len() <= win.len(),
        forall|k: int| 0 <= k < evicted(win, bc).len() ==> (#[trigger] evicted(win, bc)[k]).0.len() <= lb,
    decreases win.len(),
{
    if win.len() > 0 {
        let w0 = win.drop_last();
        assert forall|k: int| 0 <= k < w0.len() implies (#[trigger] w0[k]).0.len() <= lb by {
            assert(w0[k] == win[k]);
        }
        lemma_evicted_shape(w0, bc, lb);
        let e0 = evicted(w0, bc);
        let e = evicted(win, bc);
        assert forall|k: int| 0 <= k < e.len() implies (#[trigger] e[k]).0.len() <= lb by {
            if k < e0.len() {
                assert(e[k] == e0[k]);
            } else {
                assert(e[k] == win.last());
            }
        }
    }
}

impl SlidingTokenizer {
    /// The window, entry by entry.
    pub closed spec fn window_view(&self) -> Seq<WindowView> {
        wviews(self.window@)
    }

    /// The number of batches encoded.
    pub closed spec fn batches(&self) -> nat {
        self.batch_count as nat
    }

    /// At most MAX_WINDOW_ENTRIES entries, each of at most 128 bytes.
    pub open spec fn wf(&self) -> bool {
        &&& self.window_view().len() <= MAX_WINDOW_ENTRIES
        &&& forall|k: int| 0 <= k < self.window_view().len() ==> (#[trigger] self.window_view()[k]).0.len() <= 128
    }

    /// The counters can absorb a batch of `n` bytes: the batch count can
    /// grow, and every cumulative frequency and saving can take the
    /// batch's additions (at most MAX_WINDOW_ENTRIES of at most 128 per
    /// byte) within `u64`.
    pub open spec fn counters_fit(&self, n: nat) -> bool {
        &&& self.batches() < u64::MAX
        &&& forall|k: int| 0 <= k < self.window_view().len() ==> (#[trigger] self.window_view()[k]).1 + MAX_WINDOW_ENTRIES * 128 * n <= u64::MAX
        &&& forall|k: int| 0 <= k < self.window_view().len() ==> (#[trigger] self.window_view()[k]).3 + MAX_WINDOW_ENTRIES * 128 * n <= u64::MAX
    }

    pub fn new() -> (t: Self)
        ensures
            t.wf(),
            t.window_view() == Seq::<WindowView>::empty(),
            t.batches() == 0,
    {
        let t = SlidingTokenizer { window: Vec::new(), batch_count: 0 };
        proof {
            assert(t.window_view() =~= Seq::<WindowView>::empty());
        }
        t
    }

    /// The number of window entries and of batches encoded.
    pub fn stats(&self) -> (r: (usize, u64))
        ensures
            r.0 == self.window_view().len(),
            r.1 == self.batches(),
            self.wf() ==> r.0 <= MAX_WINDOW_ENTRIES,
    {
        (self.window.len(), self.batch_count)
    }

    /// The position recorded last for `key`. The index maps entry bytes to
    /// window positions; keyed by byte strings, a hash map would let
    /// nothing be proved of its lookups, so it is a vector of pairs
    /// searched from the end.
    fn lookup(idx: &Vec<(Vec<u8>, usize)>, key: &[u8]) -> (r: Option<usize>)
        ensures
            match index_find(idx_view(idx@), key@) {
                Some(i) => r == Some(i as usize),
                None => r is None,
            },
    {
        let ghost iv = idx_view(idx@);
        let mut k = idx.len();
        proof {
            assert(iv.take(k as int) =~= iv);
        }
        while k > 0
            invariant
                k <= idx@.len(),
                iv == idx_view(idx@),
                index_find(iv, key@) == index_find(iv.take(k as int), key@),
            decreases k,
        {
            k = k - 1;
            let ghost t = iv.take(k + 1);
            proof {
                assert(t.last() == iv[k as int]);
                assert(t.drop_last() =~= iv.take(k as int));
            }
            if crate::tokenizer::same_bytes(idx[k].0.as_slice(), key) {
                proof {
                    assert(iv[k as int].1 == idx@[k as int].1 as int);
                }
                return Some(idx[k].1);
            }
        }
        None
    }

    /// The replaceable entry of smallest saving, the first among equals.
    fn worst_entry(&self, min_value: u64, bc: u64) -> (r: Option<usize>)
        ensures
            match worst_among(self.window_view(), min_value as nat, bc as nat, self.window_view().len() as int) {
                Some(w) => r == Some(w as usize),
                None => r is None,
            },
    {
        let ghost wv = self.window_view();
        let mut best: Option<usize> = None;
        let mut k: usize = 0;
        while k < self.window.len()
            invariant
                k <= self.window@.len(),
                wv == self.window_view(),
                wv.len() == self.window@.len(),
                match worst_among(wv, min_value as nat, bc as nat, k as int) {
                    Some(w) => best == Some(w as usize),
                    None => best is None,
                },
            decreases self.window@.len() - k,
        {
            let e = &self.window[k];
            proof {
                assert(wv[k as int] == wview(self.window@[k as int]));
                lemma_worst_among_in(wv, min_value as nat, bc as nat, k as int);
            }
            let a = if bc > e.last_seen { bc - e.last_seen } else { 0 };
            if e.saving < min_value && a > 5 {
                let better = match best {
                    None => true,
                    Some(b) => {
                        proof {
                            assert(wv[b as int] == wview(self.window@[b as int]));
                        }
                        e.saving < self.window[b].saving
                    },
                };
                if better {
                    best = Some(k);
                }
            }
            k = k + 1;
        }
        best
    }

    /// Drop the entries that fail `kept` in batch `bc`.
    fn evict(&mut self, bc: u64)
        ensures
            final(self).window_view() == evicted(old(self).window_view(), bc as nat),
            final(self).batch_count == old(self).batch_count,
    {
        let ghost wv = self.window_view();
        let mut kept_entries: Vec<WindowEntry> = Vec::new();
        let mut k: usize = 0;
        while k < self.window.len()
            invariant
                k <= self.window@.len(),
                wv == wviews(self.window@),
                wviews(kept_entries@) == evicted(wv.take(k as int), bc as nat),
            decreases self.window@.len() - k,
        {
            let e = &self.window[k];
            let a = if bc > e.last_seen { bc - e.last_seen } else { 0 };
            let ghost before = kept_entries@;
            proof {
                assert(wv.take(k + 1).drop_last() =~= wv.take(k as int));
                assert(wv.take(k + 1).last() == wview(*e));
            }
            if a < EVICTION_AGE || e.cumulative_freq > 10 {
                let c = WindowEntry { bytes: slice_to_vec(e.bytes.as_slice()), cumulative_freq: e.cumulative_freq, last_seen: e.last_seen, saving: e.saving };
                kept_entries.push(c);
                proof {
                    assert(wviews(kept_entries@) =~= wviews(before).push(wview(c)));
                }
            } else {
                proof {
                    assert(wviews(kept_entries@) =~= wviews(before) + Seq::<WindowView>::empty());
                }
            }
            k = k + 1;
        }
        proof {
            assert(wv.take(self.window@.len() as int) =~= wv);
        }
        self.window = kept_entries;
    }
}

impl SlidingTokenizer {
    /// Merge a batch dictionary into the window in batch `bc`.
    fn update_window(&mut self, batch: &[DictEntry], bc: u64, Ghost(bnd): Ghost<nat>)
        requires
            old(self).wf(),
            batch@.len() <= MAX_WINDOW_ENTRIES,
            MAX_WINDOW_ENTRIES * bnd <= u64::MAX,
            forall|k: int| 0 <= k < batch@.len() ==> (#[trigger] batch@[k]).bytes@.len() <= 128 && batch@[k].freq <= bnd
                && batch@[k].saving <= bnd,
            forall|k: int| 0 <= k < old(self).window_view().len() ==> (#[trigger] old(self).window_view()[k]).1
                + MAX_WINDOW_ENTRIES * bnd <= u64::MAX,
            forall|k: int| 0 <= k < old(self).window_view().len() ==> (#[trigger] old(self).window_view()[k]).3
                + MAX_WINDOW_ENTRIES * bnd <= u64::MAX,
        ensures
            final(self).window_view() == merged(old(self).window_view(), entry_views(batch@), bc as nat).0,
            final(self).wf(),
            final(self).batch_count == old(self).batch_count,
    {
        let ghost win0 = self.window_view();
        let ghost bv = entry_views(batch@);
        let mut idx: Vec<(Vec<u8>, usize)> = Vec::new();
        let mut t: usize = 0;
        while t < self.window.len()
            invariant
                t <= self.window@.len(),
                win0 == wviews(self.window@),
                idx_view(idx@) == initial_index(win0).take(t as int),
            decreases self.window@.len() - t,
        {
            let b = slice_to_vec(self.window[t].bytes.as_slice());
            let ghost i0 = idx@;
            idx.push((b, t));
            proof {
                assert(idx_view(idx@) =~= idx_view(i0).push((b@, t as int)));
                assert(initial_index(win0).take(t + 1) =~= initial_index(win0).take(t as int).push((win0[t as int].0, t as int)));
            }
            t = t + 1;
        }
        proof {
            assert(initial_index(win0).take(win0.len() as int) =~= initial_index(win0));
            assert(bv.take(0) =~= Seq::<EntryView>::empty());
            assert((MAX_WINDOW_ENTRIES - 0) * bnd == MAX_WINDOW_ENTRIES * bnd);
        }
        let ghost mut slack: int = MAX_WINDOW_ENTRIES * bnd;
        let mut k: usize = 0;
        while k < batch.len()
            invariant
                k <= batch@.len() <= MAX_WINDOW_ENTRIES,
                bv == entry_views(batch@),
                MAX_WINDOW_ENTRIES * bnd <= u64::MAX,
                slack == (MAX_WINDOW_ENTRIES - k) * bnd,
                0 <= slack <= MAX_WINDOW_ENTRIES * bnd,
                win0.len() <= MAX_WINDOW_ENTRIES,
                forall|j: int| 0 <= j < win0.len() ==> (#[trigger] win0[j]).0.len() <= 128,
                forall|j: int| 0 <= j < batch@.len() ==> (#[trigger] batch@[j]).bytes@.len() <= 128 && batch@[j].freq <= bnd
                    && batch@[j].saving <= bnd,
                wviews(self.window@) == merged(win0, bv.take(k as int), bc as nat).0,
                idx_view(idx@) == merged(win0, bv.take(k as int), bc as nat).1,
                self.window@.len() <= MAX_WINDOW_ENTRIES,
                forall|j: int| 0 <= j < self.window@.len() ==> (#[trigger] wviews(self.window@)[j]).0.len() <= 128,
                forall|j: int| 0 <= j < idx@.len() ==> 0 <= (#[trigger] idx_view(idx@)[j]).1 < self.window@.len(),
                forall|j: int| 0 <= j < self.window@.len() ==> (#[trigger] wviews(self.window@)[j]).1 + slack <= u64::MAX,
                forall|j: int| 0 <= j < self.window@.len() ==> (#[trigger] wviews(self.window@)[j]).3 + slack <= u64::MAX,
                self.batch_count == old(self).batch_count,
            decreases batch@.len() - k,
        {
            let e = &batch[k];
            let ghost wv = wviews(self.window@);
            let ghost iv = idx_view(idx@);
            let ghost ev = bv[k as int];
            proof {
                assert(bv.take(k + 1).drop_last() =~= bv.take(k as int));
                assert(bv.take(k + 1).last() == ev);
                assert(ev == crate::tokenizer::dictionary::entry_view(*e));
                assert((MAX_WINDOW_ENTRIES - (k + 1)) * bnd == (MAX_WINDOW_ENTRIES - k) * bnd - bnd) by (nonlinear_arith);
                assert((MAX_WINDOW_ENTRIES - (k + 1)) * bnd >= 0) by (nonlinear_arith)
                    requires k < MAX_WINDOW_ENTRIES;
                assert(bnd <= slack) by (nonlinear_arith)
                    requires slack == (MAX_WINDOW_ENTRIES - k) * bnd, k < MAX_WINDOW_ENTRIES;
            }
            let found = Self::lookup(&idx, e.bytes.as_slice());
            match found {
                Some(i) => {
                    proof {
                        lemma_index_find_in(iv, ev.0, wv.len() as int);
                        assert(wv[i as int] == wview(self.window@[i as int]));
                    }
                    let old_e = &self.window[i];
                    let ne = WindowEntry {
                        bytes: slice_to_vec(old_e.bytes.as_slice()),
                        cumulative_freq: old_e.cumulative_freq + e.freq as u64,
                        last_seen: bc,
                        saving: old_e.saving + e.saving as u64,
                    };
                    self.window.set(i, ne);
                    proof {
                        assert(wviews(self.window@) =~= wv.update(i as int, wview(ne)));
                    }
                },
                None => {
                    if self.window.len() < MAX_WINDOW_ENTRIES {
                        let ne = WindowEntry {
                            bytes: slice_to_vec(e.bytes.as_slice()),
                            cumulative_freq: e.freq as u64,
                            last_seen: bc,
                            saving: e.saving as u64,
                        };
                        self.window.push(ne);
                        idx.push((slice_to_vec(e.bytes.as_slice()), self.window.len() - 1));
                        proof {
                            assert(wviews(self.window@) =~= wv.push(wview(ne)));
                            assert(idx_view(idx@) =~= iv.push((ev.0, wv.len() as int)));
                        }
                    } else {
                        let worst = self.worst_entry(e.saving as u64, bc);
                        match worst {
                            Some(w) => {
                                proof {
                                    lemma_worst_among_in(wv, ev.2, bc as nat, wv.len() as int);
                                }
                                let ne = WindowEntry {
                                    bytes: slice_to_vec(e.bytes.as_slice()),
                                    cumulative_freq: e.freq as u64,
                                    last_seen: bc,
                                    saving: e.saving as u64,
                                };
                                self.window.set(w, ne);
                                proof {
                                    assert(wviews(self.window@) =~= wv.update(w as int, wview(ne)));
                                }
                            },
                            None => {},
                        }
                    }
                },
            }
            proof {
                slack = slack - bnd;
            }
            k = k + 1;
        }
        proof {
            assert(bv.take(batch@.len() as int) =~= bv);
        }
    }
}

/// The batch dictionary of `buf`, as entry values.
pub open spec fn batch_ok(buf: Seq<u8>, bv: Seq<EntryView>) -> bool {
    exists|ad: Seq<DictEntry>| #[trigger] adaptive_ok(buf, ad) && entry_views(ad) == bv
}

/// `out` encodes `buf` in batch `bc`, starting from window `win0` and
/// leaving window `win1`, with batch dictionary `bv`, window entries `p1`
/// (ranked by saving) and second-pass entries `p2`.
pub open spec fn sliding_encoded_with(
    win0: Seq<WindowView>,
    bc: nat,
    buf: Seq<u8>,
    win1: Seq<WindowView>,
    out: Seq<u8>,
    bv: Seq<EntryView>,
    p1: Seq<EntryView>,
    p2: Seq<EntryView>,
) -> bool {
    &&& batch_ok(buf, bv)
    &&& win1 == window_after(win0, bv, bc)
    &&& ranked(active_views(win1), p1, win1.len())
    &&& pass2_chosen(buf, p1, p2)
    &&& encoding_with(buf, views_bytes(p1), views_bytes(p2), out)
}

/// `out` encodes `buf` in batch `bc` from window `win0`, leaving `win1`.
pub open spec fn sliding_encoded(win0: Seq<WindowView>, bc: nat, buf: Seq<u8>, win1: Seq<WindowView>, out: Seq<u8>) -> bool {
    exists|bv: Seq<EntryView>, p1: Seq<EntryView>, p2: Seq<EntryView>|
        #[trigger] sliding_encoded_with(win0, bc, buf, win1, out, bv, p1, p2)
}

/// Decoding what the sliding tokenizer wrote gives the batch back, in
/// whatever window state it was written.
pub proof fn lemma_sliding_roundtrip(win0: Seq<WindowView>, bc: nat, buf: Seq<u8>, win1: Seq<WindowView>, out: Seq<u8>)
    requires
        sliding_encoded(win0, bc, buf, win1, out),
    ensures
        tok_decode_spec(out) == Some(buf),
{
    let (bv, p1, p2) = choose|bv: Seq<EntryView>, p1: Seq<EntryView>, p2: Seq<EntryView>|
        #[trigger] sliding_encoded_with(win0, bc, buf, win1, out, bv, p1, p2);
    crate::tokenizer::lemma_container_roundtrip(buf, views_bytes(p1), views_bytes(p2), out);
}

/// `states` are a tokenizer's states over a run of encodes: the `i`th
/// encode takes batch `bufs[i]` from `states[i]` to `states[i + 1]`,
/// writing `outs[i]`.
pub open spec fn encode_run(states: Seq<SlidingTokenizer>, bufs: Seq<Seq<u8>>, outs: Seq<Seq<u8>>) -> bool {
    &&& states.len() == bufs.len() + 1
    &&& outs.len() == bufs.len()
    &&& forall|i: int| 0 <= i < bufs.len() ==> {
        &&& #[trigger] states[i + 1].batches() == states[i].batches() + 1
        &&& sliding_encoded(states[i].window_view(), states[i].batches() + 1, bufs[i], states[i + 1].window_view(), outs[i])
    }
}

/// Over a run of encodes from a new tokenizer, the batch count that
/// `stats` reports after `i` encodes is `i`, and every batch's output
/// decodes to the batch on its own.
pub proof fn lemma_encode_run(states: Seq<SlidingTokenizer>, bufs: Seq<Seq<u8>>, outs: Seq<Seq<u8>>)
    requires
        encode_run(states, bufs, outs),
        states[0].batches() == 0,
    ensures
        forall|i: int| 0 <= i < states.len() ==> #[trigger] states[i].batches() == i,
        forall|i: int| 0 <= i < bufs.len() ==> tok_decode_spec(#[trigger] outs[i]) == Some(bufs[i]),
    decreases bufs.len(),
{
    if bufs.len() > 0 {
        let n = bufs.len() - 1;
        let s0 = states.drop_last();
        let b0 = bufs.drop_last();
        let o0 = outs.drop_last();
        assert forall|i: int| 0 <= i < b0.len() implies {
            &&& #[trigger] s0[i + 1].batches() == s0[i].batches() + 1
            &&& sliding_encoded(s0[i].window_view(), s0[i].batches() + 1, b0[i], s0[i + 1].window_view(), o0[i])
        } by {
            assert(states[i + 1].batches() == states[i].batches() + 1);
        }
        lemma_encode_run(s0, b0, o0);
        assert(states[n + 1].batches() == states[n].batches() + 1);
        assert(s0[n].batches() == n);
        assert forall|i: int| 0 <= i < states.len() implies #[trigger] states[i].batches() == i by {
            if i < states.len() - 1 {
                assert(s0[i] == states[i]);
            }
        }
        assert forall|i: int| 0 <= i < bufs.len() implies tok_decode_spec(#[trigger] outs[i]) == Some(bufs[i]) by {
            assert(states[i + 1].batches() == states[i].batches() + 1);
            lemma_sliding_roundtrip(states[i].window_view(), states[i].batches() + 1, bufs[i], states[i + 1].window_view(), outs[i]);
        }
    }
}

/// A selected entry's frequency is at most its saving.
proof fn lemma_freq_le_saving(buf: Seq<u8>, ad: Seq<DictEntry>, k: int)
    requires
        buf.len() > 0,
        crate::tokenizer::dictionary::is_selection(crate::tokenizer::dictionary::freq_spec(buf), ad, crate::tokenizer::dictionary::MAX_ENTRIES as nat),
        0 <= k < ad.len(),
    ensures
        ad[k].freq <= ad[k].saving,
{
    let cands = crate::tokenizer::dictionary::freq_spec(buf);
    assert(crate::tokenizer::dictionary::entry_from(cands, ad[k]));
    let q = choose|q: int| 0 <= q < cands.len() && crate::tokenizer::dictionary::cand_ok(cands[q].0, cands[q].1)
        && #[trigger] cands[q].0 == ad[k].bytes@ && cands[q].1 == ad[k].freq
        && ad[k].saving == crate::tokenizer::dictionary::saving_of(cands[q].0, cands[q].1);
    let w = cands[q].0.len() - 2;
    let c = cands[q].1;
    assert(w * c >= c) by (nonlinear_arith)
        requires w >= 1, c >= 0;
}

impl SlidingTokenizer {
    /// The window's entries as dictionary entries, ranked by saving.
    fn active_entries(&self) -> (r: Vec<DictEntry>)
        ensures
            ranked(active_views(self.window_view()), entry_views(r@), self.window_view().len()),
    {
        let ghost wv = self.window_view();
        let mut combined: Vec<DictEntry> = Vec::new();
        let mut k: usize = 0;
        while k < self.window.len()
            invariant
                k <= self.window@.len(),
                wv == wviews(self.window@),
                entry_views(combined@) == active_views(wv).take(k as int),
            decreases self.window@.len() - k,
        {
            let e = &self.window[k];
            let d = DictEntry { bytes: slice_to_vec(e.bytes.as_slice()), freq: e.cumulative_freq as usize, saving: e.saving as usize };
            let ghost before = combined@;
            combined.push(d);
            proof {
                assert(wv[k as int] == wview(*e));
                assert(entry_views(combined@) =~= entry_views(before).push(crate::tokenizer::dictionary::entry_view(d)));
                assert(active_views(wv).take(k + 1) =~= active_views(wv).take(k as int).push(active_views(wv)[k as int]));
            }
            k = k + 1;
        }
        proof {
            assert(active_views(wv).take(wv.len() as int) =~= active_views(wv));
        }
        let n = combined.len();
        crate::tokenizer::rank_by_saving(&combined, n)
    }

    /// Encode a batch with the window's accumulated entries, after merging
    /// the batch's own dictionary into the window.
    pub fn encode(&mut self, buf: &[u8]) -> (out: Vec<u8>)
        requires
            old(self).wf(),
            old(self).counters_fit(buf@.len()),
            buf@.len() <= u32::MAX,
            buf@.len() * 128 <= usize::MAX,
        ensures
            final(self).wf(),
            final(self).batches() == old(self).batches() + 1,
            sliding_encoded(old(self).window_view(), old(self).batches() + 1, buf@, final(self).window_view(), out@),
    {
        let ghost win0 = self.window_view();
        self.batch_count = self.batch_count + 1;
        let bc = self.batch_count;
        let batch_entries = crate::tokenizer::dictionary::build(buf);
        let ghost ad = batch_entries@;
        let ghost bv = entry_views(ad);
        let ghost bnd: nat = 128 * buf@.len();
        proof {
            assert(self.window_view() == win0);
            assert forall|k: int| 0 <= k < ad.len() implies (#[trigger] ad[k]).bytes@.len() <= 128 && ad[k].freq <= bnd
                && ad[k].saving <= bnd by {
                lemma_freq_le_saving(buf@, ad, k);
            }
            assert(adaptive_ok(buf@, ad));
            assert(batch_ok(buf@, bv));
            assert(MAX_WINDOW_ENTRIES * bnd == MAX_WINDOW_ENTRIES * 128 * buf@.len()) by (nonlinear_arith)
                requires
                    bnd == 128 * buf@.len(),
                    MAX_WINDOW_ENTRIES == 200;
            assert(MAX_WINDOW_ENTRIES * bnd <= u64::MAX) by (nonlinear_arith)
                requires
                    bnd == 128 * buf@.len(),
                    buf@.len() <= u32::MAX,
                    MAX_WINDOW_ENTRIES == 200;
            assert forall|k: int| 0 <= k < self.window_view().len() implies (#[trigger] self.window_view()[k]).1
                + MAX_WINDOW_ENTRIES * bnd <= u64::MAX && self.window_view()[k].3 + MAX_WINDOW_ENTRIES * bnd <= u64::MAX by {
                assert(win0[k] == self.window_view()[k]);
            }
        }
        self.update_window(batch_entries.as_slice(), bc, Ghost(bnd));
        let ghost win_m = self.window_view();
        self.evict(bc);
        let ghost win1 = self.window_view();
        proof {
            lemma_merged_shape(win0, bv, bc as nat, 128);
            lemma_evicted_shape(win_m, bc as nat, 128);
            assert(win1 == window_after(win0, bv, bc as nat));
        }
        let active = self.active_entries();
        let ghost p1v = entry_views(active@);
        proof {
            crate::tokenizer::lemma_entry_bytes_views(active@);
            let perm = choose|perm: Seq<int>| #[trigger] crate::tokenizer::ranked_by(active_views(win1), p1v, win1.len(), perm);
            assert forall|k: int| 0 <= k < p1v.len() implies (#[trigger] p1v[k]).0.len() <= 128 by {
                assert(p1v[k] == active_views(win1)[perm[k]]);
                assert(0 <= perm[k] < win1.len());
            }
        }
        let tokenized1 = crate::tokenizer::codon::encode(buf, active.as_slice());
        let residual = crate::tokenizer::dictionary::extract_residual(tokenized1.as_slice());
        proof {
            crate::tokenizer::lemma_encode_residual_len(buf@, crate::tokenizer::dictionary::entry_bytes(active@), 0);
        }
        let pass2 = crate::tokenizer::dictionary::build_second_pass(residual.as_slice(), active.len());
        let ghost p2v = entry_views(pass2@);
        proof {
            crate::tokenizer::lemma_entry_bytes_views(pass2@);
            if !(residual@.len() == 0 || active@.len() >= crate::tokenizer::dictionary::MAX_ENTRIES) {
                assert(crate::tokenizer::dictionary::is_selection(
                    crate::tokenizer::dictionary::freq_spec(residual@),
                    pass2@,
                    (crate::tokenizer::dictionary::MAX_ENTRIES - active@.len()) as nat,
                ));
            }
            assert(pass2_chosen(buf@, p1v, p2v));
        }
        let tokenized2 = if pass2.len() == 0 {
            tokenized1
        } else {
            apply_pass2_sliding(tokenized1.as_slice(), pass2.as_slice(), active.len())
        };
        let mut all: Vec<DictEntry> = Vec::new();
        let mut k: usize = 0;
        while k < active.len()
            invariant
                k <= active@.len(),
                entry_views(all@) == p1v.take(k as int),
                p1v == entry_views(active@),
            decreases active@.len() - k,
        {
            let e = active[k].duplicate();
            let ghost m0 = all@;
            all.push(e);
            proof {
                assert(entry_views(all@) =~= entry_views(m0).push(crate::tokenizer::dictionary::entry_view(e)));
                assert(entry_views(all@) =~= p1v.take(k + 1));
            }
            k = k + 1;
        }
        let mut k: usize = 0;
        while k < pass2.len()
            invariant
                k <= pass2@.len(),
                p1v.len() == active@.len(),
                entry_views(all@) == p1v + p2v.take(k as int),
                p2v == entry_views(pass2@),
            decreases pass2@.len() - k,
        {
            let e = pass2[k].duplicate();
            let ghost m0 = all@;
            all.push(e);
            proof {
                assert(entry_views(all@) =~= entry_views(m0).push(crate::tokenizer::dictionary::entry_view(e)));
                assert(entry_views(all@) =~= p1v + p2v.take(k + 1));
            }
            k = k + 1;
        }
        let ghost mv = entry_views(all@);
        proof {
            assert(p1v.take(p1v.len() as int) =~= p1v);
            assert(p2v.take(p2v.len() as int) =~= p2v);
            crate::tokenizer::lemma_entry_bytes_views(all@);
            assert(views_bytes(mv) =~= views_bytes(p1v) + views_bytes(p2v));
        }
        let header = crate::tokenizer::dictionary::serialize(all.as_slice());
        let mut out: Vec<u8> = Vec::new();
        out.push(TOK_MAGIC[0]);
        out.push(TOK_MAGIC[1]);
        out.push(TOK_MAGIC[2]);
        out.push(TOK_MAGIC[3]);
        crate::bytes::append_bytes(&mut out, header.as_slice());
        crate::bytes::push_le32(&mut out, buf.len() as u32);
        crate::bytes::append_bytes(&mut out, tokenized2.as_slice());
        proof {
            let p1 = views_bytes(p1v);
            let p2 = views_bytes(p2v);
            assert(p1 + p2 =~= crate::tokenizer::dictionary::entry_bytes(all@));
            assert forall|j: int| 0 <= j < (p1 + p2).len() implies (#[trigger] (p1 + p2)[j]).len() <= 255 by {
                assert((p1 + p2)[j] == mv[j].0);
                if j < p1v.len() {
                    assert(mv[j] == p1v[j]);
                } else {
                    assert(mv[j] == p2v[j - p1v.len()]);
                    assert(pass2@[j - p1v.len()].bytes@.len() <= 128);
                }
            }
            assert(tokenized2@ == body_spec(buf@, p1, p2));
            assert(out@ =~= crate::tokenizer::tok_container(p1 + p2, buf@.len() as u32, body_spec(buf@, p1, p2)));
            assert(sliding_encoded_with(win0, bc as nat, buf@, win1, out@, bv, p1v, p2v));
        }
        out
    }

    /// Decode a container; the dictionary travels in it, so no window is
    /// needed. A buffer without the magic passes through.
    pub fn decode(buf: &[u8]) -> (r: Result<Vec<u8>, String>)
        ensures
            match tok_decode_spec(buf@) {
                Some(d) => r matches Ok(v) && v@ == d,
                None => r is Err,
            },
            buf@.len() < 4 ==> (r matches Err(e) && e@ == "sliding: too short"@),
    {
        if buf.len() < 4 {
            return Err(String::from_str("sliding: too short"));
        }
        if !(buf[0] == TOK_MAGIC[0] && buf[1] == TOK_MAGIC[1] && buf[2] == TOK_MAGIC[2] && buf[3] == TOK_MAGIC[3]) {
            proof {
                if buf@.take(4) == tok_magic() {
                    assert(buf@.take(4)[0] == buf@[0] && buf@.take(4)[1] == buf@[1]);
                    assert(buf@.take(4)[2] == buf@[2] && buf@.take(4)[3] == buf@[3]);
                }
            }
            return Ok(slice_to_vec(buf));
        }
        proof {
            assert(buf@.take(4) =~= tok_magic());
        }
        let rest = vstd::slice::slice_subrange(buf, 4, buf.len());
        proof {
            assert(rest@ =~= buf@.skip(4));
        }
        let (entries, dict_end) = match crate::tokenizer::dictionary::deserialize(rest) {
            Ok(v) => v,
            Err(e) => {
                return Err(dictionary_error_message(e));
            },
        };
        let header_end = 4 + dict_end;
        if header_end > buf.len() || buf.len() - header_end < 4 {
            return Err(String::from_str("sliding: truncated"));
        }
        let original_len = crate::bytes::read_le32(buf, header_end) as usize;
        let tokenized = vstd::slice::slice_subrange(buf, header_end + 4, buf.len());
        proof {
            assert(tokenized@ =~= buf@.skip(header_end + 4));
        }
        let decoded = crate::tokenizer::codon::decode(tokenized, entries.as_slice());
        if decoded.len() != original_len {
            return Err(length_mismatch_message(decoded.len(), original_len));
        }
        Ok(decoded)
    }
}

impl Default for SlidingTokenizer {
    fn default() -> (t: Self)
        ensures
            t.wf(),
            t.window_view() == Seq::<WindowView>::empty(),
            t.batches() == 0,
    {
        Self::new()
    }
}

/// The second-pass rewrite of a window-tokenized buffer: the same
/// rewrite as the two-pass tokenizer's.
fn apply_pass2_sliding(buf: &[u8], pass2: &[DictEntry], pass1_count: usize) -> (out: Vec<u8>)
    requires
        pass1_count + pass2@.len() <= 255,
    ensures
        out@ == crate::tokenizer::apply_spec(buf@, crate::tokenizer::dictionary::entry_bytes(pass2@), pass1_count as int),
{
    crate::tokenizer::apply_pass2(buf, pass2, pass1_count)
}

/// `format!` of the dictionary's message behind a prefix.
#[verifier::external_body]
fn dictionary_error_message(e: String) -> (m: String)
    ensures
        m@ == "sliding: "@ + e@,
{
    format!("sliding: {e}")
}

/// `format!` of the two lengths in decimal.
#[verifier::external_body]
fn length_mismatch_message(got: usize, expected: usize) -> (m: String)
    ensures
        m@ == "sliding: len mismatch "@ + crate::text::decimal(got as nat) + " vs "@ + crate::text::decimal(expected as nat),
{
    format!("sliding: len mismatch {} vs {}", got, expected)
}

} // verus!
