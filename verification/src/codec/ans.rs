//! Range ANS entropy coder over 2048-slot frequency tables.
//!
//! Order-0 byte-renormalizing, order-0 bit-renormalizing and order-1
//! (previous-byte context) variants. The encoder runs over the input
//! backwards, so the decoder recovers it front to back. Renormalization keeps
//! the byte coder's state in `[total, 256 * total)` before each step.

use vstd::prelude::*;
use crate::tokenizer::dictionary::sort_desc;

verus! {

/// The table size: every normalized table's frequencies sum to this.
const M: u32 = 2048;

#[derive(Debug, Clone)]
pub struct FreqTable {
    pub freq: [u32; 256],
    pub cumsum: [u32; 257],
    pub total: u32,
}

// ---------------------------------------------------------------------------
// Normalization
// ---------------------------------------------------------------------------

/// Occurrences of the byte `b` in `s`.
pub open spec fn occ(s: Seq<u8>, b: int) -> nat
    decreases s.len(),
{
    if s.len() == 0 {
        0
    } else {
        occ(s.drop_last(), b) + if s.last() as int == b { 1nat } else { 0nat }
    }
}

/// The occurrence count of every byte value.
pub open spec fn byte_counts(s: Seq<u8>) -> Seq<int> {
    Seq::new(256, |b: int| occ(s, b) as int)
}

/// `2048 * raw / n` rounded to the nearest integer, halves rounded up.
pub open spec fn round_share(raw: int, n: int) -> int {
    (4096 * raw + n) / (2 * n)
}

/// The rounded share of a symbol: none for an absent symbol, at least one
/// slot for a present one.
pub open spec fn rounded_freq(raw: int, n: int) -> int {
    if raw == 0 {
        0
    } else if round_share(raw, n) < 1 {
        1
    } else {
        round_share(raw, n)
    }
}

pub open spec fn sum_of(s: Seq<int>) -> int
    decreases s.len(),
{
    if s.len() == 0 {
        0
    } else {
        sum_of(s.drop_last()) + s.last()
    }
}

/// `order` lists each present symbol once, in non-increasing count.
pub open spec fn is_raw_order(raw: Seq<int>, order: Seq<int>) -> bool {
    &&& forall|p: int| 0 <= p < order.len() ==> 0 <= #[trigger] order[p] < 256 && raw[order[p]] > 0
    &&& forall|a: int, b: int| 0 <= a < b < order.len() ==> #[trigger] order[a] != #[trigger] order[b]
    &&& forall|s: int| 0 <= s < 256 && raw[s] > 0 ==> #[trigger] order.contains(s)
    &&& forall|a: int, b: int| 0 <= a < b < order.len() ==> raw[#[trigger] order[a]] >= raw[#[trigger] order[b]]
}

/// The excess still to be removed before position `p` of `order`, when the
/// symbols are brought down towards one slot each in order.
pub open spec fn drain(rounded: Seq<int>, order: Seq<int>, need: int, p: int) -> int
    decreases p,
{
    if p <= 0 {
        need
    } else {
        let d = drain(rounded, order, need, p - 1);
        let c = rounded[order[p - 1]] - 1;
        d - if c < d { c } else { d }
    }
}

/// The final share of the symbol at position `p` of `order`: a shortfall
/// `diff` is spread one slot at a time round the order; an excess is taken
/// from the first symbols of the order, down to one slot each.
pub open spec fn share_at(rounded: Seq<int>, order: Seq<int>, diff: int, p: int) -> int {
    let r = rounded[order[p]];
    let l = order.len() as int;
    if diff >= 0 {
        r + diff / l + if p < diff % l { 1int } else { 0int }
    } else {
        let d = drain(rounded, order, -diff, p);
        r - if r - 1 < d { r - 1 } else { d }
    }
}

/// The rounded shares of the counts `raw` of `n` items.
pub open spec fn rounded_seq(raw: Seq<int>, n: int) -> Seq<int> {
    Seq::new(256, |s: int| rounded_freq(raw[s], n))
}

/// `freq` normalizes the counts `raw` of `n` items with the symbol order
/// `order`.
pub open spec fn normalized_by(raw: Seq<int>, n: int, freq: Seq<int>, order: Seq<int>) -> bool {
    let rounded = rounded_seq(raw, n);
    let diff = 2048 - sum_of(rounded);
    &&& is_raw_order(raw, order)
    &&& freq.len() == 256
    &&& forall|s: int| 0 <= s < 256 && raw[s] == 0 ==> freq[s] == 0
    &&& forall|p: int| 0 <= p < order.len() ==> freq[#[trigger] order[p]] == share_at(rounded, order, diff, p)
}

/// `freq` normalizes the counts `raw` of `n` items to 2048 slots: each
/// present symbol gets its rounded share (at least one), and the rounding
/// error is spread over the symbols in non-increasing count; symbols of
/// equal count may come in any order. Nothing for no items.
pub open spec fn normalized(raw: Seq<int>, n: int, freq: Seq<int>) -> bool {
    if n == 0 {
        freq.len() == 256 && forall|s: int| 0 <= s < 256 ==> freq[s] == 0
    } else {
        exists|order: Seq<int>| #[trigger] normalized_by(raw, n, freq, order)
    }
}

/// The frequencies of a table as integers.
pub open spec fn freq_view(t: FreqTable) -> Seq<int> {
    t.freq@.map_values(|f: u32| f as int)
}

/// The cumulative sums and total of a table agree with its frequencies.
pub open spec fn table_wf(t: FreqTable) -> bool {
    &&& t.cumsum@[0] == 0
    &&& forall|s: int| 0 <= s < 256 ==> #[trigger] t.cumsum@[s + 1] == t.cumsum@[s] + t.freq@[s]
    &&& t.total == t.cumsum@[256]
}

/// A table that codes: well formed, 2048 slots in all.
pub open spec fn table_full(t: FreqTable) -> bool {
    table_wf(t) && t.total == 2048
}

/// Replacing one element changes the sum by the difference.
pub proof fn lemma_sum_update(s: Seq<int>, i: int, v: int)
    requires
        0 <= i < s.len(),
    ensures
        sum_of(s.update(i, v)) == sum_of(s) - s[i] + v,
    decreases s.len(),
{
    if i < s.len() - 1 {
        lemma_sum_update(s.drop_last(), i, v);
        assert(s.update(i, v).drop_last() =~= s.drop_last().update(i, v));
    } else {
        assert(s.update(i, v).drop_last() =~= s.drop_last());
    }
}

proof fn lemma_sum_bounded(s: Seq<int>, b: int)
    requires
        forall|k: int| 0 <= k < s.len() ==> 0 <= #[trigger] s[k] <= b,
    ensures
        0 <= sum_of(s) <= s.len() * b,
    decreases s.len(),
{
    if s.len() > 0 {
        let n = s.len() as int;
        lemma_sum_bounded(s.drop_last(), b);
        assert(s.drop_last().len() == n - 1);
        assert((n - 1) * b + b == n * b) by (nonlinear_arith);
        assert(sum_of(s) == sum_of(s.drop_last()) + s.last());
        assert(0 <= s[n - 1] <= b);
        assert(sum_of(s.drop_last()) <= (n - 1) * b);
    } else {
        let n = s.len() as int;
        assert(n * b == 0) by (nonlinear_arith)
            requires n == 0;
    }
}

proof fn lemma_sum_prefix(s: Seq<int>, k: int)
    requires
        0 <= k <= s.len(),
        forall|j: int| 0 <= j < s.len() ==> 0 <= #[trigger] s[j],
    ensures
        0 <= sum_of(s.take(k)) <= sum_of(s),
    decreases s.len(),
{
    if k == s.len() {
        assert(s.take(k) =~= s);
        lemma_sum_nonneg(s);
    } else {
        lemma_sum_prefix(s.drop_last(), k);
        assert(s.drop_last().take(k) =~= s.take(k));
    }
}

proof fn lemma_sum_nonneg(s: Seq<int>)
    requires
        forall|j: int| 0 <= j < s.len() ==> 0 <= #[trigger] s[j],
    ensures
        0 <= sum_of(s),
    decreases s.len(),
{
    if s.len() > 0 {
        lemma_sum_nonneg(s.drop_last());
    }
}


/// The counts of an array as integers.
pub open spec fn raw_view(raw: [u32; 256]) -> Seq<int> {
    raw@.map_values(|x: u32| x as int)
}

/// The table of all-zero frequencies.
fn empty_table() -> (t: FreqTable)
    ensures
        table_wf(t),
        t.total == 0,
        forall|s: int| 0 <= s < 256 ==> t.freq@[s] == 0,
{
    let t = FreqTable { freq: [0u32; 256], cumsum: [0u32; 257], total: 0 };
    assert forall|s: int| 0 <= s < 256 implies #[trigger] t.cumsum@[s + 1] == t.cumsum@[s] + t.freq@[s] by {
        assert(t.cumsum@[s + 1] == 0 && t.cumsum@[s] == 0 && t.freq@[s] == 0);
    }
    t
}

/// The symbols present in `raw` ordered by non-increasing count.
fn raw_order(raw: &[u32; 256]) -> (order: Vec<usize>)
    ensures
        is_raw_order(raw_view(*raw), order@.map_values(|x: usize| x as int)),
{
    broadcast use vstd::seq_lib::group_to_multiset_ensures;
    let ghost rv = raw_view(*raw);
    let mut keys: Vec<usize> = Vec::new();
    let mut idx: Vec<usize> = Vec::new();
    let mut s: usize = 0;
    while s < 256
        invariant
            s <= 256,
            rv == raw_view(*raw),
            keys@.len() == s,
            forall|a: int| 0 <= a < s ==> #[trigger] keys@[a] as int == rv[a],
            forall|a: int| 0 <= a < idx@.len() ==> (#[trigger] idx@[a]) < s && rv[idx@[a] as int] > 0,
            forall|a: int, b: int| 0 <= a < b < idx@.len() ==> #[trigger] idx@[a] < #[trigger] idx@[b],
            forall|t: int| 0 <= t < s && rv[t] > 0 ==> idx@.contains(t as usize),
        decreases 256 - s,
    {
        keys.push(raw[s] as usize);
        if raw[s] > 0 {
            let ghost i0 = idx@;
            idx.push(s);
            proof {
                assert(idx@[i0.len() as int] == s);
                assert forall|t: int| 0 <= t < s + 1 && rv[t] > 0 implies idx@.contains(t as usize) by {
                    if t < s {
                        let w = choose|w: int| 0 <= w < i0.len() && i0[w] == t as usize;
                        assert(idx@[w] == i0[w]);
                    }
                }
            }
        }
        s = s + 1;
    }
    proof {
        assert(idx@.no_duplicates()) by {
            assert forall|a: int, b: int| 0 <= a < idx@.len() && 0 <= b < idx@.len() && a != b implies idx@[a] != idx@[b] by {
                if a < b {
                    assert(idx@[a] < idx@[b]);
                } else {
                    assert(idx@[b] < idx@[a]);
                }
            }
        }
        idx@.lemma_multiset_has_no_duplicates();
        assert forall|a: int| 0 <= a < idx@.len() implies (#[trigger] idx@[a]) < keys@.len() by {}
    }
    let ghost idx0 = idx@;
    let sorted = sort_desc(&keys, idx);
    let ghost ord = sorted@.map_values(|x: usize| x as int);
    proof {
        assert forall|x: usize| sorted@.to_multiset().contains(x) implies sorted@.to_multiset().count(x) == 1 by {
            assert(idx0.to_multiset().contains(x));
        }
        sorted@.lemma_multiset_has_no_duplicates_conv();
        assert forall|p: int| 0 <= p < ord.len() implies 0 <= #[trigger] ord[p] < 256 && rv[ord[p]] > 0 by {
            assert(sorted@.to_multiset().count(sorted@[p]) > 0);
            assert(idx0.to_multiset().count(sorted@[p]) > 0);
            assert(idx0.contains(sorted@[p]));
        }
        assert forall|a: int, b: int| 0 <= a < b < ord.len() implies #[trigger] ord[a] != #[trigger] ord[b] by {
            assert(sorted@[a] != sorted@[b]);
        }
        assert forall|t: int| 0 <= t < 256 && rv[t] > 0 implies #[trigger] ord.contains(t) by {
            assert(idx0.contains(t as usize));
            assert(idx0.to_multiset().count(t as usize) > 0);
            assert(sorted@.to_multiset().count(t as usize) > 0);
            assert(sorted@.contains(t as usize));
            let w = choose|w: int| 0 <= w < sorted@.len() && sorted@[w] == t as usize;
            assert(ord[w] == t);
        }
        assert forall|a: int, b: int| 0 <= a < b < ord.len() implies rv[#[trigger] ord[a]] >= rv[#[trigger] ord[b]] by {
            assert(keys@[sorted@[a] as int] >= keys@[sorted@[b] as int]);
        }
    }
    sorted
}


proof fn lemma_entry_le_sum(s: Seq<int>, i: int)
    requires
        0 <= i < s.len(),
        forall|j: int| 0 <= j < s.len() ==> 0 <= #[trigger] s[j],
    ensures
        s[i] <= sum_of(s),
    decreases s.len(),
{
    if i < s.len() - 1 {
        lemma_entry_le_sum(s.drop_last(), i);
    } else {
        lemma_sum_nonneg(s.drop_last());
    }
}

proof fn lemma_round_share_bound(r: int, n: int)
    requires
        0 < r <= n,
    ensures
        0 <= round_share(r, n) <= 2048,
{
    assert((4096 * r + n) / (2 * n) <= 2048) by (nonlinear_arith)
        requires 0 < r <= n;
    assert((4096 * r + n) / (2 * n) >= 0) by (nonlinear_arith)
        requires 0 < r <= n;
}

/// Normalize the counts `raw` of `n` items to a 2048-slot table.
fn normalize(raw: &[u32; 256], n: u64) -> (t: FreqTable)
    requires
        n <= 0x1_0000_0000_0000,
        forall|s: int| 0 <= s < 256 ==> raw@[s] <= n,
        n > 0 ==> exists|s: int| 0 <= s < 256 && raw@[s] > 0,
    ensures
        table_wf(t),
        normalized(raw_view(*raw), n as int, freq_view(t)),
        n > 0 ==> t.total == 2048,
        forall|s: int| 0 <= s < 256 ==> (#[trigger] t.freq@[s] > 0 <==> (n > 0 && raw@[s] > 0)),
{
    if n == 0 {
        let t = empty_table();
        assert(freq_view(t).len() == 256);
        return t;
    }
    let ghost rv = raw_view(*raw);
    let ghost rounded = rounded_seq(rv, n as int);
    let mut freq: [u32; 256] = [0u32; 256];
    let mut total: u64 = 0;
    let mut s: usize = 0;
    proof {
        assert(rounded.take(0) =~= Seq::<int>::empty());
    }
    while s < 256
        invariant
            s <= 256,
            0 < n <= 0x1_0000_0000_0000,
            rv == raw_view(*raw),
            rounded == rounded_seq(rv, n as int),
            forall|t: int| 0 <= t < 256 ==> raw@[t] <= n,
            forall|t: int| 0 <= t < s ==> #[trigger] freq@[t] as int == rounded[t],
            forall|t: int| s <= t < 256 ==> #[trigger] freq@[t] == 0,
            total == sum_of(rounded.take(s as int)),
            total <= s * 2048,
        decreases 256 - s,
    {
        let ghost f0 = freq@;
        proof {
            assert(rounded.take(s + 1).drop_last() =~= rounded.take(s as int));
            assert(rounded.take(s + 1).last() == rounded[s as int]);
        }
        if raw[s] != 0 {
            let r = raw[s] as u64;
            proof {
                lemma_round_share_bound(r as int, n as int);
            }
            let f = (4096 * r + n) / (2 * n);
            let fq: u32 = if f < 1 { 1 } else { f as u32 };
            freq[s] = fq;
            total = total + fq as u64;
        }
        proof {
            assert forall|t: int| 0 <= t < s + 1 implies #[trigger] freq@[t] as int == rounded[t] by {
                if t < s {
                    assert(freq@[t] == f0[t]);
                }
            }
        }
        s = s + 1;
    }
    proof {
        assert(rounded.take(256) =~= rounded);
    }
    let diff: i64 = 2048 - total as i64;
    let order = raw_order(raw);
    let ghost ordv = order@.map_values(|x: usize| x as int);
    let l = order.len();
    let ghost fv0 = freq@.map_values(|f: u32| f as int);
    proof {
        assert(fv0 =~= rounded);
        let w = choose|w: int| 0 <= w < 256 && raw@[w] > 0;
        assert(rv[w] > 0);
        assert(ordv.contains(w));
        assert(l >= 1);
    }
    if diff > 0 {
        let mut rem: i64 = diff;
        let mut r: usize = 0;
        let ghost mut q: int = 0;
        while rem > 0
            invariant
                1 <= l,
                l == ordv.len(),
                ordv == order@.map_values(|x: usize| x as int),
                is_raw_order(rv, ordv),
                0 <= r < l,
                0 <= q,
                0 <= rem <= diff,
                diff - rem == q * l + r,
                forall|p: int| 0 <= p < l ==> #[trigger] freq@[ordv[p]] as int == rounded[ordv[p]] + q + if p < r { 1int } else { 0int },
                forall|t: int| 0 <= t < 256 && rv[t] == 0 ==> #[trigger] freq@[t] == 0,
                sum_of(freq@.map_values(|f: u32| f as int)) == 2048 - rem,
            decreases rem,
        {
            let o = order[r];
            let ghost fv = freq@.map_values(|f: u32| f as int);
            proof {
                assert(ordv[r as int] == o);
                assert forall|j: int| 0 <= j < fv.len() implies 0 <= #[trigger] fv[j] by {}
                lemma_entry_le_sum(fv, o as int);
            }
            freq[o] = freq[o] + 1;
            proof {
                assert(freq@.map_values(|f: u32| f as int) =~= fv.update(o as int, fv[o as int] + 1));
                lemma_sum_update(fv, o as int, fv[o as int] + 1);
            }
            rem = rem - 1;
            let ghost r0 = r;
            let ghost q0 = q;
            r = r + 1;
            if r == l {
                r = 0;
                proof {
                    q = q + 1;
                }
            }
            proof {
                assert forall|p: int| 0 <= p < l implies #[trigger] freq@[ordv[p]] as int == rounded[ordv[p]] + q + if p < r { 1int } else { 0int } by {
                    if p != r0 {
                        assert(ordv[p] != ordv[r0 as int]);
                    }
                }
                assert((q0 * l + r0 + 1) == q * l + r) by (nonlinear_arith)
                    requires (r0 + 1 < l && q == q0 && r == r0 + 1) || (r0 + 1 == l && q == q0 + 1 && r == 0);
            }
        }
        proof {
            vstd::arithmetic::div_mod::lemma_fundamental_div_mod_converse(diff as int, l as int, q, r as int);
            assert(diff as int == 2048 - sum_of(rounded));
            assert forall|p: int| 0 <= p < l implies #[trigger] freq@[ordv[p]] as int == share_at(rounded, ordv, diff as int, p) by {}
        }
    } else if diff < 0 {
        let mut need: i64 = -diff;
        let ghost need0 = need as int;
        let mut p: usize = 0;
        while p < l
            invariant
                1 <= l,
                l == ordv.len(),
                ordv == order@.map_values(|x: usize| x as int),
                is_raw_order(rv, ordv),
                p <= l,
                need0 == -diff,
                0 <= need <= need0,
                need as int == drain(rounded, ordv, need0, p as int),
                forall|j: int| 0 <= j < p ==> #[trigger] freq@[ordv[j]] as int == rounded[ordv[j]] - if rounded[ordv[j]] - 1 < drain(rounded, ordv, need0, j) {
                    rounded[ordv[j]] - 1
                } else {
                    drain(rounded, ordv, need0, j)
                },
                forall|j: int| p <= j < l ==> #[trigger] freq@[ordv[j]] as int == rounded[ordv[j]],
                need > 0 ==> forall|j: int| 0 <= j < p ==> #[trigger] freq@[ordv[j]] == 1,
                forall|t: int| 0 <= t < 256 && rv[t] == 0 ==> #[trigger] freq@[t] == 0,
                forall|t: int| 0 <= t < 256 && rv[t] > 0 ==> #[trigger] rounded[t] >= 1,
                sum_of(freq@.map_values(|f: u32| f as int)) == 2048 + need,
            decreases l - p,
        {
            let o = order[p];
            let ghost fv = freq@.map_values(|f: u32| f as int);
            proof {
                assert(ordv[p as int] == o);
                assert(rv[o as int] > 0);
            }
            let c = freq[o] - 1;
            let take: u32 = if (c as i64) < need { c } else { need as u32 };
            freq[o] = freq[o] - take;
            need = need - take as i64;
            proof {
                assert(freq@.map_values(|f: u32| f as int) =~= fv.update(o as int, fv[o as int] - take));
                lemma_sum_update(fv, o as int, fv[o as int] - take);
                assert forall|j: int| 0 <= j < p + 1 implies #[trigger] freq@[ordv[j]] as int == rounded[ordv[j]] - if rounded[ordv[j]] - 1 < drain(rounded, ordv, need0, j) {
                    rounded[ordv[j]] - 1
                } else {
                    drain(rounded, ordv, need0, j)
                } by {
                    if j < p {
                        assert(ordv[j] != ordv[p as int]);
                    }
                }
                assert forall|j: int| p + 1 <= j < l implies #[trigger] freq@[ordv[j]] as int == rounded[ordv[j]] by {
                    assert(ordv[j] != ordv[p as int]);
                }
                if need > 0 {
                    assert forall|j: int| 0 <= j < p + 1 implies #[trigger] freq@[ordv[j]] == 1 by {
                        if j < p {
                            assert(ordv[j] != ordv[p as int]);
                        }
                    }
                }
            }
            p = p + 1;
        }
        proof {
            if need > 0 {
                let fv = freq@.map_values(|f: u32| f as int);
                assert forall|t: int| 0 <= t < fv.len() implies 0 <= #[trigger] fv[t] <= 1 by {
                    if rv[t] > 0 {
                        assert(ordv.contains(t));
                        let w = choose|w: int| 0 <= w < ordv.len() && ordv[w] == t;
                        assert(freq@[ordv[w]] == 1);
                    }
                }
                lemma_sum_bounded(fv, 1);
                assert(false);
            }
            assert forall|j: int| 0 <= j < l implies #[trigger] freq@[ordv[j]] as int == share_at(rounded, ordv, diff as int, j) by {}
        }
    } else {
        proof {
            assert forall|j: int| 0 <= j < l implies #[trigger] freq@[ordv[j]] as int == share_at(rounded, ordv, diff as int, j) by {
                assert(freq@[ordv[j]] as int == rounded[ordv[j]]);
                assert(0int / (l as int) == 0 && 0int % (l as int) == 0);
            }
        }
    }
    let ghost fv = freq@.map_values(|f: u32| f as int);
    proof {
        assert forall|j: int| 0 <= j < fv.len() implies 0 <= #[trigger] fv[j] by {}
        assert(sum_of(fv) == 2048);
        assert(diff as int == 2048 - sum_of(rounded));
        assert forall|j: int| 0 <= j < ordv.len() implies fv[#[trigger] ordv[j]] == share_at(rounded, ordv, 2048 - sum_of(rounded), j) by {
            assert(freq@[ordv[j]] as int == share_at(rounded, ordv, diff as int, j));
        }
        assert(normalized_by(rv, n as int, fv, ordv));
    }
    let mut cumsum: [u32; 257] = [0u32; 257];
    let mut s: usize = 0;
    proof {
        assert(fv.take(0) =~= Seq::<int>::empty());
    }
    while s < 256
        invariant
            s <= 256,
            fv == freq@.map_values(|f: u32| f as int),
            sum_of(fv) == 2048,
            forall|j: int| 0 <= j < fv.len() ==> 0 <= #[trigger] fv[j],
            cumsum@[0] == 0,
            forall|t: int| 0 <= t < s ==> #[trigger] cumsum@[t + 1] == cumsum@[t] + freq@[t],
            cumsum@[s as int] == sum_of(fv.take(s as int)),
        decreases 256 - s,
    {
        proof {
            assert(fv.take(s + 1).drop_last() =~= fv.take(s as int));
            lemma_sum_prefix(fv, s + 1);
        }
        let ghost c0 = cumsum@;
        cumsum[s + 1] = cumsum[s] + freq[s];
        proof {
            assert forall|t: int| 0 <= t < s + 1 implies #[trigger] cumsum@[t + 1] == cumsum@[t] + freq@[t] by {
                if t < s {
                    assert(cumsum@[t + 1] == c0[t + 1] && cumsum@[t] == c0[t]);
                }
            }
        }
        s = s + 1;
    }
    proof {
        assert(fv.take(256) =~= fv);
    }
    let t = FreqTable { freq, cumsum, total: cumsum[256] };
    proof {
        assert(freq_view(t) =~= fv);
        assert forall|s: int| 0 <= s < 256 implies (#[trigger] t.freq@[s] > 0 <==> (n > 0 && raw@[s] > 0)) by {
            if raw@[s] > 0 {
                assert(rv[s] > 0);
                assert(ordv.contains(s));
                let w = choose|w: int| 0 <= w < ordv.len() && ordv[w] == s;
                assert(fv[ordv[w]] == share_at(rounded, ordv, 2048 - sum_of(rounded), w));
            }
        }
    }
    t
}


// ---------------------------------------------------------------------------
// Building, serializing and reading tables
// ---------------------------------------------------------------------------

/// `t` is a table built for `data`: its byte counts, normalized.
pub open spec fn built_from(data: Seq<u8>, t: FreqTable) -> bool {
    &&& table_wf(t)
    &&& normalized(byte_counts(data), data.len() as int, freq_view(t))
    &&& data.len() > 0 ==> t.total == 2048
    &&& forall|s: int| 0 <= s < 256 ==> (#[trigger] t.freq@[s] > 0 <==> occ(data, s) > 0)
}

/// The number of symbols below `k` with a nonzero frequency.
pub open spec fn nonzero_count(freq: Seq<u32>, k: int) -> nat
    decreases k,
{
    if k <= 0 {
        0
    } else {
        nonzero_count(freq, k - 1) + if freq[k - 1] > 0 { 1nat } else { 0nat }
    }
}

/// The records of the symbols below `k` with a nonzero frequency: the
/// symbol byte, then the frequency as u32 little endian.
pub open spec fn table_records(freq: Seq<u32>, k: int) -> Seq<u8>
    decreases k,
{
    if k <= 0 {
        Seq::empty()
    } else {
        table_records(freq, k - 1) + if freq[k - 1] > 0 {
            seq![(k - 1) as u8] + crate::bytes::le32_bytes(freq[k - 1])
        } else {
            Seq::empty()
        }
    }
}

/// A serialized table: the number of records (u16 little endian), then the
/// records in symbol order.
pub open spec fn table_bytes(t: FreqTable) -> Seq<u8> {
    crate::bytes::le16_bytes(nonzero_count(t.freq@, 256) as u16) + table_records(t.freq@, 256)
}

proof fn lemma_nonzero_count_le(freq: Seq<u32>, k: int)
    ensures
        nonzero_count(freq, k) <= if k < 0 { 0 } else { k },
        table_records(freq, k).len() == 5 * nonzero_count(freq, k),
    decreases k,
{
    if k > 0 {
        lemma_nonzero_count_le(freq, k - 1);
    }
}

impl FreqTable {
    /// Build a table from the byte counts of `data`.
    pub fn build(data: &[u8]) -> (t: FreqTable)
        requires
            data@.len() <= u32::MAX,
        ensures
            built_from(data@, t),
    {
        let mut raw: [u32; 256] = [0u32; 256];
        let mut i: usize = 0;
        proof {
            assert forall|b: int| 0 <= b < 256 implies #[trigger] raw@[b] as int == occ(data@.take(0), b) by {
                assert(data@.take(0) =~= Seq::<u8>::empty());
            }
        }
        while i < data.len()
            invariant
                i <= data@.len(),
                data@.len() <= u32::MAX,
                forall|b: int| 0 <= b < 256 ==> #[trigger] raw@[b] as int == occ(data@.take(i as int), b),
                forall|b: int| 0 <= b < 256 ==> #[trigger] raw@[b] <= i,
                i > 0 ==> raw@[data@[0] as int] > 0,
            decreases data@.len() - i,
        {
            let b = data[i] as usize;
            let ghost r0 = raw@;
            raw[b] = raw[b] + 1;
            proof {
                assert(data@.take(i + 1).drop_last() =~= data@.take(i as int));
                assert(data@.take(i + 1).last() == data@[i as int]);
                assert forall|c: int| 0 <= c < 256 implies #[trigger] raw@[c] as int == occ(data@.take(i + 1), c) by {
                    if c != b {
                        assert(raw@[c] == r0[c]);
                    }
                }
                assert forall|c: int| 0 <= c < 256 implies #[trigger] raw@[c] <= i + 1 by {
                    if c != b {
                        assert(raw@[c] == r0[c]);
                    }
                }
            }
            i = i + 1;
        }
        proof {
            assert(data@.take(data@.len() as int) =~= data@);
            assert(raw_view(raw) =~= byte_counts(data@));
        }
        let t = normalize(&raw, data.len() as u64);
        t
    }
}

/// Serialize the table: the count of nonzero frequencies, then each
/// nonzero symbol and frequency in symbol order.
impl FreqTable {
    pub fn serialize(&self) -> (out: Vec<u8>)
        ensures
            out@ == table_bytes(*self),
    {
        let mut count: u16 = 0;
        let mut s: usize = 0;
        while s < 256
            invariant
                s <= 256,
                count as int == nonzero_count(self.freq@, s as int),
            decreases 256 - s,
        {
            proof {
                lemma_nonzero_count_le(self.freq@, s as int);
            }
            if self.freq[s] > 0 {
                count = count + 1;
            }
            s = s + 1;
        }
        let mut out: Vec<u8> = Vec::new();
        crate::bytes::push_le16(&mut out, count);
        let mut s: usize = 0;
        while s < 256
            invariant
                s <= 256,
                count as int == nonzero_count(self.freq@, 256),
                out@ == crate::bytes::le16_bytes(count) + table_records(self.freq@, s as int),
            decreases 256 - s,
        {
            if self.freq[s] > 0 {
                out.push(s as u8);
                crate::bytes::push_le32(&mut out, self.freq[s]);
            }
            proof {
                assert(out@ =~= crate::bytes::le16_bytes(count) + table_records(self.freq@, s + 1));
            }
            s = s + 1;
        }
        out
    }

    /// The first symbol whose cumulative range ends above `r`, or 255.
    fn find_sym(&self, r: u32) -> (s: usize)
        ensures
            s < 256,
            forall|t: int| 0 <= t < s ==> #[trigger] self.cumsum@[t + 1] <= r,
            s < 255 ==> self.cumsum@[s + 1] > r,
    {
        let mut s: usize = 0;
        while s < 256
            invariant
                s <= 256,
                forall|t: int| 0 <= t < s ==> #[trigger] self.cumsum@[t + 1] <= r,
            decreases 256 - s,
        {
            if self.cumsum[s + 1] > r {
                return s;
            }
            s = s + 1;
        }
        255
    }
}


/// The number of records a serialized table announces.
pub open spec fn record_count(data: Seq<u8>) -> int {
    crate::bytes::le16_value(data) as int
}

/// The symbol of record `i`.
pub open spec fn rec_sym(data: Seq<u8>, i: int) -> int {
    data[2 + 5 * i] as int
}

/// The frequency of record `i`.
pub open spec fn rec_freq(data: Seq<u8>, i: int) -> int {
    crate::bytes::le32_value(data.subrange(3 + 5 * i, 7 + 5 * i)) as int
}

/// The counts after reading the first `k` records; a later record for the
/// same symbol replaces an earlier one.
pub open spec fn parsed_raw(data: Seq<u8>, k: int) -> Seq<int>
    decreases k,
{
    if k <= 0 {
        Seq::new(256, |s: int| 0int)
    } else {
        parsed_raw(data, k - 1).update(rec_sym(data, k - 1), rec_freq(data, k - 1))
    }
}

/// The sum of the frequencies of the first `k` records.
pub open spec fn parsed_total(data: Seq<u8>, k: int) -> int
    decreases k,
{
    if k <= 0 {
        0
    } else {
        parsed_total(data, k - 1) + rec_freq(data, k - 1)
    }
}

/// The data holds the count and every record it announces.
pub open spec fn table_fits(data: Seq<u8>) -> bool {
    data.len() >= 2 && data.len() >= 2 + 5 * record_count(data)
}

/// The records announce a positive total while leaving every count at zero
/// (a later zero record replacing an earlier one): no table can be made.
pub open spec fn table_degenerate(data: Seq<u8>) -> bool {
    &&& table_fits(data)
    &&& parsed_total(data, record_count(data)) > 0
    &&& forall|s: int| 0 <= s < 256 ==> #[trigger] parsed_raw(data, record_count(data))[s] == 0
}

/// `t` is the table read from `data`, taking `size` bytes: the records'
/// counts normalized over their total.
pub open spec fn read_table(data: Seq<u8>, t: FreqTable, size: int) -> bool {
    let c = record_count(data);
    &&& table_fits(data)
    &&& size == 2 + 5 * c
    &&& table_wf(t)
    &&& normalized(parsed_raw(data, c), parsed_total(data, c), freq_view(t))
    &&& parsed_total(data, c) > 0 ==> t.total == 2048
}

impl FreqTable {
    /// Read a serialized table and the number of bytes it takes.
    pub fn deserialize(data: &[u8]) -> (r: Option<(FreqTable, usize)>)
        requires
            !table_degenerate(data@),
        ensures
            match r {
                None => !table_fits(data@),
                Some((t, size)) => read_table(data@, t, size as int),
            },
    {
        if data.len() < 2 {
            return None;
        }
        let count = crate::bytes::read_le16(data, 0) as usize;
        proof {
            assert(data@.subrange(0, 2)[0] == data@[0] && data@.subrange(0, 2)[1] == data@[1]);
            assert(crate::bytes::le16_value(data@.subrange(0, 2)) == crate::bytes::le16_value(data@));
        }
        if data.len() - 2 < count * 5 {
            return None;
        }
        let mut raw: [u32; 256] = [0u32; 256];
        let mut n: u64 = 0;
        let mut i: usize = 0;
        proof {
            assert(raw_view(raw) =~= parsed_raw(data@, 0));
        }
        while i < count
            invariant
                i <= count,
                count == record_count(data@),
                2 + 5 * count <= data@.len(),
                raw_view(raw) == parsed_raw(data@, i as int),
                n as int == parsed_total(data@, i as int),
                n <= i * 0xFFFF_FFFF,
                forall|s: int| 0 <= s < 256 ==> #[trigger] raw@[s] <= n,
            decreases count - i,
        {
            let sym = data[2 + i * 5] as usize;
            let f = crate::bytes::read_le32(data, 3 + i * 5);
            let ghost r0 = raw@;
            raw[sym] = f;
            n = n + f as u64;
            proof {
                assert(raw_view(raw) =~= parsed_raw(data@, i as int).update(sym as int, f as int));
                assert forall|s: int| 0 <= s < 256 implies #[trigger] raw@[s] <= n by {
                    if s != sym {
                        assert(raw@[s] == r0[s]);
                    }
                }
            }
            i = i + 1;
        }
        proof {
            if n > 0 {
                assert(!table_degenerate(data@));
                let w = choose|s: int| 0 <= s < 256 && !(#[trigger] parsed_raw(data@, count as int)[s] == 0);
                assert(raw_view(raw)[w] != 0);
            }
            assert(n <= 0x1_0000_0000_0000) by (nonlinear_arith)
                requires n <= count * 0xFFFF_FFFF, count <= 0xFFFF;
        }
        let t = normalize(&raw, n);
        Some((t, 2 + count * 5))
    }
}


proof fn lemma_cumsum_sum(t: FreqTable, k: int)
    requires
        table_wf(t),
        0 <= k <= 256,
    ensures
        t.cumsum@[k] as int == sum_of(freq_view(t).take(k)),
    decreases k,
{
    if k > 0 {
        lemma_cumsum_sum(t, k - 1);
        assert(freq_view(t).take(k).drop_last() =~= freq_view(t).take(k - 1));
        assert(t.cumsum@[(k - 1) + 1] == t.cumsum@[k - 1] + t.freq@[k - 1]);
    } else {
        assert(freq_view(t).take(0) =~= Seq::<int>::empty());
    }
}

proof fn lemma_records_prefix(freq: Seq<u32>, k: int, kk: int, j: int)
    requires
        0 <= k <= kk,
        0 <= j < table_records(freq, k).len(),
    ensures
        table_records(freq, kk)[j] == table_records(freq, k)[j],
        j < table_records(freq, kk).len(),
    decreases kk - k,
{
    if kk > k {
        lemma_records_prefix(freq, k, kk - 1, j);
    }
}

proof fn lemma_parse_serialized(t: FreqTable, rest: Seq<u8>, k: int)
    requires
        0 <= k <= 256,
    ensures
        parsed_raw(table_bytes(t) + rest, nonzero_count(t.freq@, k) as int) == Seq::new(
            256,
            |s: int| if s < k { freq_view(t)[s] } else { 0int },
        ),
        parsed_total(table_bytes(t) + rest, nonzero_count(t.freq@, k) as int) == sum_of(freq_view(t).take(k)),
    decreases k,
{
    let data = table_bytes(t) + rest;
    let fv = freq_view(t);
    if k == 0 {
        assert(parsed_raw(data, 0) =~= Seq::new(256, |s: int| if s < k { fv[s] } else { 0int }));
        assert(fv.take(0) =~= Seq::<int>::empty());
    } else {
        lemma_parse_serialized(t, rest, k - 1);
        assert(fv.take(k).drop_last() =~= fv.take(k - 1));
        let j = nonzero_count(t.freq@, k - 1) as int;
        lemma_nonzero_count_le(t.freq@, k - 1);
        lemma_nonzero_count_le(t.freq@, k);
        if t.freq@[k - 1] > 0 {
            let recs = table_records(t.freq@, k);
            let hdr = crate::bytes::le16_bytes(nonzero_count(t.freq@, 256) as u16);
            assert(recs =~= table_records(t.freq@, k - 1) + (seq![(k - 1) as u8] + crate::bytes::le32_bytes(t.freq@[k - 1])));
            assert forall|m: int| 0 <= m < 5 implies #[trigger] data[2 + 5 * j + m] == recs[5 * j + m] by {
                lemma_records_prefix(t.freq@, k, 256, 5 * j + m);
                assert(data[2 + 5 * j + m] == table_records(t.freq@, 256)[5 * j + m]);
            }
            assert(rec_sym(data, j) == k - 1) by {
                assert(data[2 + 5 * j + 0] == recs[5 * j + 0]);
            }
            lemma_records_prefix(t.freq@, k, 256, 5 * j + 4);
            assert(data.subrange(3 + 5 * j, 7 + 5 * j) =~= crate::bytes::le32_bytes(t.freq@[k - 1])) by {
                assert forall|m: int| 0 <= m < 4 implies #[trigger] data.subrange(3 + 5 * j, 7 + 5 * j)[m] == crate::bytes::le32_bytes(
                    t.freq@[k - 1],
                )[m] by {
                    lemma_records_prefix(t.freq@, k, 256, 5 * j + 4);
                    assert(data[2 + 5 * j + (m + 1)] == recs[5 * j + (m + 1)]);
                    assert(data.subrange(3 + 5 * j, 7 + 5 * j)[m] == data[3 + 5 * j + m]);
                    assert(table_records(t.freq@, k - 1).len() == 5 * j);
                    assert(recs[5 * j + (m + 1)] == (seq![(k - 1) as u8] + crate::bytes::le32_bytes(t.freq@[k - 1]))[m + 1]);
                }
            }
            crate::bytes::lemma_le32_roundtrip(t.freq@[k - 1]);
            assert(parsed_raw(data, j + 1) =~= Seq::new(256, |s: int| if s < k { fv[s] } else { 0int }));
        } else {
            assert(Seq::new(256, |s: int| if s < k { fv[s] } else { 0int }) =~= Seq::new(
                256,
                |s: int| if s < k - 1 { fv[s] } else { 0int },
            ));
        }
    }
}

/// Normalizing a full table's own frequencies changes nothing.
proof fn lemma_normalize_idempotent(fv: Seq<int>, fv2: Seq<int>)
    requires
        fv.len() == 256,
        forall|s: int| 0 <= s < 256 ==> 0 <= #[trigger] fv[s],
        sum_of(fv) == 2048,
        normalized(fv, 2048, fv2),
    ensures
        fv2 == fv,
{
    let order = choose|order: Seq<int>| #[trigger] normalized_by(fv, 2048, fv2, order);
    let rounded = rounded_seq(fv, 2048);
    assert forall|s: int| 0 <= s < 256 implies #[trigger] rounded[s] == fv[s] by {
        if fv[s] > 0 {
            let f = fv[s];
            assert((4096 * f + 2048) / (2 * 2048int) == f) by (nonlinear_arith)
                requires f >= 0;
        }
    }
    assert(rounded =~= fv);
    assert forall|s: int| 0 <= s < 256 implies #[trigger] fv2[s] == fv[s] by {
        if fv[s] > 0 {
            assert(order.contains(s));
            let w = choose|w: int| 0 <= w < order.len() && order[w] == s;
            assert(fv2[order[w]] == share_at(rounded, order, 0, w));
            assert(0int / (order.len() as int) == 0 && 0int % (order.len() as int) == 0);
        }
    }
    assert(fv2 =~= fv);
}

/// Well-formed tables with the same frequencies have the same sums.
proof fn lemma_cumsum_unique(t1: FreqTable, t2: FreqTable)
    requires
        table_wf(t1),
        table_wf(t2),
        t1.freq@ == t2.freq@,
    ensures
        t1.cumsum@ == t2.cumsum@,
        t1.total == t2.total,
{
    assert forall|k: int| 0 <= k <= 256 implies t1.cumsum@[k] == t2.cumsum@[k] by {
        lemma_cumsum_sum(t1, k);
        lemma_cumsum_sum(t2, k);
        assert(freq_view(t1) == freq_view(t2));
    }
    assert(t1.cumsum@ =~= t2.cumsum@);
}

/// Zero frequencies count no nonzero symbols and have no records.
proof fn lemma_zero_records(freq: Seq<u32>, k: int)
    requires
        0 <= k <= freq.len(),
        forall|s: int| 0 <= s < k ==> freq[s] == 0,
    ensures
        nonzero_count(freq, k) == 0,
        table_records(freq, k) == Seq::<u8>::empty(),
    decreases k,
{
    if k > 0 {
        lemma_zero_records(freq, k - 1);
    }
}

/// Reading back a serialized table built from any data gives the same
/// table and consumes exactly its bytes: `2 + 5 * n` bytes for `n`
/// symbols present. For empty data the table is the empty one, two zero
/// bytes.
pub proof fn lemma_built_table_roundtrip(d: Seq<u8>, t: FreqTable, rest: Seq<u8>)
    requires
        built_from(d, t),
    ensures
        table_bytes(t).len() == 2 + 5 * nonzero_count(t.freq@, 256),
        table_fits(table_bytes(t) + rest),
        !table_degenerate(table_bytes(t) + rest),
        forall|t2: FreqTable, size: int|
            #[trigger] read_table(table_bytes(t) + rest, t2, size) ==> t2.freq@ == t.freq@ && t2.cumsum@ == t.cumsum@
                && t2.total == t.total && size == table_bytes(t).len(),
{
    lemma_nonzero_count_le(t.freq@, 256);
    if d.len() > 0 {
        lemma_table_roundtrip(t, rest);
    } else {
        let data = table_bytes(t) + rest;
        assert forall|s: int| 0 <= s < 256 implies t.freq@[s] == 0 by {
            assert(occ(d, s) == 0);
        }
        lemma_zero_records(t.freq@, 256);
        crate::bytes::lemma_le16_roundtrip(0u16);
        assert(table_bytes(t) =~= crate::bytes::le16_bytes(0u16));
        assert(data.subrange(0, 2) =~= crate::bytes::le16_bytes(0u16));
        assert(data.subrange(0, 2)[0] == data[0] && data.subrange(0, 2)[1] == data[1]);
        assert(record_count(data) == crate::bytes::le16_value(data.subrange(0, 2)));
        assert(record_count(data) == 0);
        assert(parsed_total(data, 0) == 0);
        assert forall|s: int| 0 <= s <= 256 implies #[trigger] t.cumsum@[s] == 0 by {
            lemma_cumsum_zero(t, s);
        }
        assert forall|t2: FreqTable, size: int| #[trigger] read_table(data, t2, size) implies t2.freq@ == t.freq@
            && t2.cumsum@ == t.cumsum@ && t2.total == t.total && size == table_bytes(t).len() by {
            assert forall|s: int| 0 <= s < 256 implies t2.freq@[s] == 0 by {
                assert(freq_view(t2)[s] == 0);
            }
            assert(t2.freq@ =~= t.freq@);
            assert forall|s: int| 0 <= s <= 256 implies #[trigger] t2.cumsum@[s] == 0 by {
                lemma_cumsum_zero(t2, s);
            }
            assert(t2.cumsum@ =~= t.cumsum@);
        }
    }
}

/// The cumulative sums of a well-formed table with zero frequencies are 0.
proof fn lemma_cumsum_zero(t: FreqTable, s: int)
    requires
        table_wf(t),
        0 <= s <= 256,
        forall|k: int| 0 <= k < 256 ==> t.freq@[k] == 0,
    ensures
        t.cumsum@[s] == 0,
    decreases s,
{
    if s > 0 {
        lemma_cumsum_zero(t, s - 1);
        assert(t.cumsum@[(s - 1) + 1] == t.cumsum@[s - 1] + t.freq@[s - 1]);
    }
}

/// Reading back a serialized full table gives the same table and consumes
/// exactly its bytes.
pub proof fn lemma_table_roundtrip(t: FreqTable, rest: Seq<u8>)
    requires
        table_full(t),
    ensures
        table_fits(table_bytes(t) + rest),
        !table_degenerate(table_bytes(t) + rest),
        forall|t2: FreqTable, size: int|
            #[trigger] read_table(table_bytes(t) + rest, t2, size) ==> t2.freq@ == t.freq@ && t2.cumsum@ == t.cumsum@
                && t2.total == t.total && size == table_bytes(t).len(),
        2 + 5 * record_count(table_bytes(t) + rest) == table_bytes(t).len(),
        parsed_total(table_bytes(t) + rest, record_count(table_bytes(t) + rest)) == 2048,
{
    let data = table_bytes(t) + rest;
    let fv = freq_view(t);
    let c = nonzero_count(t.freq@, 256);
    lemma_nonzero_count_le(t.freq@, 256);
    crate::bytes::lemma_le16_roundtrip(c as u16);
    assert(data.subrange(0, 2) =~= crate::bytes::le16_bytes(c as u16));
    assert(record_count(data) == crate::bytes::le16_value(data.subrange(0, 2)));
    assert(record_count(data) == c);
    lemma_parse_serialized(t, rest, 256);
    lemma_cumsum_sum(t, 256);
    assert(fv.take(256) =~= fv);
    assert(Seq::new(256, |s: int| if s < 256 { fv[s] } else { 0int }) =~= fv);
    assert(parsed_raw(data, c as int) == fv);
    assert(parsed_total(data, c as int) == 2048);
    assert(!table_degenerate(data)) by {
        if forall|s: int| 0 <= s < 256 ==> #[trigger] parsed_raw(data, record_count(data))[s] == 0 {
            assert forall|s: int| 0 <= s < fv.len() implies 0 <= #[trigger] fv[s] <= 0 by {
                assert(parsed_raw(data, record_count(data))[s] == 0);
            }
            lemma_sum_bounded(fv, 0);
        }
    }
    assert forall|t2: FreqTable, size: int| #[trigger] read_table(data, t2, size) implies t2.freq@ == t.freq@ && t2.cumsum@
        == t.cumsum@ && t2.total == t.total && size == table_bytes(t).len() by {
        lemma_normalize_idempotent(fv, freq_view(t2));
        assert(t2.freq@ =~= t.freq@) by {
            assert forall|s: int| 0 <= s < 256 implies t2.freq@[s] == t.freq@[s] by {
                assert(freq_view(t2)[s] == fv[s]);
            }
        }
        lemma_cumsum_unique(t2, t);
    }
}


// ---------------------------------------------------------------------------
// Order-0 byte coder
// ---------------------------------------------------------------------------

/// Renormalize the state `x` for a symbol of frequency `f`: while
/// `x >= 256 f`, emit its low byte and shift it out. The resulting state
/// and the bytes in emission order.
pub open spec fn renorm_bytes(x: int, f: int) -> (int, Seq<u8>)
    decreases x,
{
    if f > 0 && x > 0 && x >= 256 * f {
        let (y, b) = renorm_bytes(x / 256, f);
        (y, seq![(x % 256) as u8] + b)
    } else {
        (x, Seq::empty())
    }
}

/// The coding step of the symbol `s` from a state `y` in `[f, 256 f)`.
pub open spec fn code_step(t: FreqTable, s: int, y: int) -> int {
    let f = t.freq@[s] as int;
    (y / f) * (t.total as int) + y % f + t.cumsum@[s] as int
}

/// The encoder's state and emitted bytes after coding `data[k..]`,
/// last symbol first, starting from the state `total`.
pub open spec fn enc_from(t: FreqTable, data: Seq<u8>, k: int) -> (int, Seq<u8>)
    decreases data.len() - k,
{
    if k < 0 || k >= data.len() {
        (t.total as int, Seq::empty())
    } else {
        let (x, e) = enc_from(t, data, k + 1);
        let s = data[k] as int;
        let (y, b) = renorm_bytes(x, t.freq@[s] as int);
        (code_step(t, s, y), e + b)
    }
}

/// The bytes of `x`, low first, until nothing is left.
pub open spec fn flush_bytes(x: int) -> Seq<u8>
    decreases x,
{
    if x <= 0 {
        Seq::empty()
    } else {
        seq![(x % 256) as u8] + flush_bytes(x / 256)
    }
}

/// The coded stream: emitted bytes then the final state's bytes, reversed.
pub open spec fn ans_stream(t: FreqTable, data: Seq<u8>) -> Seq<u8> {
    let (x, e) = enc_from(t, data, 0);
    (e + flush_bytes(x)).reverse()
}

/// The compressed layout: length (u32 le), table, and for a nonempty input
/// the stream length (u32 le) and the stream.
pub open spec fn ans_compressed(t: FreqTable, data: Seq<u8>) -> Seq<u8> {
    crate::bytes::le32_bytes(data.len() as u32) + table_bytes(t) + if data.len() == 0 {
        Seq::empty()
    } else {
        let st = ans_stream(t, data);
        crate::bytes::le32_bytes(st.len() as u32) + st
    }
}

/// `out` is the compression of `data` under a table built for it.
pub open spec fn compressed_as(data: Seq<u8>, out: Seq<u8>) -> bool {
    exists|t: FreqTable| #[trigger] built_from(data, t) && out == ans_compressed(t, data)
}

/// Read stream bytes into the state while it is below `tot`.
pub open spec fn refill(s: Seq<u8>, pos: int, x: int, tot: int) -> (int, int)
    decreases s.len() - pos,
{
    if 0 <= pos < s.len() && x < tot {
        refill(s, pos + 1, x * 256 + s[pos] as int, tot)
    } else {
        (x, pos)
    }
}

/// The first symbol from `u` on whose cumulative range ends above `r`,
/// or 255.
pub open spec fn first_sym(t: FreqTable, r: int, u: int) -> int
    decreases 256 - u,
{
    if u >= 256 {
        255
    } else if t.cumsum@[u + 1] > r {
        u
    } else {
        first_sym(t, r, u + 1)
    }
}

/// Decode `m` symbols from the state `x` with the stream read from `pos`.
pub open spec fn decode_run(t: FreqTable, s: Seq<u8>, pos: int, x: int, m: nat) -> Seq<u8>
    decreases m,
{
    if m == 0 {
        Seq::empty()
    } else {
        let tot = t.total as int;
        let r = x % tot;
        let sym = first_sym(t, r, 0);
        let x1 = (x / tot) * (t.freq@[sym] as int) + (r - t.cumsum@[sym] as int);
        let (x2, p2) = refill(s, pos, x1, tot);
        seq![sym as u8] + decode_run(t, s, p2, x2, (m - 1) as nat)
    }
}

/// The stream stored after the table in `data`, cut to the bytes present.
pub open spec fn stored_stream(data: Seq<u8>, fsz: int) -> Seq<u8> {
    let rest = data.skip(4 + fsz);
    let slen = crate::bytes::le32_value(rest.take(4)) as int;
    let avail = rest.len() - 4;
    rest.subrange(4, 4 + if slen < avail { slen } else { avail })
}

/// The original length stored in `data`.
pub open spec fn stored_len(data: Seq<u8>) -> int {
    crate::bytes::le32_value(data.take(4)) as int
}

/// Decoding `data` with the table `t` read from it.
pub open spec fn ans_decoded(data: Seq<u8>, t: FreqTable) -> Seq<u8> {
    let fsz = 2 + 5 * record_count(data.skip(4));
    let st = stored_stream(data, fsz);
    let (x0, p0) = refill(st, 0, 0, t.total as int);
    decode_run(t, st, p0, x0, stored_len(data) as nat)
}

/// Decompression fails: no length, or a nonempty input whose table or
/// stream length is cut short.
pub open spec fn ans_fails(data: Seq<u8>) -> bool {
    ||| data.len() < 4
    ||| (stored_len(data) != 0 && (!table_fits(data.skip(4)) || data.skip(4 + 2 + 5 * record_count(data.skip(4))).len() < 4))
}

/// Decompression reaches no table that cannot code: the table exists and
/// is not empty whenever symbols are to be decoded.
pub open spec fn ans_input_ok(data: Seq<u8>) -> bool {
    ||| data.len() < 4
    ||| stored_len(data) == 0
    ||| (!table_degenerate(data.skip(4)) && (!ans_fails(data) ==> parsed_total(data.skip(4), record_count(data.skip(4))) > 0))
}


proof fn lemma_cumsum_mono(t: FreqTable, a: int, b: int)
    requires
        table_wf(t),
        0 <= a <= b <= 256,
    ensures
        t.cumsum@[a] <= t.cumsum@[b],
    decreases b - a,
{
    if a < b {
        lemma_cumsum_mono(t, a, b - 1);
        assert(t.cumsum@[(b - 1) + 1] == t.cumsum@[b - 1] + t.freq@[b - 1]);
    }
}

proof fn lemma_renorm_range(x: int, f: int)
    requires
        f >= 1,
        x >= f,
    ensures
        f <= renorm_bytes(x, f).0 < 256 * f,
        renorm_bytes(x, f).0 <= x,
        x < 0x100_0000 ==> renorm_bytes(x, f).1.len() <= 3,
        x < 0x1_0000 ==> renorm_bytes(x, f).1.len() <= 2,
        x < 0x100 ==> renorm_bytes(x, f).1.len() <= 1,
    decreases x,
{
    if x >= 256 * f {
        lemma_renorm_range(x / 256, f);
    }
}

proof fn lemma_flush_len(x: int)
    requires
        0 <= x < 0x100_0000,
    ensures
        flush_bytes(x).len() <= 3,
{
    reveal_with_fuel(flush_bytes, 4);
    assert(x / 256 / 256 / 256 == 0);
}

/// The coding step maps a state in `[f, 256 f)` into `[total, 256 total)`.
proof fn lemma_code_step_range(t: FreqTable, s: int, y: int)
    requires
        table_full(t),
        0 <= s < 256,
        t.freq@[s] >= 1,
        t.freq@[s] <= y < 256 * t.freq@[s],
    ensures
        2048 <= code_step(t, s, y) < 256 * 2048,
{
    let f = t.freq@[s] as int;
    let cs = t.cumsum@[s] as int;
    lemma_cumsum_mono(t, s + 1, 256);
    assert(t.cumsum@[s + 1] == t.cumsum@[s] + t.freq@[s]);
    assert(cs + f <= 2048);
    assert(1 <= y / f < 256) by (nonlinear_arith)
        requires f >= 1, f <= y < 256 * f;
    assert(0 <= y % f < f) by (nonlinear_arith)
        requires f >= 1;
    assert(2048 <= (y / f) * 2048 + y % f + cs < 256 * 2048) by (nonlinear_arith)
        requires 1 <= y / f < 256, 0 <= y % f < f, cs >= 0, cs + f <= 2048;
}

/// `freq` is positive for every symbol of `data`.
pub open spec fn covers(t: FreqTable, data: Seq<u8>) -> bool {
    forall|k: int| 0 <= k < data.len() ==> t.freq@[#[trigger] data[k] as int] >= 1
}

proof fn lemma_enc_range(t: FreqTable, data: Seq<u8>, k: int)
    requires
        table_full(t),
        covers(t, data),
        0 <= k <= data.len(),
    ensures
        2048 <= enc_from(t, data, k).0 < 256 * 2048,
        enc_from(t, data, k).1.len() <= 3 * (data.len() - k),
    decreases data.len() - k,
{
    if k < data.len() {
        lemma_enc_range(t, data, k + 1);
        let x = enc_from(t, data, k + 1).0;
        let s = data[k] as int;
        let f = t.freq@[s] as int;
        lemma_cumsum_mono(t, s + 1, 256);
        assert(t.cumsum@[s + 1] == t.cumsum@[s] + t.freq@[s]);
        lemma_renorm_range(x, f);
        lemma_code_step_range(t, s, renorm_bytes(x, f).0);
    }
}

proof fn lemma_first_sym(t: FreqTable, s: int, r: int, u: int)
    requires
        table_wf(t),
        0 <= u <= s < 256,
        t.freq@[s] >= 1,
        t.cumsum@[s] <= r < t.cumsum@[s] + t.freq@[s],
    ensures
        first_sym(t, r, u) == s,
    decreases s - u,
{
    if u < s {
        lemma_cumsum_mono(t, u + 1, s);
        lemma_first_sym(t, s, r, u + 1);
    } else {
        assert(t.cumsum@[s + 1] == t.cumsum@[s] + t.freq@[s]);
    }
}

/// Reading back the bytes a renormalization emitted, in reverse, restores
/// the state from before it.
proof fn lemma_refill_renorm(x: int, f: int, st: Seq<u8>, pos: int, tot: int)
    requires
        1 <= f <= tot,
        f <= x < 256 * tot,
        0 <= pos,
        pos + renorm_bytes(x, f).1.len() <= st.len(),
        st.subrange(pos, pos + renorm_bytes(x, f).1.len()) == renorm_bytes(x, f).1.reverse(),
    ensures
        refill(st, pos, renorm_bytes(x, f).0, tot) == refill(st, pos + renorm_bytes(x, f).1.len(), x, tot),
    decreases x,
{
    if x >= 256 * f {
        let (y, b) = renorm_bytes(x, f);
        let b1 = renorm_bytes(x / 256, f).1;
        assert(b == seq![(x % 256) as u8] + b1);
        assert(b.len() == b1.len() + 1);
        assert(st.subrange(pos, pos + b1.len()) =~= b1.reverse()) by {
            assert forall|j: int| 0 <= j < b1.len() implies #[trigger] st.subrange(pos, pos + b1.len())[j] == b1.reverse()[j] by {
                assert(st.subrange(pos, pos + b.len())[j] == b.reverse()[j]);
            }
        }
        assert(x / 256 >= f) by (nonlinear_arith)
            requires x >= 256 * f;
        lemma_refill_renorm(x / 256, f, st, pos, tot);
        let p1 = pos + b1.len();
        assert(st[p1] == st.subrange(pos, pos + b.len())[b1.len() as int]);
        assert(st[p1] == (x % 256) as u8);
        assert(x / 256 < tot);
        assert((x / 256) * 256 + ((x % 256) as u8) as int == x);
    }
}

/// Reading back the flushed bytes of a state, in reverse, from zero gives
/// the state.
proof fn lemma_refill_flush(x: int, st: Seq<u8>, pos: int, tot: int)
    requires
        0 <= x < 256 * tot,
        0 <= pos,
        pos + flush_bytes(x).len() <= st.len(),
        st.subrange(pos, pos + flush_bytes(x).len()) == flush_bytes(x).reverse(),
    ensures
        refill(st, pos, 0, tot) == refill(st, pos + flush_bytes(x).len(), x, tot),
    decreases x,
{
    if x > 0 {
        let b = flush_bytes(x);
        let b1 = flush_bytes(x / 256);
        assert(b == seq![(x % 256) as u8] + b1);
        assert(st.subrange(pos, pos + b1.len()) =~= b1.reverse()) by {
            assert forall|j: int| 0 <= j < b1.len() implies #[trigger] st.subrange(pos, pos + b1.len())[j] == b1.reverse()[j] by {
                assert(st.subrange(pos, pos + b.len())[j] == b.reverse()[j]);
            }
        }
        lemma_refill_flush(x / 256, st, pos, tot);
        let p1 = pos + b1.len();
        assert(st[p1] == st.subrange(pos, pos + b.len())[b1.len() as int]);
        assert((x / 256) * 256 + ((x % 256) as u8) as int == x);
    }
}

proof fn lemma_enc_prefix(t: FreqTable, data: Seq<u8>, k: int)
    requires
        0 <= k <= data.len(),
    ensures
        enc_from(t, data, 0).1.take(enc_from(t, data, k).1.len() as int) == enc_from(t, data, k).1,
        enc_from(t, data, k).1.len() <= enc_from(t, data, 0).1.len(),
    decreases k,
{
    if k > 0 {
        lemma_enc_prefix(t, data, k - 1);
        let e0 = enc_from(t, data, 0).1;
        let ek1 = enc_from(t, data, k - 1).1;
        let ek = enc_from(t, data, k).1;
        assert(ek1.take(ek.len() as int) == ek);
        assert(e0.take(ek.len() as int) =~= ek) by {
            assert forall|j: int| 0 <= j < ek.len() implies #[trigger] e0.take(ek.len() as int)[j] == ek[j] by {
                assert(e0.take(ek1.len() as int)[j] == ek1[j]);
                assert(ek1.take(ek.len() as int)[j] == ek1[j]);
            }
        }
    }
}

/// Decoding from the state after the first `k` symbols recovers the rest.
proof fn lemma_decode_from(t: FreqTable, data: Seq<u8>, k: int)
    requires
        table_full(t),
        covers(t, data),
        0 <= k <= data.len(),
    ensures
        ({
            let (x0, e0) = enc_from(t, data, 0);
            let st = (e0 + flush_bytes(x0)).reverse();
            let (xk, ek) = enc_from(t, data, k);
            let pos = flush_bytes(x0).len() + e0.len() - ek.len();
            decode_run(t, st, pos, xk, (data.len() - k) as nat) == data.skip(k)
        }),
    decreases data.len() - k,
{
    let (x0, e0) = enc_from(t, data, 0);
    let fl = flush_bytes(x0);
    let st = (e0 + fl).reverse();
    let (xk, ek) = enc_from(t, data, k);
    let pos = fl.len() + e0.len() - ek.len();
    lemma_enc_prefix(t, data, k);
    if k == data.len() {
        assert(data.skip(k) =~= Seq::<u8>::empty());
    } else {
        lemma_decode_from(t, data, k + 1);
        lemma_enc_prefix(t, data, k + 1);
        let (xn, en) = enc_from(t, data, k + 1);
        let s = data[k] as int;
        let f = t.freq@[s] as int;
        let cs = t.cumsum@[s] as int;
        lemma_enc_range(t, data, k + 1);
        lemma_cumsum_mono(t, s + 1, 256);
        assert(t.cumsum@[s + 1] == t.cumsum@[s] + t.freq@[s]);
        lemma_renorm_range(xn, f);
        let (y, b) = renorm_bytes(xn, f);
        assert(ek == en + b);
        // the decoding step inverts the coding step
        assert(xk == (y / f) * 2048 + (y % f + cs));
        assert(0 <= y % f < f) by (nonlinear_arith)
            requires f >= 1;
        vstd::arithmetic::div_mod::lemma_fundamental_div_mod_converse(xk, 2048, y / f, y % f + cs);
        lemma_first_sym(t, s, xk % 2048, 0);
        assert((y / f) * f + (y % f) == y) by (nonlinear_arith)
            requires f >= 1;
        // the renormalization bytes sit at `pos`, reversed
        let pn = fl.len() + e0.len() - en.len();
        assert(pn == pos + b.len());
        assert(st.subrange(pos, pos + b.len()) =~= b.reverse()) by {
            assert forall|j: int| 0 <= j < b.len() implies #[trigger] st.subrange(pos, pos + b.len())[j] == b.reverse()[j] by {
                let idx = (e0 + fl).len() - 1 - (pos + j);
                assert(idx == ek.len() - 1 - j);
                assert(st[pos + j] == (e0 + fl)[idx]);
                assert((e0 + fl)[idx] == e0[idx]);
                assert(e0.take(ek.len() as int)[idx] == ek[idx]);
                assert(ek[idx] == b[b.len() - 1 - j]);
            }
        }
        lemma_refill_renorm(xn, f, st, pos, 2048);
        assert(refill(st, pn, xn, 2048) == (xn, pn));
        assert(data.skip(k) =~= seq![data[k]] + data.skip(k + 1));
    }
}


proof fn lemma_occ_pos(data: Seq<u8>, k: int)
    requires
        0 <= k < data.len(),
    ensures
        occ(data, data[k] as int) >= 1,
    decreases data.len(),
{
    if k < data.len() - 1 {
        lemma_occ_pos(data.drop_last(), k);
    }
}

proof fn lemma_built_covers(data: Seq<u8>, t: FreqTable)
    requires
        built_from(data, t),
    ensures
        covers(t, data),
{
    assert forall|k: int| 0 <= k < data.len() implies t.freq@[#[trigger] data[k] as int] >= 1 by {
        lemma_occ_pos(data, k);
    }
}

/// The stream for `data` fits the 32-bit length field it is stored under.
pub open spec fn ans_stream_fits(data: Seq<u8>) -> bool {
    forall|t: FreqTable| #[trigger] built_from(data, t) ==> ans_stream(t, data).len() <= u32::MAX
}

/// Decompressing a compression gives the input back, whenever the stream
/// fits its 32-bit length field: the stored length is the input's, and
/// for a nonempty input every table read from the output decodes its
/// stream to the input.
pub proof fn lemma_ans_roundtrip(data: Seq<u8>, out: Seq<u8>)
    requires
        compressed_as(data, out),
        data.len() <= u32::MAX,
        ans_stream_fits(data),
    ensures
        !ans_fails(out),
        ans_input_ok(out),
        stored_len(out) == data.len(),
        forall|t2: FreqTable| #[trigger] read_table(out.skip(4), t2, 2 + 5 * record_count(out.skip(4))) ==> (data.len() > 0
            ==> ans_decoded(out, t2) == data),
{
    let t = choose|t: FreqTable| #[trigger] built_from(data, t) && out == ans_compressed(t, data);
    let n = data.len();
    crate::bytes::lemma_le32_roundtrip(n as u32);
    assert(out.take(4) =~= crate::bytes::le32_bytes(n as u32));
    if n == 0 {
        return;
    }
    lemma_built_covers(data, t);
    let st = ans_stream(t, data);
    let (x0, e0) = enc_from(t, data, 0);
    let fl = flush_bytes(x0);
    lemma_enc_range(t, data, 0);
    lemma_flush_len(x0);
    let tail = crate::bytes::le32_bytes(st.len() as u32) + st;
    assert(out.skip(4) =~= table_bytes(t) + tail);
    lemma_table_roundtrip(t, tail);
    let fsz = table_bytes(t).len() as int;
    assert(out.skip(4 + fsz) =~= tail);
    crate::bytes::lemma_le32_roundtrip(st.len() as u32);
    assert(tail.take(4) =~= crate::bytes::le32_bytes(st.len() as u32));
    assert(stored_stream(out, fsz) =~= st);
    assert forall|t2: FreqTable| #[trigger] read_table(out.skip(4), t2, 2 + 5 * record_count(out.skip(4))) implies ans_decoded(
        out,
        t2,
    ) == data by {
        assert(t2.freq@ == t.freq@ && t2.cumsum@ == t.cumsum@ && t2.total == t.total);
        assert(t2.freq =~= t.freq);
        assert(t2.cumsum =~= t.cumsum);
        assert(t2 == t);
        assert(st.subrange(0, fl.len() as int) =~= fl.reverse());
        lemma_refill_flush(x0, st, 0, 2048);
        assert(refill(st, fl.len() as int, x0, 2048) == (x0, fl.len() as int));
        lemma_decode_from(t, data, 0);
        assert(data.skip(0) =~= data);
    }
}

/// Reverse a byte vector.
fn reversed(v: &Vec<u8>) -> (r: Vec<u8>)
    ensures
        r@ == v@.reverse(),
{
    let mut r: Vec<u8> = Vec::new();
    let n = v.len();
    let mut j: usize = 0;
    while j < n
        invariant
            j <= n,
            n == v@.len(),
            r@.len() == j,
            forall|k: int| 0 <= k < j ==> #[trigger] r@[k] == v@[n - 1 - k],
        decreases n - j,
    {
        r.push(v[n - 1 - j]);
        j = j + 1;
    }
    assert(r@ =~= v@.reverse());
    r
}

/// Compress with an order-0 table.
pub fn compress(data: &[u8]) -> (out: Vec<u8>)
    requires
        data@.len() <= u32::MAX,
    ensures
        compressed_as(data@, out@),
{
    let freq = FreqTable::build(data);
    let fb = freq.serialize();
    let mut out: Vec<u8> = Vec::new();
    crate::bytes::push_le32(&mut out, data.len() as u32);
    crate::bytes::append_bytes(&mut out, fb.as_slice());
    if data.len() == 0 {
        proof {
            assert(out@ =~= ans_compressed(freq, data@));
        }
        return out;
    }
    proof {
        lemma_built_covers(data@, freq);
    }
    let total = freq.total;
    let mut x: u32 = total;
    let mut stream: Vec<u8> = Vec::new();
    let mut i: usize = data.len();
    while i > 0
        invariant
            i <= data@.len(),
            table_full(freq),
            covers(freq, data@),
            total == 2048,
            (x as int, stream@) == enc_from(freq, data@, i as int),
        decreases i,
    {
        proof {
            lemma_enc_range(freq, data@, i as int);
        }
        let s = data[i - 1] as usize;
        let f = freq.freq[s];
        let cs = freq.cumsum[s];
        proof {
            lemma_cumsum_mono(freq, s + 1, 256);
            assert(freq.cumsum@[s + 1] == freq.cumsum@[s as int] + freq.freq@[s as int]);
            lemma_renorm_range(x as int, f as int);
        }
        let ghost x_in = x as int;
        let ghost e_in = stream@;
        while x >= f * 256
            invariant
                1 <= f <= 2048,
                f <= x,
                stream@ + renorm_bytes(x as int, f as int).1 == e_in + renorm_bytes(x_in, f as int).1,
                renorm_bytes(x as int, f as int).0 == renorm_bytes(x_in, f as int).0,
            decreases x,
        {
            let ghost xo = x as int;
            stream.push((x % 256) as u8);
            x = x / 256;
            proof {
                assert(x as int == xo / 256);
                assert(xo / 256 >= f) by (nonlinear_arith)
                    requires xo >= 256 * f;
                assert(stream@ + renorm_bytes(x as int, f as int).1 =~= e_in + renorm_bytes(x_in, f as int).1);
            }
        }
        proof {
            lemma_code_step_range(freq, s as int, x as int);
            assert((x / f) * total + x % f + cs == code_step(freq, s as int, x as int));
        }
        x = (x / f) * total + (x % f) + cs;
        i = i - 1;
    }
    let ghost x0 = x as int;
    let ghost e0 = stream@;
    proof {
        lemma_enc_range(freq, data@, 0);
    }
    while x > 0
        invariant
            stream@ + flush_bytes(x as int) == e0 + flush_bytes(x0),
        decreases x,
    {
        let ghost xo = x as int;
        stream.push((x % 256) as u8);
        x = x / 256;
        proof {
            assert(stream@ + flush_bytes(x as int) =~= e0 + flush_bytes(x0));
        }
    }
    proof {
        assert(stream@ =~= e0 + flush_bytes(x0));
    }
    let st = reversed(&stream);
    crate::bytes::push_le32(&mut out, st.len() as u32);
    crate::bytes::append_bytes(&mut out, st.as_slice());
    proof {
        assert(out@ =~= ans_compressed(freq, data@));
    }
    out
}

proof fn lemma_first_sym_found(t: FreqTable, r: int, s: int, u: int)
    requires
        0 <= u <= s < 256,
        forall|v: int| 0 <= v < s ==> #[trigger] t.cumsum@[v + 1] <= r,
        t.cumsum@[s + 1] > r,
    ensures
        first_sym(t, r, u) == s,
    decreases s - u,
{
    if u < s {
        assert(t.cumsum@[u + 1] <= r);
        lemma_first_sym_found(t, r, s, u + 1);
    }
}

/// Decompress an order-0 stream.
pub fn decompress(data: &[u8]) -> (r: Option<Vec<u8>>)
    requires
        ans_input_ok(data@),
    ensures
        match r {
            None => ans_fails(data@),
            Some(v) => !ans_fails(data@) && (stored_len(data@) == 0 ==> v@.len() == 0) && (stored_len(data@) != 0 ==> exists|t: FreqTable|
                #[trigger] read_table(data@.skip(4), t, 2 + 5 * record_count(data@.skip(4))) && v@ == ans_decoded(data@, t)),
        },
{
    if data.len() < 4 {
        return None;
    }
    let orig = crate::bytes::read_le32(data, 0) as usize;
    proof {
        assert(data@.subrange(0, 4) =~= data@.take(4));
    }
    if orig == 0 {
        return Some(Vec::new());
    }
    let tail = vstd::slice::slice_subrange(data, 4, data.len());
    proof {
        assert(tail@ =~= data@.skip(4));
    }
    let (freq, fsz) = match FreqTable::deserialize(tail) {
        Some(v) => v,
        None => {
            return None;
        },
    };
    if tail.len() - fsz < 4 {
        proof {
            assert(data@.skip(4 + fsz as int) =~= tail@.skip(fsz as int));
        }
        return None;
    }
    let rest = vstd::slice::slice_subrange(data, 4 + fsz, data.len());
    proof {
        assert(rest@ =~= data@.skip(4 + fsz as int));
        assert(!ans_fails(data@));
        assert(rest@.subrange(0, 4) =~= rest@.take(4));
    }
    let slen = crate::bytes::read_le32(rest, 0) as usize;
    let avail = rest.len() - 4;
    let take = if slen < avail { slen } else { avail };
    let stream = vstd::slice::slice_subrange(rest, 4, 4 + take);
    let ghost st = stream@;
    proof {
        assert(st =~= stored_stream(data@, fsz as int));
    }
    let total = freq.total;
    let mut x: u32 = 0;
    let mut pos: usize = 0;
    while pos < stream.len() && x < total
        invariant
            total == 2048,
            st == stream@,
            pos <= st.len(),
            x < 256 * 2048,
            refill(st, pos as int, x as int, 2048) == refill(st, 0, 0, 2048),
        decreases st.len() - pos,
    {
        x = x * 256 + stream[pos] as u32;
        pos = pos + 1;
    }
    let ghost x0 = x as int;
    let ghost p0 = pos as int;
    let mut out: Vec<u8> = Vec::new();
    proof {
        assert(out@ + decode_run(freq, st, p0, x0, orig as nat) =~= decode_run(freq, st, p0, x0, orig as nat));
    }
    while out.len() < orig
        invariant
            table_full(freq),
            total == 2048,
            st == stream@,
            pos <= st.len(),
            x < 256 * 2048,
            out@.len() <= orig,
            out@ + decode_run(freq, st, pos as int, x as int, (orig - out@.len()) as nat) == decode_run(freq, st, p0, x0, orig as nat),
        decreases orig - out@.len(),
    {
        let r = x % total;
        let s = freq.find_sym(r);
        proof {
            lemma_first_sym_found(freq, r as int, s as int, 0);
            if s > 0 {
                assert(freq.cumsum@[(s - 1) + 1] <= r);
            }
            lemma_cumsum_mono(freq, s + 1, 256);
            assert(freq.cumsum@[s + 1] == freq.cumsum@[s as int] + freq.freq@[s as int]);
        }
        let f = freq.freq[s];
        let cs = freq.cumsum[s];
        let q = x / total;
        proof {
            assert(q * f + f <= 256 * 2048) by (nonlinear_arith)
                requires q < 256, f <= 2048;
        }
        x = q * f + (r - cs);
        let ghost o0 = out@;
        let ghost m = (orig - out@.len()) as nat;
        let ghost pb = pos as int;
        let ghost xb = x as int;
        out.push(s as u8);
        while pos < stream.len() && x < total
            invariant
                total == 2048,
                st == stream@,
                pos <= st.len(),
                x < 256 * 2048,
                refill(st, pos as int, x as int, 2048) == refill(st, pb, xb, 2048),
            decreases st.len() - pos,
        {
            x = x * 256 + stream[pos] as u32;
            pos = pos + 1;
        }
        proof {
            assert(refill(st, pos as int, x as int, 2048) == (x as int, pos as int));
            assert(out@ =~= o0 + seq![s as u8]);
        }
    }
    proof {
        assert(out@.len() == orig);
        assert(decode_run(freq, st, pos as int, x as int, 0) =~= Seq::<u8>::empty());
        assert(out@ =~= decode_run(freq, st, p0, x0, orig as nat));
        assert(read_table(data@.skip(4), freq, 2 + 5 * record_count(data@.skip(4))));
    }
    Some(out)
}


// ---------------------------------------------------------------------------
// Order-0 bit coder
// ---------------------------------------------------------------------------

/// Renormalize bit by bit: while `x >= 2 f`, emit its low bit and shift it
/// out. The resulting state and the bits in emission order.
pub open spec fn renorm_bits(x: int, f: int) -> (int, Seq<u8>)
    decreases x,
{
    if f > 0 && x > 0 && x >= 2 * f {
        let (y, b) = renorm_bits(x / 2, f);
        (y, seq![(x % 2) as u8] + b)
    } else {
        (x, Seq::empty())
    }
}

/// The bit coder's state and emitted bits after coding `data[k..]`, last
/// symbol first, from the state `total`.
pub open spec fn enc_bits_from(t: FreqTable, data: Seq<u8>, k: int) -> (int, Seq<u8>)
    decreases data.len() - k,
{
    if k < 0 || k >= data.len() {
        (t.total as int, Seq::empty())
    } else {
        let (x, e) = enc_bits_from(t, data, k + 1);
        let s = data[k] as int;
        let (y, b) = renorm_bits(x, t.freq@[s] as int);
        (code_step(t, s, y), e + b)
    }
}

/// The byte holding up to eight bits, the first bit lowest.
pub open spec fn pack_byte(bits: Seq<u8>) -> int
    decreases bits.len(),
{
    if bits.len() == 0 {
        0
    } else {
        bits[0] + 2 * pack_byte(bits.drop_first())
    }
}

/// Bits packed eight to a byte, lowest first; the last byte holds what is
/// left.
pub open spec fn pack_bits(bits: Seq<u8>) -> Seq<u8>
    decreases bits.len(),
{
    if bits.len() <= 8 {
        if bits.len() == 0 {
            Seq::empty()
        } else {
            seq![pack_byte(bits) as u8]
        }
    } else {
        seq![pack_byte(bits.take(8)) as u8] + pack_bits(bits.skip(8))
    }
}

/// The `k` low bits of `v`, lowest first.
pub open spec fn low_bits(v: int, k: nat) -> Seq<u8>
    decreases k,
{
    if k == 0 {
        Seq::empty()
    } else {
        seq![(v % 2) as u8] + low_bits(v / 2, (k - 1) as nat)
    }
}

/// The bits of every byte, eight each, lowest first.
pub open spec fn unpack_bits(p: Seq<u8>) -> Seq<u8>
    decreases p.len(),
{
    if p.len() == 0 {
        Seq::empty()
    } else {
        low_bits(p[0] as int, 8) + unpack_bits(p.drop_first())
    }
}

/// The compressed layout of the bit coder: length, table, and for a
/// nonempty input the final state, the bit count, the packed length and
/// the packed bits.
pub open spec fn bits_compressed(t: FreqTable, data: Seq<u8>) -> Seq<u8> {
    crate::bytes::le32_bytes(data.len() as u32) + table_bytes(t) + if data.len() == 0 {
        Seq::empty()
    } else {
        let (x, e) = enc_bits_from(t, data, 0);
        let p = pack_bits(e);
        crate::bytes::le32_bytes(x as u32) + crate::bytes::le32_bytes(e.len() as u32) + crate::bytes::le32_bytes(p.len() as u32) + p
    }
}

/// `out` is the bit-coder compression of `data` under a table built for it.
pub open spec fn bits_compressed_as(data: Seq<u8>, out: Seq<u8>) -> bool {
    exists|t: FreqTable| #[trigger] built_from(data, t) && out == bits_compressed(t, data)
}

/// Read bits from the top of the stack `bits` into the state while it is
/// below `tot`.
pub open spec fn refill_bits(bits: Seq<u8>, pos: int, x: int, tot: int) -> (int, int)
    decreases pos,
{
    if 0 < pos <= bits.len() && x < tot {
        refill_bits(bits, pos - 1, x * 2 + bits[pos - 1] as int, tot)
    } else {
        (x, pos)
    }
}

/// Decode `m` symbols from the state `x` with the bit stack at `pos`.
pub open spec fn decode_bits_run(t: FreqTable, bits: Seq<u8>, pos: int, x: int, m: nat) -> Seq<u8>
    decreases m,
{
    if m == 0 {
        Seq::empty()
    } else {
        let tot = t.total as int;
        let r = x % tot;
        let sym = first_sym(t, r, 0);
        let x1 = (x / tot) * (t.freq@[sym] as int) + (r - t.cumsum@[sym] as int);
        let (x2, p2) = refill_bits(bits, pos, x1, tot);
        seq![sym as u8] + decode_bits_run(t, bits, p2, x2, (m - 1) as nat)
    }
}

/// The bits stored after the table: the packed bytes present, unpacked and
/// cut to the stored bit count.
pub open spec fn stored_bits(data: Seq<u8>, fsz: int) -> Seq<u8> {
    let rest = data.skip(4 + fsz);
    let nb = crate::bytes::le32_value(rest.subrange(4, 8)) as int;
    let blen = crate::bytes::le32_value(rest.subrange(8, 12)) as int;
    let avail = rest.len() - 12;
    let u = unpack_bits(rest.subrange(12, 12 + if blen < avail { blen } else { avail }));
    if nb < u.len() { u.take(nb) } else { u }
}

/// Decoding `data` with the bit coder and the table `t` read from it.
pub open spec fn bits_decoded(data: Seq<u8>, t: FreqTable) -> Seq<u8> {
    let fsz = 2 + 5 * record_count(data.skip(4));
    let bits = stored_bits(data, fsz);
    let x0 = crate::bytes::le32_value(data.skip(4 + fsz).take(4)) as int;
    decode_bits_run(t, bits, bits.len() as int, x0, stored_len(data) as nat)
}

/// Bit decompression fails: no length, or a nonempty input whose table or
/// twelve-byte state header is cut short.
pub open spec fn bits_fails(data: Seq<u8>) -> bool {
    ||| data.len() < 4
    ||| (stored_len(data) != 0 && (!table_fits(data.skip(4)) || data.skip(4 + 2 + 5 * record_count(data.skip(4))).len() < 12))
}

/// Bit decompression reaches no table that cannot code.
pub open spec fn bits_input_ok(data: Seq<u8>) -> bool {
    ||| data.len() < 4
    ||| stored_len(data) == 0
    ||| (!table_degenerate(data.skip(4)) && (!bits_fails(data) ==> parsed_total(data.skip(4), record_count(data.skip(4))) > 0))
}

spec fn two_pow(k: nat) -> int
    decreases k,
{
    if k == 0 {
        1
    } else {
        2 * two_pow((k - 1) as nat)
    }
}

proof fn lemma_renorm_bits_len(x: int, f: int, k: nat)
    requires
        f >= 1,
        0 <= x < two_pow(k),
    ensures
        renorm_bits(x, f).1.len() <= k,
    decreases x,
{
    if f > 0 && x > 0 && x >= 2 * f {
        assert(k > 0);
        lemma_renorm_bits_len(x / 2, f, (k - 1) as nat);
    }
}

proof fn lemma_renorm_bits_range(x: int, f: int)
    requires
        f >= 1,
        x >= f,
    ensures
        f <= renorm_bits(x, f).0 < 2 * f,
        x < 0x1000 ==> renorm_bits(x, f).1.len() <= 12,
    decreases x,
{
    if x >= 2 * f {
        lemma_renorm_bits_range(x / 2, f);
    }
    if x < 0x1000 {
        reveal_with_fuel(two_pow, 13);
        assert(two_pow(12) == 0x1000);
        lemma_renorm_bits_len(x, f, 12);
    }
}

proof fn lemma_enc_bits_range(t: FreqTable, data: Seq<u8>, k: int)
    requires
        table_full(t),
        covers(t, data),
        0 <= k <= data.len(),
    ensures
        2048 <= enc_bits_from(t, data, k).0 < 2 * 2048,
        enc_bits_from(t, data, k).1.len() <= 12 * (data.len() - k),
    decreases data.len() - k,
{
    if k < data.len() {
        lemma_enc_bits_range(t, data, k + 1);
        let x = enc_bits_from(t, data, k + 1).0;
        let s = data[k] as int;
        let f = t.freq@[s] as int;
        lemma_cumsum_mono(t, s + 1, 256);
        assert(t.cumsum@[s + 1] == t.cumsum@[s] + t.freq@[s]);
        lemma_renorm_bits_range(x, f);
        let y = renorm_bits(x, f).0;
        let cs = t.cumsum@[s] as int;
        assert(y / f == 1) by (nonlinear_arith)
            requires f >= 1, f <= y < 2 * f;
        assert(0 <= y % f < f) by (nonlinear_arith)
            requires f >= 1;
    }
}

proof fn lemma_refill_renorm_bits(x: int, f: int, bits: Seq<u8>, pos: int, tot: int)
    requires
        1 <= f <= tot,
        f <= x < 2 * tot,
        0 <= pos,
        pos + renorm_bits(x, f).1.len() <= bits.len(),
        bits.subrange(pos, pos + renorm_bits(x, f).1.len()) == renorm_bits(x, f).1,
    ensures
        refill_bits(bits, pos + renorm_bits(x, f).1.len(), renorm_bits(x, f).0, tot) == refill_bits(bits, pos, x, tot),
    decreases x,
{
    if x >= 2 * f {
        let b = renorm_bits(x, f).1;
        let b1 = renorm_bits(x / 2, f).1;
        assert(b == seq![(x % 2) as u8] + b1);
        assert(bits.subrange(pos + 1, pos + 1 + b1.len()) =~= b1) by {
            assert forall|j: int| 0 <= j < b1.len() implies #[trigger] bits.subrange(pos + 1, pos + 1 + b1.len())[j] == b1[j] by {
                assert(bits.subrange(pos, pos + b.len())[j + 1] == b[j + 1]);
            }
        }
        assert(x / 2 >= f) by (nonlinear_arith)
            requires x >= 2 * f;
        lemma_refill_renorm_bits(x / 2, f, bits, pos + 1, tot);
        assert(bits[pos] == bits.subrange(pos, pos + b.len())[0]);
        assert((x / 2) * 2 + ((x % 2) as u8) as int == x);
    }
}

proof fn lemma_enc_bits_prefix(t: FreqTable, data: Seq<u8>, k: int)
    requires
        0 <= k <= data.len(),
    ensures
        enc_bits_from(t, data, 0).1.take(enc_bits_from(t, data, k).1.len() as int) == enc_bits_from(t, data, k).1,
        enc_bits_from(t, data, k).1.len() <= enc_bits_from(t, data, 0).1.len(),
    decreases k,
{
    if k > 0 {
        lemma_enc_bits_prefix(t, data, k - 1);
        let e0 = enc_bits_from(t, data, 0).1;
        let ek1 = enc_bits_from(t, data, k - 1).1;
        let ek = enc_bits_from(t, data, k).1;
        assert(e0.take(ek.len() as int) =~= ek) by {
            assert forall|j: int| 0 <= j < ek.len() implies #[trigger] e0.take(ek.len() as int)[j] == ek[j] by {
                assert(e0.take(ek1.len() as int)[j] == ek1[j]);
                assert(ek1.take(ek.len() as int)[j] == ek1[j]);
            }
        }
    }
}

/// Decoding from the state after the first `k` symbols, with the bit stack
/// cut to what coding `data[k..]` emitted, recovers the rest.
proof fn lemma_decode_bits_from(t: FreqTable, data: Seq<u8>, k: int)
    requires
        table_full(t),
        covers(t, data),
        0 <= k <= data.len(),
    ensures
        ({
            let e0 = enc_bits_from(t, data, 0).1;
            let (xk, ek) = enc_bits_from(t, data, k);
            decode_bits_run(t, e0, ek.len() as int, xk, (data.len() - k) as nat) == data.skip(k)
        }),
    decreases data.len() - k,
{
    let e0 = enc_bits_from(t, data, 0).1;
    let (xk, ek) = enc_bits_from(t, data, k);
    lemma_enc_bits_prefix(t, data, k);
    if k == data.len() {
        assert(data.skip(k) =~= Seq::<u8>::empty());
    } else {
        lemma_decode_bits_from(t, data, k + 1);
        lemma_enc_bits_prefix(t, data, k + 1);
        let (xn, en) = enc_bits_from(t, data, k + 1);
        let s = data[k] as int;
        let f = t.freq@[s] as int;
        let cs = t.cumsum@[s] as int;
        lemma_enc_bits_range(t, data, k + 1);
        lemma_cumsum_mono(t, s + 1, 256);
        assert(t.cumsum@[s + 1] == t.cumsum@[s] + t.freq@[s]);
        lemma_renorm_bits_range(xn, f);
        let (y, b) = renorm_bits(xn, f);
        assert(ek == en + b);
        assert(xk == (y / f) * 2048 + (y % f + cs));
        assert(0 <= y % f < f) by (nonlinear_arith)
            requires f >= 1;
        vstd::arithmetic::div_mod::lemma_fundamental_div_mod_converse(xk, 2048, y / f, y % f + cs);
        lemma_first_sym(t, s, xk % 2048, 0);
        assert((y / f) * f + (y % f) == y) by (nonlinear_arith)
            requires f >= 1;
        assert(e0.subrange(en.len() as int, ek.len() as int) =~= b) by {
            assert forall|j: int| 0 <= j < b.len() implies #[trigger] e0.subrange(en.len() as int, ek.len() as int)[j] == b[j] by {
                assert(e0.take(ek.len() as int)[en.len() + j] == ek[en.len() + j]);
            }
        }
        lemma_refill_renorm_bits(xn, f, e0, en.len() as int, 2048);
        assert(refill_bits(e0, en.len() as int, xn, 2048) == (xn, en.len() as int));
        assert(data.skip(k) =~= seq![data[k]] + data.skip(k + 1));
    }
}


/// Every entry of `s` is a bit.
pub open spec fn all_bits(s: Seq<u8>) -> bool {
    forall|k: int| 0 <= k < s.len() ==> #[trigger] s[k] <= 1
}

proof fn lemma_pack_byte(c: Seq<u8>, k: nat)
    requires
        all_bits(c),
        c.len() <= k,
    ensures
        0 <= pack_byte(c) < two_pow(c.len() as nat),
        low_bits(pack_byte(c), k) == c + Seq::new((k - c.len()) as nat, |i: int| 0u8),
    decreases c.len(), k,
{
    if c.len() == 0 {
        lemma_low_bits_zero(k);
        assert(c + Seq::new(k, |i: int| 0u8) =~= Seq::new(k, |i: int| 0u8));
    } else {
        let r = c.drop_first();
        assert(all_bits(r)) by {
            assert forall|j: int| 0 <= j < r.len() implies #[trigger] r[j] <= 1 by {
                assert(r[j] == c[j + 1]);
            }
        }
        lemma_pack_byte(r, (k - 1) as nat);
        let v = pack_byte(c);
        assert(c[0] <= 1);
        assert(v % 2 == c[0] as int);
        assert(v / 2 == pack_byte(r));
        assert(low_bits(v, k) =~= c + Seq::new((k - c.len()) as nat, |i: int| 0u8));
    }
}

proof fn lemma_low_bits_zero(k: nat)
    ensures
        low_bits(0, k) == Seq::new(k, |i: int| 0u8),
    decreases k,
{
    if k > 0 {
        lemma_low_bits_zero((k - 1) as nat);
        assert(low_bits(0, k) =~= Seq::new(k, |i: int| 0u8));
    } else {
        assert(low_bits(0, k) =~= Seq::new(k, |i: int| 0u8));
    }
}

proof fn lemma_two_pow_8()
    ensures
        two_pow(8) == 256,
        forall|k: nat| k <= 8 ==> #[trigger] two_pow(k) <= 256,
{
    reveal_with_fuel(two_pow, 9);
    assert forall|k: nat| k <= 8 implies #[trigger] two_pow(k) <= 256 by {
        reveal_with_fuel(two_pow, 9);
    }
}

/// Unpacking packed bits gives them back, padded with zeros.
proof fn lemma_unpack_pack(e: Seq<u8>)
    requires
        all_bits(e),
    ensures
        unpack_bits(pack_bits(e)).len() >= e.len(),
        unpack_bits(pack_bits(e)).take(e.len() as int) == e,
    decreases e.len(),
{
    lemma_two_pow_8();
    if e.len() == 0 {
        assert(pack_bits(e) =~= Seq::<u8>::empty());
        assert(unpack_bits(pack_bits(e)).take(0) =~= e);
    } else if e.len() <= 8 {
        lemma_pack_byte(e, 8);
        let b = pack_byte(e) as u8;
        assert(two_pow(e.len() as nat) <= 256);
        assert(b as int == pack_byte(e));
        let p = pack_bits(e);
        assert(p =~= seq![b]);
        assert(p.drop_first() =~= Seq::<u8>::empty());
        assert(unpack_bits(p) =~= low_bits(b as int, 8) + unpack_bits(Seq::<u8>::empty()));
        assert(unpack_bits(p).take(e.len() as int) =~= e);
    } else {
        let c = e.take(8);
        let r = e.skip(8);
        assert(all_bits(c)) by {
            assert forall|j: int| 0 <= j < c.len() implies #[trigger] c[j] <= 1 by {
                assert(c[j] == e[j]);
            }
        }
        assert(all_bits(r)) by {
            assert forall|j: int| 0 <= j < r.len() implies #[trigger] r[j] <= 1 by {
                assert(r[j] == e[j + 8]);
            }
        }
        lemma_pack_byte(c, 8);
        lemma_unpack_pack(r);
        let b = pack_byte(c) as u8;
        assert(b as int == pack_byte(c));
        let p = pack_bits(e);
        assert(p == seq![b] + pack_bits(r));
        assert(p.drop_first() =~= pack_bits(r));
        assert(low_bits(b as int, 8) =~= c);
        let u = unpack_bits(p);
        assert(u == c + unpack_bits(pack_bits(r)));
        assert(u.take(e.len() as int) =~= e) by {
            assert forall|j: int| 0 <= j < e.len() implies #[trigger] u.take(e.len() as int)[j] == e[j] by {
                if j < 8 {
                    assert(u[j] == c[j]);
                } else {
                    assert(u[j] == unpack_bits(pack_bits(r))[j - 8]);
                    assert(unpack_bits(pack_bits(r)).take(r.len() as int)[j - 8] == r[j - 8]);
                }
            }
        }
    }
}

proof fn lemma_renorm_bits_are_bits(x: int, f: int)
    ensures
        all_bits(renorm_bits(x, f).1),
    decreases x,
{
    if f > 0 && x > 0 && x >= 2 * f {
        lemma_renorm_bits_are_bits(x / 2, f);
        let b = renorm_bits(x, f).1;
        let b1 = renorm_bits(x / 2, f).1;
        assert forall|k: int| 0 <= k < b.len() implies #[trigger] b[k] <= 1 by {
            if k > 0 {
                assert(b[k] == b1[k - 1]);
            }
        }
    }
}

proof fn lemma_enc_bits_are_bits(t: FreqTable, data: Seq<u8>, k: int)
    requires
        0 <= k <= data.len(),
    ensures
        all_bits(enc_bits_from(t, data, k).1),
    decreases data.len() - k,
{
    if k < data.len() {
        lemma_enc_bits_are_bits(t, data, k + 1);
        let (x, e) = enc_bits_from(t, data, k + 1);
        let b = renorm_bits(x, t.freq@[data[k] as int] as int).1;
        lemma_renorm_bits_are_bits(x, t.freq@[data[k] as int] as int);
        let ek = enc_bits_from(t, data, k).1;
        assert forall|j: int| 0 <= j < ek.len() implies #[trigger] ek[j] <= 1 by {
            if j < e.len() {
                assert(ek[j] == e[j]);
            } else {
                assert(ek[j] == b[j - e.len()]);
            }
        }
    }
}

/// The bit count for `data` fits the 32-bit field it is stored under.
pub open spec fn bits_count_fits(data: Seq<u8>) -> bool {
    forall|t: FreqTable| #[trigger] built_from(data, t) ==> enc_bits_from(t, data, 0).1.len() <= u32::MAX
}

/// Decompressing a bit-packed compression gives the input back, whenever
/// the bit count fits its 32-bit field: the stored length is the input's,
/// and every table read from the output decodes its stream to the input.
#[verifier::spinoff_prover]
#[verifier::rlimit(40)]
pub proof fn lemma_bits_roundtrip(data: Seq<u8>, out: Seq<u8>)
    requires
        bits_compressed_as(data, out),
        data.len() <= u32::MAX,
        bits_count_fits(data),
    ensures
        !bits_fails(out),
        bits_input_ok(out),
        stored_len(out) == data.len(),
        forall|t2: FreqTable| #[trigger] read_table(out.skip(4), t2, 2 + 5 * record_count(out.skip(4))) ==> bits_decoded(
            out,
            t2,
        ) == data,
{
    let t = choose|t: FreqTable| #[trigger] built_from(data, t) && out == bits_compressed(t, data);
    let n = data.len();
    crate::bytes::lemma_le32_roundtrip(n as u32);
    assert(out.take(4) =~= crate::bytes::le32_bytes(n as u32));
    if n == 0 {
        assert forall|t2: FreqTable| #[trigger] read_table(out.skip(4), t2, 2 + 5 * record_count(out.skip(4))) implies bits_decoded(
            out,
            t2,
        ) == data by {
            assert(bits_decoded(out, t2) =~= data);
        }
        return;
    }
    lemma_built_covers(data, t);
    let (x0, e0) = enc_bits_from(t, data, 0);
    let p = pack_bits(e0);
    lemma_enc_bits_range(t, data, 0);
    lemma_enc_bits_are_bits(t, data, 0);
    lemma_unpack_pack(e0);
    let tail = crate::bytes::le32_bytes(x0 as u32) + crate::bytes::le32_bytes(e0.len() as u32) + crate::bytes::le32_bytes(p.len() as u32) + p;
    assert(out.skip(4) =~= table_bytes(t) + tail);
    lemma_table_roundtrip(t, tail);
    let fsz = table_bytes(t).len() as int;
    assert(out.skip(4 + fsz) =~= tail);
    lemma_pack_len(e0);
    lemma_stored_bits(out, fsz, x0 as u32, e0, p);
    assert forall|t2: FreqTable| #[trigger] read_table(out.skip(4), t2, 2 + 5 * record_count(out.skip(4))) implies bits_decoded(
        out,
        t2,
    ) == data by {
        assert(t2.freq =~= t.freq);
        assert(t2.cumsum =~= t.cumsum);
        assert(t2 == t);
        lemma_decode_bits_from(t, data, 0);
        assert(data.skip(0) =~= data);
    }
}

proof fn lemma_pack_len(e: Seq<u8>)
    ensures
        pack_bits(e).len() <= e.len(),
    decreases e.len(),
{
    if e.len() > 8 {
        lemma_pack_len(e.skip(8));
    }
}

proof fn lemma_stored_bits(out: Seq<u8>, fsz: int, x0: u32, e0: Seq<u8>, p: Seq<u8>)
    requires
        0 <= fsz,
        4 + fsz <= out.len(),
        e0.len() <= u32::MAX,
        p.len() <= e0.len(),
        p == pack_bits(e0),
        unpack_bits(p).len() >= e0.len(),
        unpack_bits(p).take(e0.len() as int) == e0,
        out.skip(4 + fsz) == crate::bytes::le32_bytes(x0) + crate::bytes::le32_bytes(e0.len() as u32)
            + crate::bytes::le32_bytes(p.len() as u32) + p,
    ensures
        stored_bits(out, fsz) == e0,
        crate::bytes::le32_value(out.skip(4 + fsz).take(4)) == x0,
{
    let tail = out.skip(4 + fsz);
    crate::bytes::lemma_le32_roundtrip(x0);
    crate::bytes::lemma_le32_roundtrip(e0.len() as u32);
    crate::bytes::lemma_le32_roundtrip(p.len() as u32);
    assert(tail.take(4) =~= crate::bytes::le32_bytes(x0));
    assert(tail.subrange(4, 8) =~= crate::bytes::le32_bytes(e0.len() as u32));
    assert(tail.subrange(8, 12) =~= crate::bytes::le32_bytes(p.len() as u32));
    assert(tail.subrange(12, 12 + p.len() as int) =~= p);
    let u = unpack_bits(p);
    if e0.len() < u.len() {
    } else {
        assert(u =~= u.take(e0.len() as int));
    }
}

/// Pack bits eight to a byte, lowest first.
fn pack(bits: &Vec<u8>) -> (p: Vec<u8>)
    requires
        all_bits(bits@),
    ensures
        p@ == pack_bits(bits@),
{
    let mut packed: Vec<u8> = Vec::new();
    let mut i: usize = 0;
    proof {
        assert(bits@.skip(0) =~= bits@);
        assert(packed@ + pack_bits(bits@.skip(0)) =~= pack_bits(bits@));
    }
    while i < bits.len()
        invariant
            i <= bits@.len(),
            all_bits(bits@),
            packed@ + pack_bits(bits@.skip(i as int)) == pack_bits(bits@),
        decreases bits@.len() - i,
    {
        let end = if bits.len() - i < 8 { bits.len() } else { i + 8 };
        let mut byte: u32 = 0;
        let mut j: usize = end;
        proof {
            assert(bits@.subrange(end as int, end as int) =~= Seq::<u8>::empty());
        }
        while j > i
            invariant
                i <= j <= end,
                end <= bits@.len(),
                end - i <= 8,
                all_bits(bits@),
                byte as int == pack_byte(bits@.subrange(j as int, end as int)),
                byte < two_pow((end - j) as nat),
            decreases j,
        {
            j = j - 1;
            proof {
                assert(bits@.subrange(j as int, end as int).drop_first() =~= bits@.subrange(j + 1, end as int));
                assert(bits@[j as int] <= 1);
                lemma_two_pow_8();
                assert(two_pow((end - j) as nat) == 2 * two_pow((end - j - 1) as nat));
                assert(two_pow((end - j) as nat) <= 256);
            }
            byte = byte * 2 + bits[j] as u32;
        }
        let ghost u = bits@.skip(i as int);
        proof {
            lemma_two_pow_8();
            if u.len() <= 8 {
                assert(bits@.subrange(i as int, end as int) =~= u);
                assert(u.skip(u.len() as int) =~= Seq::<u8>::empty());
            } else {
                assert(bits@.subrange(i as int, end as int) =~= u.take(8));
                assert(u.skip(8) =~= bits@.skip(end as int));
            }
        }
        let ghost p0 = packed@;
        packed.push(byte as u8);
        proof {
            if u.len() <= 8 {
                assert(bits@.skip(end as int) =~= Seq::<u8>::empty());
                assert(pack_bits(bits@.skip(end as int)) =~= Seq::<u8>::empty());
            }
            assert(packed@ + pack_bits(bits@.skip(end as int)) =~= p0 + pack_bits(u));
        }
        i = end;
    }
    proof {
        assert(bits@.skip(i as int) =~= Seq::<u8>::empty());
        assert(pack_bits(Seq::<u8>::empty()) =~= Seq::<u8>::empty());
    }
    packed
}

/// Unpack bytes into bits, eight per byte, lowest first.
fn unpack(p: &[u8]) -> (bits: Vec<u8>)
    ensures
        bits@ == unpack_bits(p@),
        all_bits(bits@),
{
    let mut bits: Vec<u8> = Vec::new();
    let mut k: usize = 0;
    proof {
        assert(p@.skip(0) =~= p@);
        assert(bits@ + unpack_bits(p@.skip(0)) =~= unpack_bits(p@));
    }
    while k < p.len()
        invariant
            k <= p@.len(),
            bits@ + unpack_bits(p@.skip(k as int)) == unpack_bits(p@),
            all_bits(bits@),
        decreases p@.len() - k,
    {
        let ghost b0 = bits@;
        let mut v: u8 = p[k];
        let mut i: usize = 0;
        while i < 8
            invariant
                i <= 8,
                bits@ + low_bits(v as int, (8 - i) as nat) == b0 + low_bits(p@[k as int] as int, 8),
                all_bits(bits@),
            decreases 8 - i,
        {
            let ghost bb = bits@;
            bits.push(v % 2);
            proof {
                assert forall|j: int| 0 <= j < bits@.len() implies #[trigger] bits@[j] <= 1 by {
                    if j < bb.len() {
                        assert(bits@[j] == bb[j]);
                    }
                }
            }
            v = v / 2;
            i = i + 1;
            proof {
                assert(bits@ + low_bits(v as int, (8 - i) as nat) =~= b0 + low_bits(p@[k as int] as int, 8));
            }
        }
        proof {
            assert(low_bits(v as int, 0) =~= Seq::<u8>::empty());
            assert(p@.skip(k as int).drop_first() =~= p@.skip(k + 1));
            assert(bits@ + unpack_bits(p@.skip(k + 1)) =~= b0 + unpack_bits(p@.skip(k as int)));
        }
        k = k + 1;
    }
    proof {
        assert(p@.skip(k as int) =~= Seq::<u8>::empty());
        assert(bits@ + Seq::<u8>::empty() =~= bits@);
    }
    bits
}


/// Compress with an order-0 table and bit-wise renormalization.
pub fn compress_bits(data: &[u8]) -> (out: Vec<u8>)
    requires
        data@.len() <= u32::MAX,
    ensures
        bits_compressed_as(data@, out@),
{
    let freq = FreqTable::build(data);
    let fb = freq.serialize();
    let mut out: Vec<u8> = Vec::new();
    crate::bytes::push_le32(&mut out, data.len() as u32);
    crate::bytes::append_bytes(&mut out, fb.as_slice());
    if data.len() == 0 {
        proof {
            assert(out@ =~= bits_compressed(freq, data@));
        }
        return out;
    }
    proof {
        lemma_built_covers(data@, freq);
    }
    let total = freq.total;
    let mut x: u32 = total;
    let mut bits: Vec<u8> = Vec::new();
    let mut i: usize = data.len();
    while i > 0
        invariant
            i <= data@.len(),
            table_full(freq),
            covers(freq, data@),
            total == 2048,
            (x as int, bits@) == enc_bits_from(freq, data@, i as int),
        decreases i,
    {
        proof {
            lemma_enc_bits_range(freq, data@, i as int);
        }
        let s = data[i - 1] as usize;
        let f = freq.freq[s];
        let cs = freq.cumsum[s];
        proof {
            lemma_cumsum_mono(freq, s + 1, 256);
            assert(freq.cumsum@[s + 1] == freq.cumsum@[s as int] + freq.freq@[s as int]);
            lemma_renorm_bits_range(x as int, f as int);
        }
        let ghost x_in = x as int;
        let ghost e_in = bits@;
        while x >= 2 * f
            invariant
                1 <= f <= 2048,
                f <= x,
                bits@ + renorm_bits(x as int, f as int).1 == e_in + renorm_bits(x_in, f as int).1,
                renorm_bits(x as int, f as int).0 == renorm_bits(x_in, f as int).0,
            decreases x,
        {
            let ghost xo = x as int;
            bits.push((x % 2) as u8);
            x = x / 2;
            proof {
                assert(xo / 2 >= f) by (nonlinear_arith)
                    requires xo >= 2 * f;
                assert(bits@ + renorm_bits(x as int, f as int).1 =~= e_in + renorm_bits(x_in, f as int).1);
            }
        }
        proof {
            lemma_renorm_bits_range(x as int, f as int);
            let y = x as int;
            let fi = f as int;
            assert(y / fi == 1) by (nonlinear_arith)
                requires fi >= 1, fi <= y < 2 * fi;
            assert(0 <= y % fi < fi) by (nonlinear_arith)
                requires fi >= 1;
            assert((x / f) * total + x % f + cs == code_step(freq, s as int, x as int));
        }
        x = (x / f) * total + (x % f) + cs;
        i = i - 1;
    }
    proof {
        lemma_enc_bits_are_bits(freq, data@, 0);
        lemma_enc_bits_range(freq, data@, 0);
        lemma_pack_len(bits@);
    }
    let nb = bits.len() as u32;
    let packed = pack(&bits);
    crate::bytes::push_le32(&mut out, x);
    crate::bytes::push_le32(&mut out, nb);
    crate::bytes::push_le32(&mut out, packed.len() as u32);
    crate::bytes::append_bytes(&mut out, packed.as_slice());
    proof {
        assert(out@ =~= bits_compressed(freq, data@));
    }
    out
}

/// Decompress a bit-coder stream.
pub fn decompress_bits(data: &[u8]) -> (r: Option<Vec<u8>>)
    requires
        bits_input_ok(data@),
    ensures
        match r {
            None => bits_fails(data@),
            Some(v) => !bits_fails(data@) && (stored_len(data@) == 0 ==> v@.len() == 0) && (stored_len(data@) != 0 ==> exists|t: FreqTable|
                #[trigger] read_table(data@.skip(4), t, 2 + 5 * record_count(data@.skip(4))) && v@ == bits_decoded(data@, t)),
        },
{
    if data.len() < 4 {
        return None;
    }
    let orig = crate::bytes::read_le32(data, 0) as usize;
    proof {
        assert(data@.subrange(0, 4) =~= data@.take(4));
    }
    if orig == 0 {
        return Some(Vec::new());
    }
    let tail = vstd::slice::slice_subrange(data, 4, data.len());
    proof {
        assert(tail@ =~= data@.skip(4));
    }
    let (freq, fsz) = match FreqTable::deserialize(tail) {
        Some(v) => v,
        None => {
            return None;
        },
    };
    if tail.len() - fsz < 12 {
        proof {
            assert(data@.skip(4 + fsz as int) =~= tail@.skip(fsz as int));
        }
        return None;
    }
    let rest = vstd::slice::slice_subrange(data, 4 + fsz, data.len());
    proof {
        assert(rest@ =~= data@.skip(4 + fsz as int));
        assert(!bits_fails(data@));
        assert(rest@.subrange(0, 4) =~= rest@.take(4));
    }
    let mut x = crate::bytes::read_le32(rest, 0);
    let nb = crate::bytes::read_le32(rest, 4) as usize;
    let byte_len = crate::bytes::read_le32(rest, 8) as usize;
    let avail = rest.len() - 12;
    let take = if byte_len < avail { byte_len } else { avail };
    let packed = vstd::slice::slice_subrange(rest, 12, 12 + take);
    let mut bits = unpack(packed);
    if nb < bits.len() {
        bits.truncate(nb);
    }
    let ghost bv = bits@;
    proof {
        assert(bv =~= stored_bits(data@, fsz as int));
        assert forall|k: int| 0 <= k < bv.len() implies #[trigger] bv[k] <= 1 by {}
    }
    let total = freq.total;
    let mut pos: usize = bits.len();
    let ghost x0 = x as int;
    let ghost p0 = pos as int;
    let mut out: Vec<u8> = Vec::new();
    proof {
        assert(out@ + decode_bits_run(freq, bv, p0, x0, orig as nat) =~= decode_bits_run(freq, bv, p0, x0, orig as nat));
    }
    while out.len() < orig
        invariant
            table_full(freq),
            total == 2048,
            bv == bits@,
            all_bits(bv),
            pos <= bv.len(),
            out@.len() <= orig,
            out@ + decode_bits_run(freq, bv, pos as int, x as int, (orig - out@.len()) as nat) == decode_bits_run(freq, bv, p0, x0, orig as nat),
        decreases orig - out@.len(),
    {
        let r = x % total;
        let s = freq.find_sym(r);
        proof {
            lemma_first_sym_found(freq, r as int, s as int, 0);
            if s > 0 {
                assert(freq.cumsum@[(s - 1) + 1] <= r);
            }
            lemma_cumsum_mono(freq, s + 1, 256);
            assert(freq.cumsum@[s + 1] == freq.cumsum@[s as int] + freq.freq@[s as int]);
        }
        let f = freq.freq[s];
        let cs = freq.cumsum[s];
        let q = x / total;
        proof {
            let xi = x as int;
            let qi = q as int;
            let fi = f as int;
            assert(qi * 2048 + r as int == xi);
            assert(qi * fi <= qi * 2048) by (nonlinear_arith)
                requires fi <= 2048, qi >= 0;
        }
        x = q * f + (r - cs);
        let ghost o0 = out@;
        let ghost m = (orig - out@.len()) as nat;
        let ghost pb = pos as int;
        let ghost xb = x as int;
        out.push(s as u8);
        while pos > 0 && x < total
            invariant
                total == 2048,
                bv == bits@,
                all_bits(bv),
                pos <= bv.len(),
                refill_bits(bv, pos as int, x as int, 2048) == refill_bits(bv, pb, xb, 2048),
            decreases pos,
        {
            pos = pos - 1;
            assert(bits[pos as int] <= 1);
            x = x * 2 + bits[pos] as u32;
        }
        proof {
            assert(refill_bits(bv, pos as int, x as int, 2048) == (x as int, pos as int));
            assert(out@ =~= o0 + seq![s as u8]);
        }
    }
    proof {
        assert(out@.len() == orig);
        assert(decode_bits_run(freq, bv, pos as int, x as int, 0) =~= Seq::<u8>::empty());
        assert(out@ =~= decode_bits_run(freq, bv, p0, x0, orig as nat));
        assert(read_table(data@.skip(4), freq, 2 + 5 * record_count(data@.skip(4))));
        assert(rest@.take(4) =~= data@.skip(4 + fsz as int).take(4));
    }
    Some(out)
}


// ---------------------------------------------------------------------------
// Order-1 coder: one table per preceding byte
// ---------------------------------------------------------------------------

/// Occurrences of the byte `s` right after the byte `c` in `d`.
pub open spec fn pair_count(d: Seq<u8>, c: int, s: int) -> nat
    decreases d.len(),
{
    if d.len() < 2 {
        0
    } else {
        pair_count(d.drop_last(), c, s) + if d[d.len() - 2] as int == c && d.last() as int == s { 1nat } else { 0nat }
    }
}

/// Occurrences of the byte `c` followed by some byte in `d`.
pub open spec fn ctx_count(d: Seq<u8>, c: int) -> nat
    decreases d.len(),
{
    if d.len() < 2 {
        0
    } else {
        ctx_count(d.drop_last(), c) + if d[d.len() - 2] as int == c { 1nat } else { 0nat }
    }
}

/// The pair counts of the context `c`.
pub open spec fn pair_counts(d: Seq<u8>, c: int) -> Seq<int> {
    Seq::new(256, |s: int| pair_count(d, c, s) as int)
}

/// `tabs` are the context tables built for `d`: one for each byte that
/// some byte follows, its pair counts normalized.
pub open spec fn o1_built(d: Seq<u8>, tabs: Seq<Option<FreqTable>>) -> bool {
    &&& tabs.len() == 256
    &&& forall|c: int|
        0 <= c < 256 ==> match #[trigger] tabs[c] {
            None => ctx_count(d, c) == 0,
            Some(t) => {
                &&& ctx_count(d, c) > 0
                &&& table_full(t)
                &&& normalized(pair_counts(d, c), ctx_count(d, c) as int, freq_view(t))
                &&& forall|s: int| 0 <= s < 256 ==> (#[trigger] t.freq@[s] > 0 <==> pair_count(d, c, s) > 0)
            },
        }
}

/// The fallback table: eight slots for every byte.
pub open spec fn fallback_ok(t: FreqTable) -> bool {
    table_full(t) && forall|s: int| 0 <= s < 256 ==> #[trigger] t.freq@[s] == 8
}

/// The context before the first symbol: there is no preceding byte, and
/// the first symbol is coded with the fallback.
pub const NO_CONTEXT: usize = 256;

/// The table for context `c`: that of the byte `c`, or the fallback when
/// there is none (and always for NO_CONTEXT).
pub open spec fn ctx_table(tabs: Seq<Option<FreqTable>>, fb: FreqTable, c: int) -> FreqTable {
    if 0 <= c < 256 {
        match tabs[c] {
            Some(t) => t,
            None => fb,
        }
    } else {
        fb
    }
}

/// The context of position `i`: the preceding byte, or NO_CONTEXT for the
/// first position.
pub open spec fn ctx_at(d: Seq<u8>, i: int) -> int {
    if i == 0 { NO_CONTEXT as int } else { d[i - 1] as int }
}

/// The table coding position `i`: that of its context.
pub open spec fn tab_at(tabs: Seq<Option<FreqTable>>, fb: FreqTable, d: Seq<u8>, i: int) -> FreqTable {
    ctx_table(tabs, fb, ctx_at(d, i))
}

/// The frequency used for `s`: at least one slot.
pub open spec fn used_freq(t: FreqTable, s: int) -> int {
    if t.freq@[s] < 1 { 1 } else { t.freq@[s] as int }
}

/// The order-1 encoder's state and emitted bytes after `d[k..]`.
pub open spec fn enc_o1_from(tabs: Seq<Option<FreqTable>>, fb: FreqTable, d: Seq<u8>, k: int) -> (int, Seq<u8>)
    decreases d.len() - k,
{
    if k < 0 || k >= d.len() {
        (fb.total as int, Seq::empty())
    } else {
        let (x, e) = enc_o1_from(tabs, fb, d, k + 1);
        let t = tab_at(tabs, fb, d, k);
        let s = d[k] as int;
        let f = used_freq(t, s);
        let (y, b) = renorm_bytes(x, f);
        ((y / f) * (t.total as int) + y % f + t.cumsum@[s] as int, e + b)
    }
}

/// The records of the context tables below `k`: the context byte, the
/// serialized table's length (u32 le) and the table.
pub open spec fn o1_records(tabs: Seq<Option<FreqTable>>, k: int) -> Seq<u8>
    decreases k,
{
    if k <= 0 {
        Seq::empty()
    } else {
        o1_records(tabs, k - 1) + match tabs[k - 1] {
            Some(t) => seq![(k - 1) as u8] + crate::bytes::le32_bytes(table_bytes(t).len() as u32) + table_bytes(t),
            None => Seq::empty(),
        }
    }
}

/// The number of context tables below `k`.
pub open spec fn o1_count(tabs: Seq<Option<FreqTable>>, k: int) -> nat
    decreases k,
{
    if k <= 0 {
        0
    } else {
        o1_count(tabs, k - 1) + if tabs[k - 1] is Some { 1nat } else { 0nat }
    }
}

/// The serialized context tables.
pub open spec fn o1_header(tabs: Seq<Option<FreqTable>>) -> Seq<u8> {
    crate::bytes::le16_bytes(o1_count(tabs, 256) as u16) + o1_records(tabs, 256)
}

/// The order-1 compressed layout.
pub open spec fn o1_compressed(tabs: Seq<Option<FreqTable>>, fb: FreqTable, d: Seq<u8>) -> Seq<u8> {
    crate::bytes::le32_bytes(d.len() as u32) + if d.len() == 0 {
        crate::bytes::le16_bytes(0)
    } else {
        let (x, e) = enc_o1_from(tabs, fb, d, 0);
        let st = (e + flush_bytes(x)).reverse();
        o1_header(tabs) + crate::bytes::le32_bytes(st.len() as u32) + st
    }
}

/// `out` is the order-1 compression of `d`.
pub open spec fn o1_compressed_as(d: Seq<u8>, out: Seq<u8>) -> bool {
    exists|tabs: Seq<Option<FreqTable>>, fb: FreqTable|
        #[trigger] o1_built(d, tabs) && #[trigger] fallback_ok(fb) && out == o1_compressed(tabs, fb, d)
}

proof fn lemma_pair_le_ctx(d: Seq<u8>, c: int, s: int)
    ensures
        pair_count(d, c, s) <= ctx_count(d, c),
        ctx_count(d, c) <= d.len(),
    decreases d.len(),
{
    if d.len() >= 2 {
        lemma_pair_le_ctx(d.drop_last(), c, s);
    }
}

proof fn lemma_ctx_witness(d: Seq<u8>, c: int)
    requires
        ctx_count(d, c) > 0,
    ensures
        exists|s: int| 0 <= s < 256 && #[trigger] pair_count(d, c, s) > 0,
    decreases d.len(),
{
    if d.len() >= 2 {
        if d[d.len() - 2] as int == c {
            assert(pair_count(d, c, d.last() as int) > 0);
        } else {
            lemma_ctx_witness(d.drop_last(), c);
            let s = choose|s: int| 0 <= s < 256 && #[trigger] pair_count(d.drop_last(), c, s) > 0;
            assert(pair_count(d, c, s) > 0);
        }
    }
}

proof fn lemma_pair_pos(d: Seq<u8>, i: int)
    requires
        1 <= i < d.len(),
    ensures
        pair_count(d, d[i - 1] as int, d[i] as int) >= 1,
        ctx_count(d, d[i - 1] as int) >= 1,
    decreases d.len(),
{
    if i < d.len() - 1 {
        lemma_pair_pos(d.drop_last(), i);
    }
}


/// The position after the first `k` context records of the header `h`, or
/// `None` once a record or its table is cut short.
pub open spec fn o1_pos(h: Seq<u8>, k: nat) -> Option<int>
    decreases k,
{
    if k == 0 {
        Some(2)
    } else {
        match o1_pos(h, (k - 1) as nat) {
            None => None,
            Some(p) => if p + 5 > h.len() {
                None
            } else {
                let fl = crate::bytes::le32_value(h.subrange(p + 1, p + 5)) as int;
                if p + 5 + fl > h.len() || !table_fits(h.subrange(p + 5, p + 5 + fl)) {
                    None
                } else {
                    Some(p + 5 + fl)
                }
            },
        }
    }
}

/// The number of context records the header announces.
pub open spec fn o1_announced(h: Seq<u8>) -> nat {
    crate::bytes::le16_value(h) as nat
}

/// The context byte of record `j`, when the records before it parse.
pub open spec fn o1_ctx(h: Seq<u8>, j: nat) -> int {
    h[o1_pos(h, j)->0] as int
}

/// The serialized table of record `j`.
pub open spec fn o1_sub(h: Seq<u8>, j: nat) -> Seq<u8> {
    let p = o1_pos(h, j)->0;
    h.subrange(p + 5, p + 5 + crate::bytes::le32_value(h.subrange(p + 1, p + 5)) as int)
}

/// The last record below `m` for the context `c`, or -1.
pub open spec fn last_rec(h: Seq<u8>, m: nat, c: int) -> int
    decreases m,
{
    if m == 0 {
        -1
    } else if o1_ctx(h, (m - 1) as nat) == c {
        m - 1
    } else {
        last_rec(h, (m - 1) as nat, c)
    }
}

/// The header parses: its count is present and every record fits.
pub open spec fn o1_parses(h: Seq<u8>) -> bool {
    h.len() >= 2 && o1_pos(h, o1_announced(h)) is Some
}

/// `tabs` are the context tables read from the header `h`: for each
/// context, the table of its last record, if any.
pub open spec fn o1_read(h: Seq<u8>, tabs: Seq<Option<FreqTable>>) -> bool {
    &&& tabs.len() == 256
    &&& forall|c: int|
        0 <= c < 256 ==> {
            let k = last_rec(h, o1_announced(h), c);
            match #[trigger] tabs[c] {
                None => k < 0,
                Some(t) => k >= 0 && read_table(o1_sub(h, k as nat), t, 2 + 5 * record_count(o1_sub(h, k as nat))),
            }
        }
}

/// Reading the header meets no table that cannot code: every record's
/// table, once the records before it parse and it fits, announces a
/// positive total.
pub open spec fn o1_tables_ok(h: Seq<u8>) -> bool {
    forall|j: nat|
        j < o1_announced(h) && #[trigger] o1_pos(h, j) is Some && o1_pos(h, j)->0 + 5 <= h.len() && o1_pos(h, j)->0 + 5
            + crate::bytes::le32_value(h.subrange(o1_pos(h, j)->0 + 1, o1_pos(h, j)->0 + 5)) <= h.len() ==> !table_degenerate(
            o1_sub(h, j),
        ) && (table_fits(o1_sub(h, j)) ==> parsed_total(o1_sub(h, j), record_count(o1_sub(h, j))) > 0)
}

/// Decode `m` symbols, each with the table of the symbol before it.
pub open spec fn decode_o1_run(
    tabs: Seq<Option<FreqTable>>,
    fb: FreqTable,
    st: Seq<u8>,
    pos: int,
    x: int,
    prev: int,
    m: nat,
) -> Seq<u8>
    decreases m,
{
    if m == 0 {
        Seq::empty()
    } else {
        let t = ctx_table(tabs, fb, prev);
        let tot = t.total as int;
        let r = x % tot;
        let sym = first_sym(t, r, 0);
        let x1 = (x / tot) * (t.freq@[sym] as int) + (r - t.cumsum@[sym] as int);
        let (x2, p2) = refill(st, pos, x1, tot);
        seq![sym as u8] + decode_o1_run(tabs, fb, st, p2, x2, sym, (m - 1) as nat)
    }
}

/// The size of the order-1 header, when it parses.
pub open spec fn o1_size(h: Seq<u8>) -> int {
    o1_pos(h, o1_announced(h))->0
}

/// Order-1 decompression fails: no length, or a nonempty input whose
/// header or stream length is cut short.
pub open spec fn o1_fails(data: Seq<u8>) -> bool {
    ||| data.len() < 4
    ||| (stored_len(data) != 0 && (!o1_parses(data.skip(4)) || data.skip(4 + o1_size(data.skip(4))).len() < 4))
}

/// Order-1 decompression meets no table that cannot code.
pub open spec fn o1_input_ok(data: Seq<u8>) -> bool {
    ||| data.len() < 4
    ||| stored_len(data) == 0
    ||| (data.skip(4).len() >= 2 && o1_tables_ok(data.skip(4)))
}

/// Decoding `data` with the order-1 coder, the tables `tabs` read from it
/// and the fallback `fb`.
pub open spec fn o1_decoded(data: Seq<u8>, tabs: Seq<Option<FreqTable>>, fb: FreqTable) -> Seq<u8> {
    let st = stored_stream(data, o1_size(data.skip(4)));
    let (x0, p0) = refill(st, 0, 0, fb.total as int);
    decode_o1_run(tabs, fb, st, p0, x0, NO_CONTEXT as int, stored_len(data) as nat)
}


proof fn lemma_tab_at_covers(tabs: Seq<Option<FreqTable>>, fb: FreqTable, d: Seq<u8>, k: int)
    requires
        o1_built(d, tabs),
        fallback_ok(fb),
        0 <= k < d.len(),
    ensures
        table_full(tab_at(tabs, fb, d, k)),
        tab_at(tabs, fb, d, k).freq@[d[k] as int] >= 1,
{
    if k > 0 {
        let c = d[k - 1] as int;
        lemma_pair_pos(d, k);
        match tabs[c] {
            Some(t) => {
                assert(t.freq@[d[k] as int] > 0 <==> pair_count(d, c, d[k] as int) > 0);
            },
            None => {},
        }
    }
}

proof fn lemma_enc_o1_range(tabs: Seq<Option<FreqTable>>, fb: FreqTable, d: Seq<u8>, k: int)
    requires
        o1_built(d, tabs),
        fallback_ok(fb),
        0 <= k <= d.len(),
    ensures
        2048 <= enc_o1_from(tabs, fb, d, k).0 < 256 * 2048,
        enc_o1_from(tabs, fb, d, k).1.len() <= 3 * (d.len() - k),
    decreases d.len() - k,
{
    if k < d.len() {
        lemma_enc_o1_range(tabs, fb, d, k + 1);
        let x = enc_o1_from(tabs, fb, d, k + 1).0;
        let t = tab_at(tabs, fb, d, k);
        let s = d[k] as int;
        lemma_tab_at_covers(tabs, fb, d, k);
        let f = t.freq@[s] as int;
        lemma_cumsum_mono(t, s + 1, 256);
        assert(t.cumsum@[s + 1] == t.cumsum@[s] + t.freq@[s]);
        lemma_renorm_range(x, f);
        lemma_code_step_range(t, s, renorm_bytes(x, f).0);
    }
}

proof fn lemma_enc_o1_prefix(tabs: Seq<Option<FreqTable>>, fb: FreqTable, d: Seq<u8>, k: int)
    requires
        0 <= k <= d.len(),
    ensures
        enc_o1_from(tabs, fb, d, 0).1.take(enc_o1_from(tabs, fb, d, k).1.len() as int) == enc_o1_from(tabs, fb, d, k).1,
        enc_o1_from(tabs, fb, d, k).1.len() <= enc_o1_from(tabs, fb, d, 0).1.len(),
    decreases k,
{
    if k > 0 {
        lemma_enc_o1_prefix(tabs, fb, d, k - 1);
        let e0 = enc_o1_from(tabs, fb, d, 0).1;
        let ek1 = enc_o1_from(tabs, fb, d, k - 1).1;
        let ek = enc_o1_from(tabs, fb, d, k).1;
        assert(e0.take(ek.len() as int) =~= ek) by {
            assert forall|j: int| 0 <= j < ek.len() implies #[trigger] e0.take(ek.len() as int)[j] == ek[j] by {
                assert(e0.take(ek1.len() as int)[j] == ek1[j]);
                assert(ek1.take(ek.len() as int)[j] == ek1[j]);
            }
        }
    }
}

/// Order-1 decoding from the state after the first `k` symbols recovers
/// the rest.
#[verifier::spinoff_prover]
#[verifier::rlimit(40)]
proof fn lemma_decode_o1_from(tabs: Seq<Option<FreqTable>>, fb: FreqTable, d: Seq<u8>, k: int)
    requires
        o1_built(d, tabs),
        fallback_ok(fb),
        0 <= k <= d.len(),
    ensures
        ({
            let (x0, e0) = enc_o1_from(tabs, fb, d, 0);
            let st = (e0 + flush_bytes(x0)).reverse();
            let (xk, ek) = enc_o1_from(tabs, fb, d, k);
            let pos = flush_bytes(x0).len() + e0.len() - ek.len();
            let prev = ctx_at(d, k);
            decode_o1_run(tabs, fb, st, pos, xk, prev, (d.len() - k) as nat) == d.skip(k)
        }),
    decreases d.len() - k,
{
    let (x0, e0) = enc_o1_from(tabs, fb, d, 0);
    let fl = flush_bytes(x0);
    let st = (e0 + fl).reverse();
    let (xk, ek) = enc_o1_from(tabs, fb, d, k);
    let pos = fl.len() + e0.len() - ek.len();
    lemma_enc_o1_prefix(tabs, fb, d, k);
    if k == d.len() {
        assert(d.skip(k) =~= Seq::<u8>::empty());
    } else {
        lemma_decode_o1_from(tabs, fb, d, k + 1);
        lemma_enc_o1_prefix(tabs, fb, d, k + 1);
        let (xn, en) = enc_o1_from(tabs, fb, d, k + 1);
        let t = tab_at(tabs, fb, d, k);
        let s = d[k] as int;
        lemma_tab_at_covers(tabs, fb, d, k);
        let f = t.freq@[s] as int;
        let cs = t.cumsum@[s] as int;
        lemma_enc_o1_range(tabs, fb, d, k + 1);
        lemma_cumsum_mono(t, s + 1, 256);
        assert(t.cumsum@[s + 1] == t.cumsum@[s] + t.freq@[s]);
        lemma_renorm_range(xn, f);
        let (y, b) = renorm_bytes(xn, f);
        assert(used_freq(t, s) == f);
        assert(ek == en + b);
        assert(xk == (y / f) * 2048 + (y % f + cs));
        assert(0 <= y % f < f) by (nonlinear_arith)
            requires f >= 1;
        vstd::arithmetic::div_mod::lemma_fundamental_div_mod_converse(xk, 2048, y / f, y % f + cs);
        lemma_first_sym(t, s, xk % 2048, 0);
        assert((y / f) * f + (y % f) == y) by (nonlinear_arith)
            requires f >= 1;
        let pn = fl.len() + e0.len() - en.len();
        assert(st.subrange(pos, pos + b.len()) =~= b.reverse()) by {
            assert forall|j: int| 0 <= j < b.len() implies #[trigger] st.subrange(pos, pos + b.len())[j] == b.reverse()[j] by {
                let idx = (e0 + fl).len() - 1 - (pos + j);
                assert(st[pos + j] == (e0 + fl)[idx]);
                assert((e0 + fl)[idx] == e0[idx]);
                assert(e0.take(ek.len() as int)[idx] == ek[idx]);
                assert(ek[idx] == b[b.len() - 1 - j]);
            }
        }
        lemma_refill_renorm(xn, f, st, pos, 2048);
        assert(refill(st, pn, xn, 2048) == (xn, pn));
        assert(t == ctx_table(tabs, fb, ctx_at(d, k)));
        assert(d.skip(k) =~= seq![d[k]] + d.skip(k + 1));
    }
}

proof fn lemma_o1_records_prefix(tabs: Seq<Option<FreqTable>>, c: int, cc: int, j: int)
    requires
        0 <= c <= cc,
        0 <= j < o1_records(tabs, c).len(),
    ensures
        o1_records(tabs, cc)[j] == o1_records(tabs, c)[j],
        j < o1_records(tabs, cc).len(),
    decreases cc - c,
{
    if cc > c {
        lemma_o1_records_prefix(tabs, c, cc - 1, j);
    }
}

/// The records of a serialized set of context tables parse back, one per
/// table in context order.
#[verifier::spinoff_prover]
#[verifier::rlimit(40)]
proof fn lemma_o1_parse(tabs: Seq<Option<FreqTable>>, tail: Seq<u8>, c: int)
    requires
        tabs.len() == 256,
        forall|a: int| 0 <= a < 256 && (#[trigger] tabs[a]) is Some ==> table_full(tabs[a]->0),
        0 <= c <= 256,
    ensures
        ({
            let h = o1_header(tabs) + tail;
            &&& o1_pos(h, o1_count(tabs, c)) == Some(2 + o1_records(tabs, c).len() as int)
            &&& forall|j: nat|
                j < o1_count(tabs, c) ==> {
                    &&& o1_pos(h, j) is Some
                    &&& 0 <= #[trigger] o1_ctx(h, j) < c
                    &&& tabs[o1_ctx(h, j)] is Some
                    &&& o1_count(tabs, o1_ctx(h, j)) == j
                    &&& o1_sub(h, j) == table_bytes(tabs[o1_ctx(h, j)]->0)
                }
        }),
    decreases c,
{
    let h = o1_header(tabs) + tail;
    let hdr = crate::bytes::le16_bytes(o1_count(tabs, 256) as u16);
    if c == 0 {
        assert(o1_records(tabs, 0) =~= Seq::<u8>::empty());
    } else {
        lemma_o1_parse(tabs, tail, c - 1);
        let k = o1_count(tabs, c - 1);
        let p: int = 2 + o1_records(tabs, c - 1).len() as int;
        match tabs[c - 1] {
            None => {
                assert(o1_records(tabs, c) == o1_records(tabs, c - 1));
            },
            Some(t) => {
                let tb = table_bytes(t);
                let rec = seq![(c - 1) as u8] + crate::bytes::le32_bytes(tb.len() as u32) + tb;
                let rc = o1_records(tabs, c);
                assert(rc == o1_records(tabs, c - 1) + rec);
                let base = o1_records(tabs, c - 1).len() as int;
                assert forall|m: int| 0 <= m < rec.len() implies #[trigger] h[p + m] == rec[m] by {
                    lemma_o1_records_prefix(tabs, c, 256, base + m);
                    assert(h[p + m] == o1_records(tabs, 256)[base + m]);
                    assert(rc[base + m] == rec[m]);
                }
                lemma_o1_records_prefix(tabs, c, 256, base + rec.len() - 1);
                assert(tb.len() <= 2 + 5 * 256) by {
                    lemma_nonzero_count_le(t.freq@, 256);
                }
                assert(h[p] == (c - 1) as u8) by {
                    assert(h[p + 0] == rec[0]);
                }
                assert(h.subrange(p + 1, p + 5) =~= crate::bytes::le32_bytes(tb.len() as u32)) by {
                    assert forall|m: int| 0 <= m < 4 implies #[trigger] h.subrange(p + 1, p + 5)[m] == crate::bytes::le32_bytes(
                        tb.len() as u32,
                    )[m] by {
                        assert(h[p + (m + 1)] == rec[m + 1]);
                    }
                }
                crate::bytes::lemma_le32_roundtrip(tb.len() as u32);
                assert(h.subrange(p + 5, p + 5 + tb.len() as int) =~= tb) by {
                    assert forall|m: int| 0 <= m < tb.len() implies #[trigger] h.subrange(p + 5, p + 5 + tb.len() as int)[m] == tb[m] by {
                        assert(h[p + (m + 5)] == rec[m + 5]);
                    }
                }
                lemma_table_roundtrip(t, Seq::<u8>::empty());
                assert(tb + Seq::<u8>::empty() =~= tb);
                assert(o1_pos(h, k + 1) == Some(p + 5 + tb.len() as int));
                assert(o1_count(tabs, c) == k + 1);
                assert(o1_ctx(h, k) == c - 1);
                assert(o1_sub(h, k) == tb);
                assert forall|j: nat| j < o1_count(tabs, c) implies {
                    &&& o1_pos(h, j) is Some
                    &&& 0 <= #[trigger] o1_ctx(h, j) < c
                    &&& tabs[o1_ctx(h, j)] is Some
                    &&& o1_count(tabs, o1_ctx(h, j)) == j
                    &&& o1_sub(h, j) == table_bytes(tabs[o1_ctx(h, j)]->0)
                } by {
                    if j < k {
                        assert(0 <= o1_ctx(h, j) < c - 1);
                    }
                }
            },
        }
    }
}


proof fn lemma_last_rec_none(h: Seq<u8>, m: nat, c: int)
    requires
        forall|j: nat| j < m ==> #[trigger] o1_ctx(h, j) != c,
    ensures
        last_rec(h, m, c) == -1,
    decreases m,
{
    if m > 0 {
        assert(o1_ctx(h, (m - 1) as nat) != c);
        lemma_last_rec_none(h, (m - 1) as nat, c);
    }
}

proof fn lemma_last_rec_unique(h: Seq<u8>, m: nat, c: int, j0: nat)
    requires
        j0 < m,
        o1_ctx(h, j0) == c,
        forall|j: nat| j0 < j < m ==> #[trigger] o1_ctx(h, j) != c,
    ensures
        last_rec(h, m, c) == j0,
    decreases m,
{
    if m - 1 > j0 {
        assert(o1_ctx(h, (m - 1) as nat) != c);
        lemma_last_rec_unique(h, (m - 1) as nat, c, j0);
    }
}

proof fn lemma_fallback_unique(a: FreqTable, b: FreqTable)
    requires
        fallback_ok(a),
        fallback_ok(b),
    ensures
        a == b,
{
    assert(a.freq@ =~= b.freq@) by {
        assert forall|s: int| 0 <= s < 256 implies a.freq@[s] == b.freq@[s] by {
            assert(a.freq@[s] == 8 && b.freq@[s] == 8);
        }
    }
    lemma_cumsum_unique(a, b);
    assert(a.freq =~= b.freq);
    assert(a.cumsum =~= b.cumsum);
}

proof fn lemma_o1_count_le(tabs: Seq<Option<FreqTable>>, c: int)
    ensures
        o1_count(tabs, c) <= if c < 0 { 0 } else { c },
    decreases c,
{
    if c > 0 {
        lemma_o1_count_le(tabs, c - 1);
    }
}

/// The order-1 stream for `d` fits the 32-bit length field it is stored
/// under.
pub open spec fn o1_stream_fits(d: Seq<u8>) -> bool {
    forall|tabs: Seq<Option<FreqTable>>, fb: FreqTable| #[trigger] o1_built(d, tabs) && #[trigger] fallback_ok(fb)
        ==> enc_o1_from(tabs, fb, d, 0).1.len() + flush_bytes(enc_o1_from(tabs, fb, d, 0).0).len() <= u32::MAX
}

/// Decompressing an order-1 compression gives the input back, whenever its
/// stream fits its 32-bit length field: the stored length is the input's,
/// and the tables read from the output decode its stream to the input.
#[verifier::spinoff_prover]
#[verifier::rlimit(60)]
pub proof fn lemma_o1_roundtrip(d: Seq<u8>, out: Seq<u8>)
    requires
        o1_compressed_as(d, out),
        d.len() <= u32::MAX,
        o1_stream_fits(d),
    ensures
        !o1_fails(out),
        o1_input_ok(out),
        stored_len(out) == d.len(),
        forall|ptabs: Seq<Option<FreqTable>>, fb2: FreqTable|
            #[trigger] o1_read(out.skip(4), ptabs) && #[trigger] fallback_ok(fb2) ==> o1_decoded(out, ptabs, fb2) == d,
{
    let (tabs, fb) = choose|tabs: Seq<Option<FreqTable>>, fb: FreqTable|
        #[trigger] o1_built(d, tabs) && #[trigger] fallback_ok(fb) && out == o1_compressed(tabs, fb, d);
    let n = d.len();
    crate::bytes::lemma_le32_roundtrip(n as u32);
    assert(out.take(4) =~= crate::bytes::le32_bytes(n as u32));
    if n == 0 {
        return;
    }
    let (x0, e0) = enc_o1_from(tabs, fb, d, 0);
    let fl = flush_bytes(x0);
    let st = (e0 + fl).reverse();
    lemma_enc_o1_range(tabs, fb, d, 0);
    lemma_flush_len(x0);
    let tail = crate::bytes::le32_bytes(st.len() as u32) + st;
    let h = out.skip(4);
    assert(h =~= o1_header(tabs) + tail);
    assert forall|a: int| 0 <= a < 256 && (#[trigger] tabs[a]) is Some implies table_full(tabs[a]->0) by {}
    lemma_o1_parse(tabs, tail, 256);
    let cnt = o1_count(tabs, 256);
    lemma_o1_count_le(tabs, 256);
    crate::bytes::lemma_le16_roundtrip(cnt as u16);
    assert(h.subrange(0, 2) =~= crate::bytes::le16_bytes(cnt as u16));
    assert(o1_announced(h) == crate::bytes::le16_value(h.subrange(0, 2)));
    assert(o1_announced(h) == cnt);
    let hsz: int = 2 + o1_records(tabs, 256).len() as int;
    assert(o1_size(h) == hsz);
    assert(out.skip(4 + hsz) =~= tail);
    crate::bytes::lemma_le32_roundtrip(st.len() as u32);
    assert(tail.take(4) =~= crate::bytes::le32_bytes(st.len() as u32));
    assert(stored_stream(out, hsz) =~= st);
    assert(o1_tables_ok(h)) by {
        assert forall|j: nat|
            j < o1_announced(h) && #[trigger] o1_pos(h, j) is Some && o1_pos(h, j)->0 + 5 <= h.len() && o1_pos(h, j)->0 + 5
                + crate::bytes::le32_value(h.subrange(o1_pos(h, j)->0 + 1, o1_pos(h, j)->0 + 5)) <= h.len() implies !table_degenerate(
            o1_sub(h, j),
        ) && (table_fits(o1_sub(h, j)) ==> parsed_total(o1_sub(h, j), record_count(o1_sub(h, j))) > 0) by {
            let c = o1_ctx(h, j);
            let t = tabs[c]->0;
            lemma_table_roundtrip(t, Seq::<u8>::empty());
            assert(table_bytes(t) + Seq::<u8>::empty() =~= table_bytes(t));
        }
    }
    assert forall|ptabs: Seq<Option<FreqTable>>, fb2: FreqTable|
        #[trigger] o1_read(out.skip(4), ptabs) && #[trigger] fallback_ok(fb2) implies o1_decoded(out, ptabs, fb2) == d by {
        lemma_fallback_unique(fb, fb2);
        assert forall|c: int| 0 <= c < 256 implies #[trigger] ptabs[c] == tabs[c] by {
            match tabs[c] {
                None => {
                    assert forall|j: nat| j < cnt implies #[trigger] o1_ctx(h, j) != c by {}
                    lemma_last_rec_none(h, cnt, c);
                },
                Some(t) => {
                    let j0 = o1_count(tabs, c);
                    lemma_o1_count_le(tabs, c);
                    assert(o1_count(tabs, c + 1) == j0 + 1);
                    assert(j0 < cnt) by {
                        assert forall|a: int, b: int| 0 <= a <= b <= 256 implies o1_count(tabs, a) <= o1_count(tabs, b) by {
                            lemma_o1_count_mono(tabs, a, b);
                        }
                    }
                    assert(o1_ctx(h, j0) == c) by {
                        let c2 = o1_ctx(h, j0);
                        if c2 < c {
                            lemma_o1_count_mono(tabs, c2 + 1, c);
                            assert(o1_count(tabs, c2 + 1) == j0 + 1);
                        } else if c2 > c {
                            lemma_o1_count_mono(tabs, c + 1, c2);
                        }
                    }
                    assert forall|j: nat| j0 < j < cnt implies #[trigger] o1_ctx(h, j) != c by {}
                    lemma_last_rec_unique(h, cnt, c, j0);
                    let t2 = ptabs[c]->0;
                    lemma_table_roundtrip(t, Seq::<u8>::empty());
                    assert(table_bytes(t) + Seq::<u8>::empty() =~= table_bytes(t));
                    assert(t2.freq =~= t.freq);
                    assert(t2.cumsum =~= t.cumsum);
                },
            }
        }
        assert(ptabs =~= tabs);
        assert(st.subrange(0, fl.len() as int) =~= fl.reverse());
        lemma_refill_flush(x0, st, 0, 2048);
        assert(refill(st, fl.len() as int, x0, 2048) == (x0, fl.len() as int));
        lemma_decode_o1_from(tabs, fb, d, 0);
        assert(d.skip(0) =~= d);
    }
}

proof fn lemma_o1_count_mono(tabs: Seq<Option<FreqTable>>, a: int, b: int)
    requires
        0 <= a <= b,
    ensures
        o1_count(tabs, a) <= o1_count(tabs, b),
    decreases b - a,
{
    if a < b {
        lemma_o1_count_mono(tabs, a, b - 1);
    }
}


proof fn lemma_flat_index(c1: int, s1: int, c2: int, s2: int)
    requires
        0 <= c1 < 256,
        0 <= s1 < 256,
        0 <= c2 < 256,
        0 <= s2 < 256,
        c1 * 256 + s1 == c2 * 256 + s2,
    ensures
        c1 == c2 && s1 == s2,
{
    assert(c1 == c2 && s1 == s2) by (nonlinear_arith)
        requires 0 <= s1 < 256, 0 <= s2 < 256, c1 * 256 + s1 == c2 * 256 + s2;
}

/// Build the context tables of `data`.
fn build_o1_tables(data: &[u8]) -> (tabs: Vec<Option<FreqTable>>)
    requires
        1 <= data@.len() <= u32::MAX,
    ensures
        o1_built(data@, tabs@),
{
    let mut raw: Vec<u32> = Vec::new();
    let mut k: usize = 0;
    while k < 65536
        invariant
            k <= 65536,
            raw@.len() == k,
            forall|j: int| 0 <= j < k ==> #[trigger] raw@[j] == 0,
        decreases 65536 - k,
    {
        raw.push(0);
        k = k + 1;
    }
    let mut counts: Vec<u32> = Vec::new();
    let mut k: usize = 0;
    while k < 256
        invariant
            k <= 256,
            counts@.len() == k,
            forall|j: int| 0 <= j < k ==> #[trigger] counts@[j] == 0,
        decreases 256 - k,
    {
        counts.push(0);
        k = k + 1;
    }
    let mut i: usize = 1;
    proof {
        assert forall|c: int, s: int| 0 <= c < 256 && 0 <= s < 256 implies #[trigger] raw@[c * 256 + s] as int == pair_count(
            data@.take(1),
            c,
            s,
        ) by {
            assert(0 <= c * 256 + s < 65536) by (nonlinear_arith)
                requires 0 <= c < 256, 0 <= s < 256;
            assert(data@.take(1).len() == 1);
        }
        assert forall|c: int| 0 <= c < 256 implies #[trigger] counts@[c] as int == ctx_count(data@.take(1), c) by {
            assert(data@.take(1).len() == 1);
        }
    }
    while i < data.len()
        invariant
            1 <= i <= data@.len(),
            data@.len() <= u32::MAX,
            raw@.len() == 65536,
            counts@.len() == 256,
            forall|c: int, s: int| 0 <= c < 256 && 0 <= s < 256 ==> #[trigger] raw@[c * 256 + s] as int == pair_count(
                data@.take(i as int),
                c,
                s,
            ),
            forall|c: int| 0 <= c < 256 ==> #[trigger] counts@[c] as int == ctx_count(data@.take(i as int), c),
            forall|c: int| 0 <= c < 256 ==> #[trigger] counts@[c] <= i,
        decreases data@.len() - i,
    {
        let ctx = data[i - 1] as usize;
        let sym = data[i] as usize;
        let ghost r0 = raw@;
        let ghost c0 = counts@;
        proof {
            lemma_pair_le_ctx(data@.take(i as int), ctx as int, sym as int);
            assert(0 <= ctx * 256 + sym < 65536) by (nonlinear_arith)
                requires 0 <= ctx < 256, 0 <= sym < 256;
        }
        let idx = ctx * 256 + sym;
        raw.set(idx, raw[idx] + 1);
        counts.set(ctx, counts[ctx] + 1);
        proof {
            let d1 = data@.take(i + 1);
            assert(d1.drop_last() =~= data@.take(i as int));
            assert(d1[d1.len() - 2] == data@[i - 1] && d1.last() == data@[i as int]);
            assert forall|c: int, s: int| 0 <= c < 256 && 0 <= s < 256 implies #[trigger] raw@[c * 256 + s] as int == pair_count(
                d1,
                c,
                s,
            ) by {
                assert(0 <= c * 256 + s < 65536) by (nonlinear_arith)
                    requires 0 <= c < 256, 0 <= s < 256;
                if c * 256 + s == idx {
                    lemma_flat_index(c, s, ctx as int, sym as int);
                } else {
                    assert(raw@[c * 256 + s] == r0[c * 256 + s]);
                    if c == ctx && s == sym {
                        assert(false);
                    }
                }
            }
            assert forall|c: int| 0 <= c < 256 implies #[trigger] counts@[c] as int == ctx_count(d1, c) by {
                if c != ctx {
                    assert(counts@[c] == c0[c]);
                }
            }
            assert forall|c: int| 0 <= c < 256 implies #[trigger] counts@[c] <= i + 1 by {
                if c != ctx {
                    assert(counts@[c] == c0[c]);
                }
            }
        }
        i = i + 1;
    }
    proof {
        assert(data@.take(i as int) =~= data@);
    }
    let mut tabs: Vec<Option<FreqTable>> = Vec::new();
    let mut c: usize = 0;
    while c < 256
        invariant
            c <= 256,
            raw@.len() == 65536,
            counts@.len() == 256,
            data@.len() <= u32::MAX,
            forall|c: int, s: int| 0 <= c < 256 && 0 <= s < 256 ==> #[trigger] raw@[c * 256 + s] as int == pair_count(data@, c, s),
            forall|c: int| 0 <= c < 256 ==> #[trigger] counts@[c] as int == ctx_count(data@, c),
            tabs@.len() == c,
            forall|a: int|
                0 <= a < c ==> match #[trigger] tabs@[a] {
                    None => ctx_count(data@, a) == 0,
                    Some(t) => {
                        &&& ctx_count(data@, a) > 0
                        &&& table_full(t)
                        &&& normalized(pair_counts(data@, a), ctx_count(data@, a) as int, freq_view(t))
                        &&& forall|s: int| 0 <= s < 256 ==> (#[trigger] t.freq@[s] > 0 <==> pair_count(data@, a, s) > 0)
                    },
                },
        decreases 256 - c,
    {
        if counts[c] > 0 {
            let mut arr: [u32; 256] = [0u32; 256];
            let mut s: usize = 0;
            while s < 256
                invariant
                    s <= 256,
                    c < 256,
                    raw@.len() == 65536,
                    forall|c: int, s: int| 0 <= c < 256 && 0 <= s < 256 ==> #[trigger] raw@[c * 256 + s] as int == pair_count(data@, c, s),
                    forall|t: int| 0 <= t < s ==> #[trigger] arr@[t] as int == pair_count(data@, c as int, t),
                decreases 256 - s,
            {
                proof {
                    assert(0 <= c * 256 + s < 65536) by (nonlinear_arith)
                        requires 0 <= c < 256, 0 <= s < 256;
                }
                let ghost a0 = arr@;
                arr[s] = raw[c * 256 + s];
                proof {
                    assert(raw@[c * 256 + s] as int == pair_count(data@, c as int, s as int));
                    assert forall|t: int| 0 <= t < s + 1 implies #[trigger] arr@[t] as int == pair_count(data@, c as int, t) by {
                        if t < s {
                            assert(arr@[t] == a0[t]);
                        }
                    }
                }
                s = s + 1;
            }
            proof {
                assert(raw_view(arr) =~= pair_counts(data@, c as int));
                assert forall|t: int| 0 <= t < 256 implies arr@[t] <= counts@[c as int] by {
                    lemma_pair_le_ctx(data@, c as int, t);
                }
                lemma_ctx_witness(data@, c as int);
                let w = choose|w: int| 0 <= w < 256 && #[trigger] pair_count(data@, c as int, w) > 0;
                assert(arr@[w] > 0);
            }
            let t = normalize(&arr, counts[c] as u64);
            tabs.push(Some(t));
        } else {
            tabs.push(None);
        }
        c = c + 1;
    }
    tabs
}

spec fn const_seq(k: nat, v: int) -> Seq<int> {
    Seq::new(k, |i: int| v)
}

proof fn lemma_sum_const(k: nat, v: int)
    ensures
        sum_of(const_seq(k, v)) == k * v,
    decreases k,
{
    if k > 0 {
        lemma_sum_const((k - 1) as nat, v);
        assert(const_seq(k, v).drop_last() =~= const_seq((k - 1) as nat, v));
        assert(const_seq(k, v).last() == v);
        assert((k - 1) * v + v == k * v) by (nonlinear_arith);
    } else {
        assert(const_seq(k, v).len() == 0);
    }
}

/// The fallback table: every byte counted once, normalized.
fn o1_fallback() -> (t: FreqTable)
    ensures
        fallback_ok(t),
{
    let raw: [u32; 256] = [1u32; 256];
    proof {
        assert(raw@[0] == 1);
        assert forall|s: int| 0 <= s < 256 implies raw@[s] <= 256 by {
            assert(raw@[s] == 1);
        }
    }
    let t = normalize(&raw, 256);
    proof {
        let rv = raw_view(raw);
        let order = choose|order: Seq<int>| #[trigger] normalized_by(rv, 256, freq_view(t), order);
        let rounded = rounded_seq(rv, 256);
        assert((4096 * 1int + 256) / (2 * 256int) == 8) by (nonlinear_arith);
        assert(round_share(1, 256) == 8);
        assert(rounded =~= const_seq(256, 8));
        lemma_sum_const(256, 8);
        assert forall|s: int| 0 <= s < 256 implies #[trigger] t.freq@[s] == 8 by {
            assert(rv[s] == 1);
            assert(order.contains(s));
            let w = choose|w: int| 0 <= w < order.len() && order[w] == s;
            assert(freq_view(t)[order[w]] == share_at(rounded, order, 0, w));
            assert(0int / (order.len() as int) == 0 && 0int % (order.len() as int) == 0);
        }
    }
    t
}

/// Serialize the context tables.
fn serialize_o1(tabs: &Vec<Option<FreqTable>>) -> (out: Vec<u8>)
    requires
        tabs@.len() == 256,
    ensures
        out@ == o1_header(tabs@),
{
    let mut n: u16 = 0;
    let mut c: usize = 0;
    while c < 256
        invariant
            c <= 256,
            tabs@.len() == 256,
            n as int == o1_count(tabs@, c as int),
        decreases 256 - c,
    {
        proof {
            lemma_o1_count_le(tabs@, c as int);
        }
        if tabs[c].is_some() {
            n = n + 1;
        }
        c = c + 1;
    }
    let mut out: Vec<u8> = Vec::new();
    crate::bytes::push_le16(&mut out, n);
    let mut c: usize = 0;
    while c < 256
        invariant
            c <= 256,
            tabs@.len() == 256,
            n as int == o1_count(tabs@, 256),
            out@ == crate::bytes::le16_bytes(n) + o1_records(tabs@, c as int),
        decreases 256 - c,
    {
        match &tabs[c] {
            Some(t) => {
                out.push(c as u8);
                let fb = t.serialize();
                crate::bytes::push_le32(&mut out, fb.len() as u32);
                crate::bytes::append_bytes(&mut out, fb.as_slice());
            },
            None => {},
        }
        proof {
            assert(out@ =~= crate::bytes::le16_bytes(n) + o1_records(tabs@, c + 1));
        }
        c = c + 1;
    }
    out
}


proof fn lemma_o1_pos_fail(h: Seq<u8>, k: nat, m: nat)
    requires
        k <= m,
        o1_pos(h, k) is None,
    ensures
        o1_pos(h, m) is None,
    decreases m - k,
{
    if k < m {
        lemma_o1_pos_fail(h, k + 1, m);
    }
}

/// The context tables read from `h`, each table coding (2048 slots).
pub open spec fn o1_read_full(h: Seq<u8>, tabs: Seq<Option<FreqTable>>) -> bool {
    &&& o1_read(h, tabs)
    &&& forall|c: int| 0 <= c < 256 && (#[trigger] tabs[c]) is Some ==> table_full(tabs[c]->0)
}

/// Read serialized context tables and the number of bytes they take.
fn deserialize_o1(data: &[u8]) -> (r: Option<(Vec<Option<FreqTable>>, usize)>)
    requires
        data@.len() >= 2 ==> o1_tables_ok(data@),
    ensures
        match r {
            None => !o1_parses(data@),
            Some((tabs, size)) => o1_parses(data@) && size == o1_size(data@) && o1_read_full(data@, tabs@),
        },
{
    if data.len() < 2 {
        return None;
    }
    let n_ctx = crate::bytes::read_le16(data, 0) as usize;
    proof {
        assert(data@.subrange(0, 2)[0] == data@[0] && data@.subrange(0, 2)[1] == data@[1]);
        assert(crate::bytes::le16_value(data@.subrange(0, 2)) == crate::bytes::le16_value(data@));
    }
    let mut pos: usize = 2;
    let mut tables: Vec<Option<FreqTable>> = Vec::new();
    let mut c: usize = 0;
    while c < 256
        invariant
            c <= 256,
            tables@.len() == c,
            forall|a: int| 0 <= a < c ==> #[trigger] tables@[a] is None,
        decreases 256 - c,
    {
        tables.push(None);
        c = c + 1;
    }
    let mut i: usize = 0;
    while i < n_ctx
        invariant
            i <= n_ctx,
            n_ctx == o1_announced(data@),
            data@.len() >= 2,
            o1_tables_ok(data@),
            o1_pos(data@, i as nat) == Some(pos as int),
            pos <= data@.len(),
            tables@.len() == 256,
            forall|a: int|
                0 <= a < 256 ==> match #[trigger] tables@[a] {
                    None => last_rec(data@, i as nat, a) < 0,
                    Some(t) => {
                        let k = last_rec(data@, i as nat, a);
                        &&& k >= 0
                        &&& read_table(o1_sub(data@, k as nat), t, 2 + 5 * record_count(o1_sub(data@, k as nat)))
                        &&& table_full(t)
                    },
                },
        decreases n_ctx - i,
    {
        if data.len() - pos < 5 {
            proof {
                lemma_o1_pos_fail(data@, (i + 1) as nat, n_ctx as nat);
            }
            return None;
        }
        let ctx = data[pos] as usize;
        let fb_len = crate::bytes::read_le32(data, pos + 1) as usize;
        if data.len() - (pos + 5) < fb_len {
            proof {
                lemma_o1_pos_fail(data@, (i + 1) as nat, n_ctx as nat);
            }
            return None;
        }
        let sub = vstd::slice::slice_subrange(data, pos + 5, pos + 5 + fb_len);
        proof {
            assert(sub@ == o1_sub(data@, i as nat));
            assert(o1_pos(data@, i as nat) is Some);
        }
        let (table, _) = match FreqTable::deserialize(sub) {
            Some(v) => v,
            None => {
                proof {
                    lemma_o1_pos_fail(data@, (i + 1) as nat, n_ctx as nat);
                }
                return None;
            },
        };
        let ghost t0 = tables@;
        tables.set(ctx, Some(table));
        proof {
            assert(o1_ctx(data@, i as nat) == ctx);
            assert forall|a: int| 0 <= a < 256 implies match #[trigger] tables@[a] {
                None => last_rec(data@, (i + 1) as nat, a) < 0,
                Some(t) => {
                    let k = last_rec(data@, (i + 1) as nat, a);
                    &&& k >= 0
                    &&& read_table(o1_sub(data@, k as nat), t, 2 + 5 * record_count(o1_sub(data@, k as nat)))
                    &&& table_full(t)
                },
            } by {
                if a != ctx {
                    assert(tables@[a] == t0[a]);
                }
            }
        }
        pos = pos + 5 + fb_len;
        i = i + 1;
    }
    Some((tables, pos))
}

/// Compress with one table per preceding byte.
pub fn compress_o1(data: &[u8]) -> (out: Vec<u8>)
    requires
        data@.len() <= u32::MAX,
    ensures
        o1_compressed_as(data@, out@),
{
    let mut out: Vec<u8> = Vec::new();
    crate::bytes::push_le32(&mut out, data.len() as u32);
    let fallback = o1_fallback();
    if data.len() == 0 {
        crate::bytes::push_le16(&mut out, 0);
        proof {
            let tabs = Seq::new(256, |c: int| None::<FreqTable>);
            assert(o1_built(data@, tabs));
            assert(out@ =~= o1_compressed(tabs, fallback, data@));
        }
        return out;
    }
    let tables = build_o1_tables(data);
    let hdr = serialize_o1(&tables);
    crate::bytes::append_bytes(&mut out, hdr.as_slice());
    let ghost tabs = tables@;
    let n = data.len();
    let mut stream: Vec<u8> = Vec::new();
    let mut x: u32 = fallback.total;
    let mut i: usize = n;
    while i > 0
        invariant
            i <= n,
            n == data@.len(),
            tabs == tables@,
            o1_built(data@, tabs),
            fallback_ok(fallback),
            1 <= x < 0x100000,
            (x as int, stream@) == enc_o1_from(tabs, fallback, data@, i as int),
        decreases i,
    {
        let k = i - 1;
        let sym = data[k] as usize;
        let tbl: &FreqTable = if k == 0 {
            &fallback
        } else {
            match &tables[data[k - 1] as usize] {
                Some(t) => t,
                None => &fallback,
            }
        };
        proof {
            assert(*tbl == tab_at(tabs, fallback, data@, k as int));
            assert(table_full(*tbl));
            lemma_cumsum_mono(*tbl, sym + 1, 256);
            assert(tbl.cumsum@[sym + 1] == tbl.cumsum@[sym as int] + tbl.freq@[sym as int]);
        }
        let f = if tbl.freq[sym] < 1 { 1 } else { tbl.freq[sym] };
        let cs = tbl.cumsum[sym];
        let tot = tbl.total;
        let ghost x_in = x as int;
        let ghost e_in = stream@;
        while x >= f * 256
            invariant
                1 <= f <= 2048,
                1 <= x,
                stream@ + renorm_bytes(x as int, f as int).1 == e_in + renorm_bytes(x_in, f as int).1,
                renorm_bytes(x as int, f as int).0 == renorm_bytes(x_in, f as int).0,
            decreases x,
        {
            stream.push((x % 256) as u8);
            x = x / 256;
            proof {
                assert(stream@ + renorm_bytes(x as int, f as int).1 =~= e_in + renorm_bytes(x_in, f as int).1);
            }
        }
        proof {
            let xi = x as int;
            let fi = f as int;
            assert(xi / fi < 256) by (nonlinear_arith)
                requires fi >= 1, xi < 256 * fi;
            assert(0 <= xi % fi < fi) by (nonlinear_arith)
                requires fi >= 1;
            assert((xi / fi) * 2048 <= 255 * 2048) by (nonlinear_arith)
                requires xi / fi < 256, xi / fi >= 0;
            assert(used_freq(*tbl, sym as int) == f);
        }
        proof {
            let xi = x as int;
            let fi = f as int;
            assert((xi / fi) * 2048 + xi % fi >= 1) by (nonlinear_arith)
                requires xi >= 1, fi >= 1;
        }
        x = (x / f) * tot + (x % f) + cs;
        i = i - 1;
    }
    let ghost x0 = x as int;
    let ghost e0 = stream@;
    while x > 0
        invariant
            stream@ + flush_bytes(x as int) == e0 + flush_bytes(x0),
        decreases x,
    {
        stream.push((x % 256) as u8);
        x = x / 256;
        proof {
            assert(stream@ + flush_bytes(x as int) =~= e0 + flush_bytes(x0));
        }
    }
    proof {
        assert(stream@ =~= e0 + flush_bytes(x0));
    }
    let st = reversed(&stream);
    crate::bytes::push_le32(&mut out, st.len() as u32);
    crate::bytes::append_bytes(&mut out, st.as_slice());
    proof {
        assert(out@ =~= o1_compressed(tabs, fallback, data@));
    }
    out
}


/// Decompress an order-1 stream.
pub fn decompress_o1(data: &[u8]) -> (r: Option<Vec<u8>>)
    requires
        o1_input_ok(data@),
    ensures
        match r {
            None => o1_fails(data@),
            Some(v) => !o1_fails(data@) && (stored_len(data@) == 0 ==> v@.len() == 0) && (stored_len(data@) != 0 ==> exists|
                tabs: Seq<Option<FreqTable>>,
                fb: FreqTable,
            | #[trigger] o1_read(data@.skip(4), tabs) && #[trigger] fallback_ok(fb) && v@ == o1_decoded(data@, tabs, fb)),
        },
{
    if data.len() < 4 {
        return None;
    }
    let orig = crate::bytes::read_le32(data, 0) as usize;
    proof {
        assert(data@.subrange(0, 4) =~= data@.take(4));
    }
    if orig == 0 {
        return Some(Vec::new());
    }
    let tail = vstd::slice::slice_subrange(data, 4, data.len());
    proof {
        assert(tail@ =~= data@.skip(4));
    }
    let (tables, o1sz) = match deserialize_o1(tail) {
        Some(v) => v,
        None => {
            return None;
        },
    };
    if tail.len() - o1sz < 4 {
        proof {
            assert(data@.skip(4 + o1sz as int) =~= tail@.skip(o1sz as int));
        }
        return None;
    }
    let rest = vstd::slice::slice_subrange(data, 4 + o1sz, data.len());
    proof {
        assert(rest@ =~= data@.skip(4 + o1sz as int));
        assert(!o1_fails(data@));
        assert(rest@.subrange(0, 4) =~= rest@.take(4));
    }
    let slen = crate::bytes::read_le32(rest, 0) as usize;
    let avail = rest.len() - 4;
    let take = if slen < avail { slen } else { avail };
    let stream = vstd::slice::slice_subrange(rest, 4, 4 + take);
    let ghost st = stream@;
    let ghost tabs = tables@;
    proof {
        assert(st =~= stored_stream(data@, o1sz as int));
    }
    let fallback = o1_fallback();
    let init_total = fallback.total;
    let mut x: u32 = 0;
    let mut pos: usize = 0;
    while pos < stream.len() && x < init_total
        invariant
            init_total == 2048,
            st == stream@,
            pos <= st.len(),
            x < 256 * 2048,
            refill(st, pos as int, x as int, 2048) == refill(st, 0, 0, 2048),
        decreases st.len() - pos,
    {
        x = x * 256 + stream[pos] as u32;
        pos = pos + 1;
    }
    let ghost x0 = x as int;
    let ghost p0 = pos as int;
    let mut out: Vec<u8> = Vec::new();
    let mut prev: usize = NO_CONTEXT;
    proof {
        assert(out@ + decode_o1_run(tabs, fallback, st, p0, x0, NO_CONTEXT as int, orig as nat) =~= decode_o1_run(
            tabs,
            fallback,
            st,
            p0,
            x0,
            NO_CONTEXT as int,
            orig as nat,
        ));
    }
    while out.len() < orig
        invariant
            o1_read_full(tail@, tabs),
            tabs == tables@,
            fallback_ok(fallback),
            st == stream@,
            pos <= st.len(),
            prev <= NO_CONTEXT,
            x < 256 * 2048,
            out@.len() <= orig,
            out@ + decode_o1_run(tabs, fallback, st, pos as int, x as int, prev as int, (orig - out@.len()) as nat)
                == decode_o1_run(tabs, fallback, st, p0, x0, NO_CONTEXT as int, orig as nat),
        decreases orig - out@.len(),
    {
        let tbl: &FreqTable = if prev == NO_CONTEXT {
            &fallback
        } else {
            match &tables[prev] {
                Some(t) => t,
                None => &fallback,
            }
        };
        proof {
            assert(*tbl == ctx_table(tabs, fallback, prev as int));
            assert(table_full(*tbl));
        }
        let tot = tbl.total;
        let r = x % tot;
        let s = tbl.find_sym(r);
        proof {
            lemma_first_sym_found(*tbl, r as int, s as int, 0);
            if s > 0 {
                assert(tbl.cumsum@[(s - 1) + 1] <= r);
            }
            lemma_cumsum_mono(*tbl, s + 1, 256);
            assert(tbl.cumsum@[s + 1] == tbl.cumsum@[s as int] + tbl.freq@[s as int]);
        }
        let f = tbl.freq[s];
        let cs = tbl.cumsum[s];
        let q = x / tot;
        proof {
            assert(q * f + f <= 256 * 2048) by (nonlinear_arith)
                requires q < 256, f <= 2048;
        }
        x = q * f + (r - cs);
        let ghost o0 = out@;
        let ghost pb = pos as int;
        let ghost xb = x as int;
        out.push(s as u8);
        prev = s;
        while pos < stream.len() && x < tot
            invariant
                tot == 2048,
                st == stream@,
                pos <= st.len(),
                x < 256 * 2048,
                refill(st, pos as int, x as int, 2048) == refill(st, pb, xb, 2048),
            decreases st.len() - pos,
        {
            x = x * 256 + stream[pos] as u32;
            pos = pos + 1;
        }
        proof {
            assert(refill(st, pos as int, x as int, 2048) == (x as int, pos as int));
            assert(out@ =~= o0 + seq![s as u8]);
        }
    }
    proof {
        assert(out@.len() == orig);
        assert(decode_o1_run(tabs, fallback, st, pos as int, x as int, prev as int, 0) =~= Seq::<u8>::empty());
        assert(out@ =~= decode_o1_run(tabs, fallback, st, p0, x0, NO_CONTEXT as int, orig as nat));
        assert(o1_read(data@.skip(4), tabs));
        assert(out@ == o1_decoded(data@, tabs, fallback));
    }
    Some(out)
}

} // verus!
