//! Tokenizers: codon-table substitution, dictionary learning, category
//! pre-seeding, and the two-pass tokenizer container.
//!
//! Two-pass encoding:
//!   Pass 1: build a dictionary from the full buffer (merged with the
//!           category's pre-seeded entries), substitute tokens.
//!   Pass 2: build a dictionary from the residual (non-token) bytes only,
//!           apply it to the residual regions, merge the dictionaries.
//! Decoding is a single pass with the merged dictionary.

pub mod dictionary;
pub mod codon;
pub mod slots;
pub mod preseed;
pub mod lz77_gn;
pub mod sliding;
pub mod sliding_v2;
pub mod hybrid_async;

use vstd::prelude::*;
use crate::tokenizer::codon::{
    ESCAPE, decode_spec, encode_from, encode_spec, lit, token_piece, token_of, match_at, chosen, pattern_ok,
    lemma_decode_token, lemma_decode_lit, lemma_match_at_len, lemma_codon_lossless, lemma_small_dict_ids_faithful,
};
use crate::tokenizer::dictionary::{DictEntry, entry_bytes, residual_spec};

verus! {

// ---------------------------------------------------------------------------
// Token streams
// ---------------------------------------------------------------------------

/// `t` starts with a token pair: ESCAPE followed by an id byte.
pub open spec fn starts_token(t: Seq<u8>) -> bool {
    t.len() >= 2 && t[0] == ESCAPE
}

/// Every token pair that the decoder reads in `t` has an id of at most `n`.
pub open spec fn tokens_le(t: Seq<u8>, n: int) -> bool
    decreases t.len(),
{
    if t.len() == 0 {
        true
    } else if starts_token(t) {
        t[1] <= n && tokens_le(t.subrange(2, t.len() as int), n)
    } else {
        tokens_le(t.drop_first(), n)
    }
}

/// The length of the run of plain bytes at the start of `t`, up to the next
/// token pair.
pub open spec fn span_len(t: Seq<u8>) -> nat
    decreases t.len(),
{
    if t.len() == 0 || starts_token(t) {
        0
    } else {
        1 + span_len(t.drop_first())
    }
}

/// `e` with every nonzero token id raised by `off`.
pub open spec fn offset_spec(e: Seq<u8>, off: int) -> Seq<u8>
    decreases e.len(),
{
    if e.len() == 0 {
        Seq::empty()
    } else if starts_token(e) {
        seq![ESCAPE, if e[1] == 0 { 0u8 } else { (e[1] + off) as u8 }] + offset_spec(e.subrange(2, e.len() as int), off)
    } else {
        seq![e[0]] + offset_spec(e.drop_first(), off)
    }
}

/// A literal span is no longer than the stream, and not empty when the stream starts with a literal.
pub proof fn lemma_span_len_bound(t: Seq<u8>)
    ensures
        span_len(t) <= t.len(),
        t.len() > 0 && !starts_token(t) ==> span_len(t) >= 1,
    decreases t.len(),
{
    if t.len() > 0 && !starts_token(t) {
        lemma_span_len_bound(t.drop_first());
    }
}

/// The second-pass rewrite of a tokenized buffer: token pairs are kept,
/// each run of plain bytes is codon-encoded with `p2` and its ids raised
/// by `off`.
pub open spec fn apply_spec(t: Seq<u8>, p2: Seq<Seq<u8>>, off: int) -> Seq<u8>
    decreases t.len(),
{
    if t.len() == 0 {
        Seq::empty()
    } else if starts_token(t) {
        t.take(2) + apply_spec(t.subrange(2, t.len() as int), p2, off)
    } else {
        let e = span_len(t) as int;
        proof {
            lemma_span_len_bound(t);
        }
        offset_spec(encode_spec(t.take(e), p2), off) + apply_spec(t.skip(e), p2, off)
    }
}

/// Decoding a run of plain bytes copies it.
proof fn lemma_span_decode(t: Seq<u8>, p: Seq<Seq<u8>>)
    ensures
        decode_spec(t, p) == t.take(span_len(t) as int) + decode_spec(t.skip(span_len(t) as int), p),
    decreases t.len(),
{
    lemma_span_len_bound(t);
    if t.len() == 0 || starts_token(t) {
        assert(t.take(0) =~= Seq::<u8>::empty());
        assert(t.skip(0) =~= t);
    } else {
        let r = t.drop_first();
        lemma_span_decode(r, p);
        lemma_span_len_bound(r);
        let e = span_len(t) as int;
        assert(t.skip(e) =~= r.skip(e - 1));
        assert(t.take(e) =~= seq![t[0]] + r.take(e - 1));
    }
}

/// Skipping a run of plain bytes keeps the bound on token ids.
proof fn lemma_span_tokens(t: Seq<u8>, n: int)
    requires
        tokens_le(t, n),
    ensures
        tokens_le(t.skip(span_len(t) as int), n),
    decreases t.len(),
{
    if t.len() == 0 || starts_token(t) {
        assert(t.skip(0) =~= t);
    } else {
        let r = t.drop_first();
        lemma_span_tokens(r, n);
        lemma_span_len_bound(r);
        assert(t.skip(span_len(t) as int) =~= r.skip(span_len(r) as int));
    }
}

proof fn lemma_offset_token(id: u8, rest: Seq<u8>, off: int)
    ensures
        offset_spec(seq![ESCAPE, id] + rest, off) == seq![ESCAPE, if id == 0 { 0u8 } else { (id + off) as u8 }]
            + offset_spec(rest, off),
{
    let e = seq![ESCAPE, id] + rest;
    assert(e.subrange(2, e.len() as int) =~= rest);
}

proof fn lemma_offset_plain(b: u8, rest: Seq<u8>, off: int)
    requires
        b != ESCAPE,
    ensures
        offset_spec(seq![b] + rest, off) == seq![b] + offset_spec(rest, off),
{
    let e = seq![b] + rest;
    assert(e.drop_first() =~= rest);
}

/// Decoding a pass-two span encoding, with its ids raised past the first
/// dictionary, under the merged dictionary gives the span back.
proof fn lemma_offset_encode(s: Seq<u8>, p1: Seq<Seq<u8>>, p2: Seq<Seq<u8>>, pos: int, r: Seq<u8>)
    requires
        p1.len() + p2.len() <= 255,
        0 <= pos <= s.len(),
    ensures
        decode_spec(offset_spec(encode_from(s, p2, pos), p1.len() as int) + r, p1 + p2) == s.subrange(pos, s.len() as int)
            + decode_spec(r, p1 + p2),
    decreases s.len() - pos,
{
    let off = p1.len() as int;
    let pm = p1 + p2;
    if pos == s.len() {
        assert(encode_from(s, p2, pos) =~= Seq::<u8>::empty());
        assert(offset_spec(Seq::<u8>::empty(), off) =~= Seq::<u8>::empty());
        assert(Seq::<u8>::empty() + r =~= r);
        assert(s.subrange(pos, s.len() as int) =~= Seq::<u8>::empty());
        assert(Seq::<u8>::empty() + decode_spec(r, pm) =~= decode_spec(r, pm));
    } else {
        lemma_match_at_len(s, p2, pos);
        match match_at(s, p2, pos) {
            Some((t, l)) => {
                let j = choose|j: int| chosen(s, p2, pos, j);
                assert(pattern_ok(p2, j));
                assert(t == token_of(j));
                assert(t as int == j + 1);
                let rest = encode_from(s, p2, pos + l);
                lemma_offset_token(t, rest, off);
                let t2: u8 = (t + off) as u8;
                assert(t2 as int == j + 1 + off);
                lemma_offset_encode(s, p1, p2, pos + l, r);
                assert(seq![ESCAPE, t2] + offset_spec(rest, off) + r =~= seq![ESCAPE, t2] + (offset_spec(rest, off) + r));
                lemma_decode_token(t2, offset_spec(rest, off) + r, pm);
                assert(pm[j + off] == p2[j]);
                assert(token_piece(t2, pm) == p2[j]);
                assert(s.subrange(pos, pos + l) == p2[j]);
                assert(s.subrange(pos, s.len() as int) =~= s.subrange(pos, pos + l) + s.subrange(pos + l, s.len() as int));
            },
            None => {
                let b = s[pos];
                let rest = encode_from(s, p2, pos + 1);
                lemma_offset_encode(s, p1, p2, pos + 1, r);
                if b == ESCAPE {
                    assert(lit(b) =~= seq![ESCAPE, 0u8]);
                    lemma_offset_token(0u8, rest, off);
                    assert(seq![ESCAPE, 0u8] + offset_spec(rest, off) + r =~= seq![ESCAPE, 0u8] + (offset_spec(rest, off) + r));
                    lemma_decode_token(0u8, offset_spec(rest, off) + r, pm);
                } else {
                    assert(lit(b) =~= seq![b]);
                    lemma_offset_plain(b, rest, off);
                    assert(seq![b] + offset_spec(rest, off) + r =~= lit(b) + (offset_spec(rest, off) + r));
                    lemma_decode_lit(b, offset_spec(rest, off) + r, pm);
                }
                assert(s.subrange(pos, s.len() as int) =~= seq![b] + s.subrange(pos + 1, s.len() as int));
            },
        }
    }
}

/// The second pass changes nothing that the merged dictionary decodes,
/// when the first-pass stream only uses ids of the first dictionary.
pub proof fn lemma_apply_decode(t: Seq<u8>, p1: Seq<Seq<u8>>, p2: Seq<Seq<u8>>)
    requires
        tokens_le(t, p1.len() as int),
        p1.len() + p2.len() <= 255,
    ensures
        decode_spec(apply_spec(t, p2, p1.len() as int), p1 + p2) == decode_spec(t, p1),
    decreases t.len(),
{
    let off = p1.len() as int;
    let pm = p1 + p2;
    if t.len() == 0 {
    } else if starts_token(t) {
        let rest = t.subrange(2, t.len() as int);
        lemma_apply_decode(rest, p1, p2);
        assert(t.take(2) =~= seq![ESCAPE, t[1]]);
        lemma_decode_token(t[1], apply_spec(rest, p2, off), pm);
        if t[1] != 0 {
            assert(pm[t[1] - 1] == p1[t[1] - 1]);
        }
        assert(token_piece(t[1], pm) == token_piece(t[1], p1));
    } else {
        lemma_span_len_bound(t);
        let e = span_len(t) as int;
        let s = t.take(e);
        let rest = t.skip(e);
        lemma_span_tokens(t, off);
        lemma_apply_decode(rest, p1, p2);
        lemma_offset_encode(s, p1, p2, 0, apply_spec(rest, p2, off));
        assert(s.subrange(0, s.len() as int) =~= s);
        lemma_span_decode(t, p1);
    }
}

/// Codon encoding with at most 255 entries only emits ids of entries.
pub proof fn lemma_encode_tokens_le(buf: Seq<u8>, pats: Seq<Seq<u8>>, pos: int)
    requires
        pats.len() <= 255,
        0 <= pos <= buf.len(),
    ensures
        tokens_le(encode_from(buf, pats, pos), pats.len() as int),
    decreases buf.len() - pos,
{
    if pos < buf.len() {
        lemma_match_at_len(buf, pats, pos);
        match match_at(buf, pats, pos) {
            Some((t, l)) => {
                let j = choose|j: int| chosen(buf, pats, pos, j);
                assert(pattern_ok(pats, j));
                lemma_encode_tokens_le(buf, pats, pos + l);
                let e = encode_from(buf, pats, pos);
                assert(e.subrange(2, e.len() as int) =~= encode_from(buf, pats, pos + l));
            },
            None => {
                lemma_encode_tokens_le(buf, pats, pos + 1);
                let e = encode_from(buf, pats, pos);
                if buf[pos] == ESCAPE {
                    assert(e.subrange(2, e.len() as int) =~= encode_from(buf, pats, pos + 1));
                } else {
                    assert(e.drop_first() =~= encode_from(buf, pats, pos + 1));
                }
            },
        }
    }
}

/// The residual of a codon encoding is no longer than what was encoded.
pub proof fn lemma_encode_residual_len(buf: Seq<u8>, pats: Seq<Seq<u8>>, pos: int)
    requires
        0 <= pos <= buf.len(),
    ensures
        residual_spec(encode_from(buf, pats, pos)).len() <= buf.len() - pos,
    decreases buf.len() - pos,
{
    if pos < buf.len() {
        lemma_match_at_len(buf, pats, pos);
        let e = encode_from(buf, pats, pos);
        match match_at(buf, pats, pos) {
            Some((t, l)) => {
                lemma_encode_residual_len(buf, pats, pos + l);
                assert(e.subrange(2, e.len() as int) =~= encode_from(buf, pats, pos + l));
            },
            None => {
                lemma_encode_residual_len(buf, pats, pos + 1);
                if buf[pos] == ESCAPE {
                    assert(e.subrange(2, e.len() as int) =~= encode_from(buf, pats, pos + 1));
                } else {
                    assert(e.drop_first() =~= encode_from(buf, pats, pos + 1));
                }
            },
        }
    }
}


// ---------------------------------------------------------------------------
// Second pass
// ---------------------------------------------------------------------------

/// Apply the pass-two dictionary to the plain-byte runs of a tokenized
/// buffer. Token pairs are copied unchanged; pass-two ids are raised by
/// `pass1_count` so that they follow the first dictionary's.
pub(crate) fn apply_pass2(buf: &[u8], pass2: &[DictEntry], pass1_count: usize) -> (out: Vec<u8>)
    requires
        pass1_count + pass2@.len() <= 255,
    ensures
        out@ == apply_spec(buf@, entry_bytes(pass2@), pass1_count as int),
{
    let ghost p2 = entry_bytes(pass2@);
    let ghost off = pass1_count as int;
    let mut out: Vec<u8> = Vec::new();
    let mut i: usize = 0;
    proof {
        assert(buf@.skip(0) =~= buf@);
        assert(out@ + apply_spec(buf@.skip(0), p2, off) =~= apply_spec(buf@, p2, off));
    }
    while i < buf.len()
        invariant
            i <= buf@.len(),
            p2 == entry_bytes(pass2@),
            off == pass1_count as int,
            pass1_count + pass2@.len() <= 255,
            out@ + apply_spec(buf@.skip(i as int), p2, off) == apply_spec(buf@, p2, off),
        decreases buf@.len() - i,
    {
        let ghost t = buf@.skip(i as int);
        let ghost o0 = out@;
        if buf[i] == ESCAPE && i + 1 < buf.len() {
            out.push(buf[i]);
            out.push(buf[i + 1]);
            proof {
                assert(starts_token(t));
                assert(t.take(2) =~= seq![buf@[i as int], buf@[i + 1]]);
                assert(t.subrange(2, t.len() as int) =~= buf@.skip(i + 2));
                assert(out@ + apply_spec(buf@.skip(i + 2), p2, off) =~= o0 + apply_spec(t, p2, off));
            }
            i = i + 2;
        } else {
            let start = i;
            proof {
                assert(!starts_token(t));
                lemma_span_len_bound(t);
            }
            while i < buf.len() && !(buf[i] == ESCAPE && i + 1 < buf.len())
                invariant
                    start <= i <= buf@.len(),
                    span_len(buf@.skip(start as int)) == (i - start) + span_len(buf@.skip(i as int)),
                decreases buf@.len() - i,
            {
                proof {
                    let u = buf@.skip(i as int);
                    assert(!starts_token(u));
                    assert(u.drop_first() =~= buf@.skip(i + 1));
                }
                i = i + 1;
            }
            proof {
                let u = buf@.skip(i as int);
                assert(u.len() == 0 || starts_token(u));
                assert(span_len(t) == i - start);
                assert(t.take(i - start) =~= buf@.subrange(start as int, i as int));
                assert(t.skip(i - start) =~= buf@.skip(i as int));
            }
            let span = vstd::slice::slice_subrange(buf, start, i);
            let encoded = crate::tokenizer::codon::encode(span, pass2);
            let ghost e = encoded@;
            proof {
                lemma_encode_tokens_le(span@, p2, 0);
                assert(encoded@.skip(0) =~= encoded@);
            }
            let ghost o1 = out@;
            let mut j: usize = 0;
            while j < encoded.len()
                invariant
                    j <= e.len(),
                    e == encoded@,
                    pass1_count + pass2@.len() <= 255,
                    p2.len() == pass2@.len(),
                    off == pass1_count as int,
                    tokens_le(e.skip(j as int), p2.len() as int),
                    out@ + offset_spec(e.skip(j as int), off) == o1 + offset_spec(e, off),
                decreases e.len() - j,
            {
                let ghost u = e.skip(j as int);
                let ghost o2 = out@;
                if encoded[j] == ESCAPE && j + 1 < encoded.len() {
                    let id = encoded[j + 1];
                    proof {
                        assert(starts_token(u));
                        assert(u.subrange(2, u.len() as int) =~= e.skip(j + 2));
                    }
                    out.push(ESCAPE);
                    if id == 0 {
                        out.push(0u8);
                    } else {
                        let raised = (id as usize + pass1_count) as u8;
                        out.push(raised);
                    }
                    proof {
                        assert(out@ + offset_spec(e.skip(j + 2), off) =~= o2 + offset_spec(u, off));
                    }
                    j = j + 2;
                } else {
                    out.push(encoded[j]);
                    proof {
                        assert(!starts_token(u));
                        assert(u.drop_first() =~= e.skip(j + 1));
                        assert(out@ + offset_spec(e.skip(j + 1), off) =~= o2 + offset_spec(u, off));
                    }
                    j = j + 1;
                }
            }
            proof {
                assert(e.skip(j as int) =~= Seq::<u8>::empty());
                assert(offset_spec(Seq::<u8>::empty(), off) =~= Seq::<u8>::empty());
                assert(out@ =~= o0 + offset_spec(encode_spec(t.take(span_len(t) as int), p2), off));
                assert(out@ + apply_spec(buf@.skip(i as int), p2, off) =~= o0 + apply_spec(t, p2, off));
            }
        }
    }
    proof {
        assert(buf@.skip(i as int) =~= Seq::<u8>::empty());
        assert(out@ + Seq::<u8>::empty() =~= out@);
    }
    out
}


// ---------------------------------------------------------------------------
// Pruning unused entries
// ---------------------------------------------------------------------------

/// The token ids that the decoder reads in `s`.
pub open spec fn fired_ids(s: Seq<u8>) -> Set<int>
    decreases s.len(),
{
    if s.len() == 0 {
        Set::empty()
    } else if starts_token(s) {
        fired_ids(s.subrange(2, s.len() as int)).insert(s[1] as int)
    } else {
        fired_ids(s.drop_first())
    }
}

/// The entries of `es` whose id (index plus one) is in `fired`, in order.
pub open spec fn pruned(es: Seq<(Seq<u8>, nat, nat)>, fired: Set<int>) -> Seq<(Seq<u8>, nat, nat)>
    decreases es.len(),
{
    if es.len() == 0 {
        Seq::empty()
    } else {
        pruned(es.drop_last(), fired) + if fired.contains(es.len() as int) {
            seq![es.last()]
        } else {
            Seq::empty()
        }
    }
}

/// Keep only the dictionary entries whose tokens occur in `encoded`.
fn prune_to_fired(entries: &[DictEntry], encoded: &[u8]) -> (r: Vec<DictEntry>)
    ensures
        crate::tokenizer::dictionary::entry_views(r@) == pruned(
            crate::tokenizer::dictionary::entry_views(entries@),
            fired_ids(encoded@),
        ),
{
    let n = entries.len();
    let mut fired: Vec<bool> = Vec::new();
    let mut k: usize = 0;
    while k < n
        invariant
            k <= n,
            n == entries@.len(),
            fired@.len() == k,
            forall|a: int| 0 <= a < k ==> !fired@[a],
        decreases n - k,
    {
        fired.push(false);
        k = k + 1;
    }
    let ghost all = fired_ids(encoded@);
    let ghost mut seen: Set<int> = Set::empty();
    let mut i: usize = 0;
    proof {
        assert(encoded@.skip(0) =~= encoded@);
        assert(seen.union(fired_ids(encoded@.skip(0))) =~= all);
    }
    while i < encoded.len()
        invariant
            i <= encoded@.len(),
            n == entries@.len(),
            fired@.len() == n,
            all == fired_ids(encoded@),
            forall|a: int| 0 <= a < n ==> #[trigger] fired@[a] == seen.contains(a + 1),
            seen.union(fired_ids(encoded@.skip(i as int))) == all,
        decreases encoded@.len() - i,
    {
        let ghost u = encoded@.skip(i as int);
        if encoded[i] == ESCAPE && i + 1 < encoded.len() {
            let id = encoded[i + 1] as usize;
            proof {
                assert(starts_token(u));
                assert(u.subrange(2, u.len() as int) =~= encoded@.skip(i + 2));
                assert(fired_ids(u) == fired_ids(encoded@.skip(i + 2)).insert(id as int));
            }
            if id > 0 && id - 1 < n {
                fired.set(id - 1, true);
            }
            proof {
                let s0 = seen;
                seen = seen.insert(id as int);
                assert(seen.union(fired_ids(encoded@.skip(i + 2))) =~= s0.union(fired_ids(u)));
            }
            i = i + 2;
        } else {
            proof {
                assert(!starts_token(u));
                assert(u.drop_first() =~= encoded@.skip(i + 1));
                assert(fired_ids(u) == fired_ids(encoded@.skip(i + 1)));
            }
            i = i + 1;
        }
    }
    proof {
        assert(encoded@.skip(i as int) =~= Seq::<u8>::empty());
        assert(fired_ids(Seq::<u8>::empty()) =~= Set::<int>::empty());
        assert(seen =~= all);
    }
    let ghost ev = crate::tokenizer::dictionary::entry_views(entries@);
    let mut out: Vec<DictEntry> = Vec::new();
    let mut k: usize = 0;
    while k < n
        invariant
            k <= n,
            n == entries@.len(),
            fired@.len() == n,
            ev == crate::tokenizer::dictionary::entry_views(entries@),
            forall|a: int| 0 <= a < n ==> #[trigger] fired@[a] == all.contains(a + 1),
            crate::tokenizer::dictionary::entry_views(out@) == pruned(ev.take(k as int), all),
        decreases n - k,
    {
        let ghost o0 = out@;
        proof {
            assert(ev.take(k + 1).drop_last() =~= ev.take(k as int));
            assert(ev.take(k + 1).last() == ev[k as int]);
        }
        if fired[k] {
            let e = entries[k].duplicate();
            out.push(e);
            proof {
                assert(crate::tokenizer::dictionary::entry_views(out@) =~= crate::tokenizer::dictionary::entry_views(o0).push(
                    crate::tokenizer::dictionary::entry_view(e),
                ));
            }
        } else {
            proof {
                assert(pruned(ev.take(k + 1), all) =~= pruned(ev.take(k as int), all));
            }
        }
        k = k + 1;
    }
    proof {
        assert(ev.take(n as int) =~= ev);
    }
    out
}


// ---------------------------------------------------------------------------
// First-pass dictionary: pre-seeded and adaptive entries, ranked by saving
// ---------------------------------------------------------------------------

/// Some entry of `es` has the bytes `b`.
pub open spec fn bytes_in(es: Seq<(Seq<u8>, nat, nat)>, b: Seq<u8>) -> bool {
    exists|k: int| 0 <= k < es.len() && #[trigger] es[k].0 == b
}

/// The entries of `ad` whose bytes are not among those of `pre`, in order.
pub open spec fn new_entries(pre: Seq<(Seq<u8>, nat, nat)>, ad: Seq<(Seq<u8>, nat, nat)>) -> Seq<(Seq<u8>, nat, nat)>
    decreases ad.len(),
{
    if ad.len() == 0 {
        Seq::empty()
    } else {
        new_entries(pre, ad.drop_last()) + if bytes_in(pre, ad.last().0) {
            Seq::empty()
        } else {
            seq![ad.last()]
        }
    }
}

/// The pre-seeded entries followed by the adaptive entries they do not
/// already cover.
pub open spec fn merge_candidates(pre: Seq<(Seq<u8>, nat, nat)>, ad: Seq<(Seq<u8>, nat, nat)>) -> Seq<(Seq<u8>, nat, nat)> {
    pre + new_entries(pre, ad)
}

/// `perm` lists each of `0..n` exactly once.
pub open spec fn is_permutation(perm: Seq<int>, n: int) -> bool {
    &&& perm.len() == n
    &&& forall|k: int| 0 <= k < n ==> 0 <= #[trigger] perm[k] < n
    &&& forall|a: int, b: int| 0 <= a < b < n ==> #[trigger] perm[a] != #[trigger] perm[b]
}

/// `r` is `c` reordered by `perm` into non-increasing saving, cut to `cap`
/// entries.
pub open spec fn ranked_by(c: Seq<(Seq<u8>, nat, nat)>, r: Seq<(Seq<u8>, nat, nat)>, cap: nat, perm: Seq<int>) -> bool {
    &&& is_permutation(perm, c.len() as int)
    &&& forall|a: int, b: int| 0 <= a < b < c.len() ==> c[#[trigger] perm[a]].2 >= c[#[trigger] perm[b]].2
    &&& r.len() == if c.len() < cap { c.len() } else { cap }
    &&& forall|k: int| 0 <= k < r.len() ==> #[trigger] r[k] == c[perm[k]]
}

/// `r` holds the `cap` entries of `c` with the largest savings (all of
/// them when there are fewer), in non-increasing saving; entries of equal
/// saving may come in any order.
pub open spec fn ranked(c: Seq<(Seq<u8>, nat, nat)>, r: Seq<(Seq<u8>, nat, nat)>, cap: nat) -> bool {
    exists|perm: Seq<int>| #[trigger] ranked_by(c, r, cap, perm)
}

/// `r` is ranked from `c` with entries of equal saving kept in their order
/// in `c`.
pub open spec fn ranked_stable(c: Seq<(Seq<u8>, nat, nat)>, r: Seq<(Seq<u8>, nat, nat)>, cap: nat) -> bool {
    exists|perm: Seq<int>| #[trigger] ranked_by(c, r, cap, perm)
        && forall|a: int, b: int| 0 <= a < b < c.len() && c[#[trigger] perm[a]].2 == c[#[trigger] perm[b]].2 ==> perm[a] < perm[b]
}

/// `c` lists its entries in non-increasing saving.
pub open spec fn saving_sorted(c: Seq<(Seq<u8>, nat, nat)>) -> bool {
    forall|a: int, b: int| 0 <= a < b < c.len() ==> (#[trigger] c[a]).2 >= (#[trigger] c[b]).2
}

proof fn lemma_increasing_perm_low(perm: Seq<int>, n: int, k: int)
    requires
        is_permutation(perm, n),
        forall|a: int, b: int| 0 <= a < b < n ==> #[trigger] perm[a] < #[trigger] perm[b],
        0 <= k < n,
    ensures
        perm[k] >= k,
    decreases k,
{
    if k > 0 {
        lemma_increasing_perm_low(perm, n, k - 1);
        assert(perm[k - 1] < perm[k]);
    }
}

proof fn lemma_increasing_perm_high(perm: Seq<int>, n: int, k: int)
    requires
        is_permutation(perm, n),
        forall|a: int, b: int| 0 <= a < b < n ==> #[trigger] perm[a] < #[trigger] perm[b],
        0 <= k < n,
    ensures
        perm[k] <= k,
    decreases n - k,
{
    if k < n - 1 {
        lemma_increasing_perm_high(perm, n, k + 1);
        assert(perm[k] < perm[k + 1]);
    }
}

/// A permutation of `0..n` takes every value in `0..n`.
pub proof fn lemma_perm_onto(perm: Seq<int>, n: int, v: int)
    requires
        is_permutation(perm, n),
        0 <= v < n,
    ensures
        exists|m: int| 0 <= m < n && #[trigger] perm[m] == v,
{
    assert(perm.no_duplicates()) by {
        assert forall|a: int, b: int| 0 <= a < perm.len() && 0 <= b < perm.len() && a != b implies perm[a] != perm[b] by {
            if a < b {
                assert(perm[a] != perm[b]);
            } else {
                assert(perm[b] != perm[a]);
            }
        }
    }
    perm.unique_seq_to_set();
    vstd::seq_lib::seq_to_set_is_finite(perm);
    vstd::set_lib::lemma_int_range(0, n);
    let range = vstd::set_lib::set_int_range(0, n);
    assert(perm.to_set().subset_of(range)) by {
        assert forall|x: int| perm.to_set().contains(x) implies range.contains(x) by {
            let m = choose|m: int| 0 <= m < perm.len() && perm[m] == x;
        }
    }
    vstd::set_lib::lemma_subset_equality(perm.to_set(), range);
    assert(range.contains(v));
    assert(perm.to_set().contains(v));
    assert(perm.contains(v));
}

/// Two stable rankings of the same entries with the same room agree.
pub proof fn lemma_stable_unique(c: Seq<(Seq<u8>, nat, nat)>, r1: Seq<(Seq<u8>, nat, nat)>, r2: Seq<(Seq<u8>, nat, nat)>, cap: nat)
    requires
        ranked_stable(c, r1, cap),
        ranked_stable(c, r2, cap),
    ensures
        r1 == r2,
{
    let p = choose|perm: Seq<int>| #[trigger] ranked_by(c, r1, cap, perm)
        && forall|a: int, b: int| 0 <= a < b < c.len() && c[#[trigger] perm[a]].2 == c[#[trigger] perm[b]].2 ==> perm[a] < perm[b];
    let q = choose|perm: Seq<int>| #[trigger] ranked_by(c, r2, cap, perm)
        && forall|a: int, b: int| 0 <= a < b < c.len() && c[#[trigger] perm[a]].2 == c[#[trigger] perm[b]].2 ==> perm[a] < perm[b];
    let n = c.len() as int;
    assert forall|k: int| 0 <= k < n implies #[trigger] p[k] == q[k] by {
        lemma_stable_prefix(c, cap, p, q, r1, r2, k);
    }
    assert(r1 =~= r2) by {
        assert forall|k: int| 0 <= k < r1.len() implies r1[k] == r2[k] by {
            assert(p[k] == q[k]);
        }
    }
}


proof fn lemma_stable_prefix(
    c: Seq<(Seq<u8>, nat, nat)>,
    cap: nat,
    p: Seq<int>,
    q: Seq<int>,
    r1: Seq<(Seq<u8>, nat, nat)>,
    r2: Seq<(Seq<u8>, nat, nat)>,
    k: int,
)
    requires
        ranked_by(c, r1, cap, p),
        forall|a: int, b: int| 0 <= a < b < c.len() && c[#[trigger] p[a]].2 == c[#[trigger] p[b]].2 ==> p[a] < p[b],
        ranked_by(c, r2, cap, q),
        forall|a: int, b: int| 0 <= a < b < c.len() && c[#[trigger] q[a]].2 == c[#[trigger] q[b]].2 ==> q[a] < q[b],
        0 <= k < c.len(),
    ensures
        forall|j: int| 0 <= j <= k ==> #[trigger] p[j] == q[j],
    decreases k,
{
    let n = c.len() as int;
    if k > 0 {
        lemma_stable_prefix(c, cap, p, q, r1, r2, k - 1);
    }
    let x = p[k];
    let y = q[k];
    if x != y {
        lemma_perm_onto(p, n, y);
        let m = choose|m: int| 0 <= m < n && #[trigger] p[m] == y;
        lemma_perm_onto(q, n, x);
        let m2 = choose|m: int| 0 <= m < n && #[trigger] q[m] == x;
        if m < k {
            assert(q[m] == p[m]);
            assert(q[m] != q[k]);
        }
        if m2 < k {
            assert(p[m2] == q[m2]);
            assert(p[m2] != p[k]);
        }
        assert(m > k && m2 > k);
        assert(c[p[k]].2 >= c[p[m]].2);
        assert(c[q[k]].2 >= c[q[m2]].2);
        assert(c[x].2 == c[y].2);
        assert(p[k] < p[m]);
        assert(q[k] < q[m2]);
    }
    assert forall|j: int| 0 <= j <= k implies #[trigger] p[j] == q[j] by {
        if j < k {
        }
    }
}

/// A stable ranking of entries already in non-increasing saving, with room
/// for all of them, leaves them as they are.
pub proof fn lemma_stable_identity(c: Seq<(Seq<u8>, nat, nat)>, r: Seq<(Seq<u8>, nat, nat)>, cap: nat)
    requires
        ranked_stable(c, r, cap),
        saving_sorted(c),
        c.len() <= cap,
    ensures
        r == c,
{
    let perm = choose|perm: Seq<int>| #[trigger] ranked_by(c, r, cap, perm)
        && forall|a: int, b: int| 0 <= a < b < c.len() && c[#[trigger] perm[a]].2 == c[#[trigger] perm[b]].2 ==> perm[a] < perm[b];
    let n = c.len() as int;
    assert forall|a: int, b: int| 0 <= a < b < n implies #[trigger] perm[a] < #[trigger] perm[b] by {
        assert(c[perm[a]].2 >= c[perm[b]].2);
        assert(perm[a] != perm[b]);
        if perm[a] > perm[b] {
            assert(c[perm[b]].2 >= c[perm[a]].2);
        }
    }
    assert forall|k: int| 0 <= k < n implies #[trigger] perm[k] == k by {
        lemma_increasing_perm_low(perm, n, k);
        lemma_increasing_perm_high(perm, n, k);
    }
    assert(r =~= c);
}

/// Byte-wise equality of two slices.
pub(crate) fn same_bytes(a: &[u8], b: &[u8]) -> (r: bool)
    ensures
        r == (a@ == b@),
{
    if a.len() != b.len() {
        return false;
    }
    let mut i: usize = 0;
    while i < a.len()
        invariant
            i <= a@.len(),
            a@.len() == b@.len(),
            forall|k: int| 0 <= k < i ==> a@[k] == b@[k],
        decreases a@.len() - i,
    {
        if a[i] != b[i] {
            return false;
        }
        i = i + 1;
    }
    assert(a@ =~= b@);
    true
}

/// The `cap` entries of `combined` with the largest savings (all of them
/// when there are fewer), in non-increasing saving.
pub(crate) fn rank_by_saving(combined: &Vec<DictEntry>, cap: usize) -> (out: Vec<DictEntry>)
    ensures
        ranked(crate::tokenizer::dictionary::entry_views(combined@), crate::tokenizer::dictionary::entry_views(out@), cap as nat),
        ranked_stable(crate::tokenizer::dictionary::entry_views(combined@), crate::tokenizer::dictionary::entry_views(out@), cap as nat),
{
    broadcast use vstd::seq_lib::group_to_multiset_ensures;
    let ghost c = crate::tokenizer::dictionary::entry_views(combined@);
    let n = combined.len();
    let mut keys: Vec<usize> = Vec::new();
    let mut idx: Vec<usize> = Vec::new();
    let mut t: usize = 0;
    while t < n
        invariant
            t <= n,
            n == combined@.len(),
            c == crate::tokenizer::dictionary::entry_views(combined@),
            keys@.len() == t,
            idx@.len() == t,
            forall|a: int| 0 <= a < t ==> #[trigger] keys@[a] as nat == c[a].2,
            forall|a: int| 0 <= a < t ==> #[trigger] idx@[a] == a,
        decreases n - t,
    {
        keys.push(combined[t].saving);
        idx.push(t);
        t = t + 1;
    }
    proof {
        assert forall|a: int| 0 <= a < idx@.len() implies (#[trigger] idx@[a]) < keys@.len() by {}
        assert(idx@.no_duplicates());
        idx@.lemma_multiset_has_no_duplicates();
    }
    let ghost idx0 = idx@;
    proof {
        assert(crate::tokenizer::dictionary::ascending(idx0));
    }
    let sorted = crate::tokenizer::dictionary::sort_desc(&keys, idx);
    let ghost perm = sorted@.map_values(|x: usize| x as int);
    proof {
        assert(sorted@.to_multiset().len() == idx0.to_multiset().len());
        assert(sorted@.len() == n);
        assert forall|x: usize| sorted@.to_multiset().contains(x) implies sorted@.to_multiset().count(x) == 1 by {
            assert(idx0.to_multiset().contains(x));
        }
        sorted@.lemma_multiset_has_no_duplicates_conv();
        assert(is_permutation(perm, n as int)) by {
            assert forall|a: int| 0 <= a < n implies 0 <= #[trigger] perm[a] < n by {
                assert(sorted@[a] < keys@.len());
            }
            assert forall|a: int, b: int| 0 <= a < b < n implies #[trigger] perm[a] != #[trigger] perm[b] by {
                assert(sorted@[a] != sorted@[b]);
            }
        }
        assert forall|a: int, b: int| 0 <= a < b < c.len() implies c[#[trigger] perm[a]].2 >= c[#[trigger] perm[b]].2 by {
            assert(keys@[sorted@[a] as int] >= keys@[sorted@[b] as int]);
            assert(keys@[sorted@[a] as int] as nat == c[sorted@[a] as int].2);
            assert(keys@[sorted@[b] as int] as nat == c[sorted@[b] as int].2);
        }
    }
    let m = if n < cap { n } else { cap };
    let mut out: Vec<DictEntry> = Vec::new();
    let mut t: usize = 0;
    while t < m
        invariant
            t <= m,
            m <= n,
            n == combined@.len(),
            sorted@.len() == n,
            perm == sorted@.map_values(|x: usize| x as int),
            is_permutation(perm, n as int),
            c == crate::tokenizer::dictionary::entry_views(combined@),
            out@.len() == t,
            forall|j: int| 0 <= j < t ==> #[trigger] crate::tokenizer::dictionary::entry_views(out@)[j] == c[perm[j]],
        decreases m - t,
    {
        let q = sorted[t];
        assert(perm[t as int] == q as int);
        let e = combined[q].duplicate();
        let ghost o0 = out@;
        out.push(e);
        proof {
            assert forall|j: int| 0 <= j < t + 1 implies #[trigger] crate::tokenizer::dictionary::entry_views(out@)[j] == c[perm[j]] by {
                if j < t {
                    assert(out@[j] == o0[j]);
                    assert(crate::tokenizer::dictionary::entry_views(o0)[j] == c[perm[j]]);
                }
            }
        }
        t = t + 1;
    }
    proof {
        assert(ranked_by(c, crate::tokenizer::dictionary::entry_views(out@), cap as nat, perm));
        assert forall|a: int, b: int| 0 <= a < b < c.len() && c[#[trigger] perm[a]].2 == c[#[trigger] perm[b]].2 implies perm[a] < perm[b] by {
            assert(keys@[sorted@[a] as int] as nat == c[sorted@[a] as int].2);
            assert(keys@[sorted@[b] as int] as nat == c[sorted@[b] as int].2);
        }
    }
    out
}

/// Merge the pre-seeded entries with the adaptive ones they do not cover,
/// rank by saving and keep the first `MAX_ENTRIES`.
fn merge_pass1(pre: Vec<DictEntry>, adaptive: Vec<DictEntry>) -> (r: Vec<DictEntry>)
    ensures
        ranked(
            merge_candidates(
                crate::tokenizer::dictionary::entry_views(pre@),
                crate::tokenizer::dictionary::entry_views(adaptive@),
            ),
            crate::tokenizer::dictionary::entry_views(r@),
            crate::tokenizer::dictionary::MAX_ENTRIES as nat,
        ),
{
    broadcast use vstd::seq_lib::group_to_multiset_ensures;
    let ghost pv = crate::tokenizer::dictionary::entry_views(pre@);
    let ghost av = crate::tokenizer::dictionary::entry_views(adaptive@);
    let npre = pre.len();
    let mut combined = pre;
    let mut k: usize = 0;
    proof {
        assert(av.take(0) =~= Seq::<(Seq<u8>, nat, nat)>::empty());
        assert(crate::tokenizer::dictionary::entry_views(combined@) =~= pv + new_entries(pv, av.take(0)));
    }
    while k < adaptive.len()
        invariant
            k <= adaptive@.len(),
            npre == pv.len(),
            av == crate::tokenizer::dictionary::entry_views(adaptive@),
            crate::tokenizer::dictionary::entry_views(combined@) == pv + new_entries(pv, av.take(k as int)),
        decreases adaptive@.len() - k,
    {
        let ghost cv = crate::tokenizer::dictionary::entry_views(combined@);
        let mut found = false;
        let mut m: usize = 0;
        while m < npre
            invariant
                m <= npre,
                npre == pv.len(),
                k < adaptive@.len(),
                cv == crate::tokenizer::dictionary::entry_views(combined@),
                combined@.len() == cv.len(),
                cv == pv + new_entries(pv, av.take(k as int)),
                av == crate::tokenizer::dictionary::entry_views(adaptive@),
                found == exists|j: int| 0 <= j < m && #[trigger] pv[j].0 == av[k as int].0,
            decreases npre - m,
        {
            assert(cv[m as int] == pv[m as int]);
            assert(cv[m as int].0 == combined@[m as int].bytes@);
            assert(av[k as int].0 == adaptive@[k as int].bytes@);
            if same_bytes(combined[m].bytes.as_slice(), adaptive[k].bytes.as_slice()) {
                found = true;
            }
            m = m + 1;
        }
        proof {
            assert(av.take(k + 1).drop_last() =~= av.take(k as int));
            assert(av.take(k + 1).last() == av[k as int]);
            assert(found == bytes_in(pv, av[k as int].0));
        }
        if !found {
            let e = adaptive[k].duplicate();
            combined.push(e);
            proof {
                assert(crate::tokenizer::dictionary::entry_views(combined@) =~= cv.push(crate::tokenizer::dictionary::entry_view(e)));
                assert(pv + new_entries(pv, av.take(k + 1)) =~= cv.push(av[k as int]));
            }
        } else {
            proof {
                assert(pv + new_entries(pv, av.take(k + 1)) =~= cv);
            }
        }
        k = k + 1;
    }
    let ghost c = crate::tokenizer::dictionary::entry_views(combined@);
    proof {
        assert(av.take(adaptive@.len() as int) =~= av);
        assert(c == merge_candidates(pv, av));
    }
    rank_by_saving(&combined, crate::tokenizer::dictionary::MAX_ENTRIES)
}


// ---------------------------------------------------------------------------
// The tokenizer container
// ---------------------------------------------------------------------------

pub const TOK_MAGIC: [u8; 4] = [0x47, 0x4E, 0x54, 0x4B];

/// The container magic "GNTK".
pub open spec fn tok_magic() -> Seq<u8> {
    seq![0x47u8, 0x4Eu8, 0x54u8, 0x4Bu8]
}

/// The container layout: magic, serialized dictionary, original length
/// (u32 little endian), token stream.
pub open spec fn tok_container(pats: Seq<Seq<u8>>, n: u32, body: Seq<u8>) -> Seq<u8> {
    tok_magic() + crate::tokenizer::dictionary::serialize_spec(pats) + crate::bytes::le32_bytes(n) + body
}

/// The byte strings of entry values.
pub open spec fn views_bytes(es: Seq<(Seq<u8>, nat, nat)>) -> Seq<Seq<u8>> {
    es.map_values(|e: (Seq<u8>, nat, nat)| e.0)
}

/// The token stream of `buf` under first- and second-pass dictionaries.
pub open spec fn body_spec(buf: Seq<u8>, p1: Seq<Seq<u8>>, p2: Seq<Seq<u8>>) -> Seq<u8> {
    if p2.len() == 0 {
        encode_spec(buf, p1)
    } else {
        apply_spec(encode_spec(buf, p1), p2, p1.len() as int)
    }
}

/// `out` is the container of `buf` under the dictionaries `p1` and `p2`.
pub open spec fn encoding_with(buf: Seq<u8>, p1: Seq<Seq<u8>>, p2: Seq<Seq<u8>>, out: Seq<u8>) -> bool {
    &&& buf.len() <= u32::MAX
    &&& p1.len() + p2.len() <= crate::tokenizer::dictionary::MAX_ENTRIES
    &&& forall|k: int| 0 <= k < (p1 + p2).len() ==> (#[trigger] (p1 + p2)[k]).len() <= 255
    &&& out == tok_container(p1 + p2, buf.len() as u32, body_spec(buf, p1, p2))
}

/// The adaptive dictionary of `buf`: empty for an empty buffer, else a
/// greedy selection over its frequency records.
pub open spec fn adaptive_ok(buf: Seq<u8>, ad: Seq<DictEntry>) -> bool {
    if buf.len() == 0 {
        ad.len() == 0
    } else {
        crate::tokenizer::dictionary::is_selection(
            crate::tokenizer::dictionary::freq_spec(buf),
            ad,
            crate::tokenizer::dictionary::MAX_ENTRIES as nat,
        )
    }
}

/// The first-pass dictionary of `buf`: the pre-seeded entries of its
/// category and the adaptive entries they do not cover, the
/// `MAX_ENTRIES` of largest saving.
pub open spec fn pass1_chosen(buf: Seq<u8>, p1: Seq<(Seq<u8>, nat, nat)>) -> bool {
    exists|ad: Seq<DictEntry>|
        #[trigger] adaptive_ok(buf, ad) && ranked(
            merge_candidates(
                crate::tokenizer::preseed::seed_entries(
                    crate::tokenizer::preseed::category_patterns(crate::tokenizer::preseed::detect_spec(buf)),
                ),
                crate::tokenizer::dictionary::entry_views(ad),
            ),
            p1,
            crate::tokenizer::dictionary::MAX_ENTRIES as nat,
        )
}

/// `p2` holds the values of a greedy selection over `cands` with cap `cap`.
pub open spec fn selection_views(cands: Seq<(Seq<u8>, nat)>, p2: Seq<(Seq<u8>, nat, nat)>, cap: nat) -> bool {
    exists|s: Seq<DictEntry>|
        #[trigger] crate::tokenizer::dictionary::is_selection(cands, s, cap) && crate::tokenizer::dictionary::entry_views(s)
            == p2
}

/// The second-pass dictionary: a selection over the residual of the
/// first-pass stream, filling the slots that the first pass left.
pub open spec fn pass2_chosen(buf: Seq<u8>, p1: Seq<(Seq<u8>, nat, nat)>, p2: Seq<(Seq<u8>, nat, nat)>) -> bool {
    let res = residual_spec(encode_spec(buf, views_bytes(p1)));
    if res.len() == 0 || p1.len() >= crate::tokenizer::dictionary::MAX_ENTRIES {
        p2.len() == 0
    } else {
        selection_views(
            crate::tokenizer::dictionary::freq_spec(res),
            p2,
            (crate::tokenizer::dictionary::MAX_ENTRIES - p1.len()) as nat,
        )
    }
}

/// The sum of the savings of entry values.
pub open spec fn saving_sum(es: Seq<(Seq<u8>, nat, nat)>) -> nat
    decreases es.len(),
{
    if es.len() == 0 {
        0
    } else {
        saving_sum(es.drop_last()) + es.last().2
    }
}

#[derive(Debug, Clone, Copy)]
pub struct TokenizerStats {
    pub dict_entries: usize,
    pub pass1_entries: usize,
    pub pass2_entries: usize,
    pub input_bytes: usize,
    pub tokenized_bytes: usize,
    /// The savings of the dictionary's entries added up, held at
    /// `usize::MAX` when the sum does not fit.
    pub estimated_saving: usize,
}

impl Default for TokenizerStats {
    fn default() -> (r: Self)
        ensures
            r.dict_entries == 0 && r.pass1_entries == 0 && r.pass2_entries == 0,
            r.input_bytes == 0 && r.tokenized_bytes == 0 && r.estimated_saving == 0,
    {
        TokenizerStats {
            dict_entries: 0,
            pass1_entries: 0,
            pass2_entries: 0,
            input_bytes: 0,
            tokenized_bytes: 0,
            estimated_saving: 0,
        }
    }
}

/// The statistics of an encoding of `n` input bytes under `p1` and `p2`.
pub open spec fn stats_of(
    st: TokenizerStats,
    n: nat,
    p1: Seq<(Seq<u8>, nat, nat)>,
    p2: Seq<(Seq<u8>, nat, nat)>,
    body_len: nat,
) -> bool {
    &&& st.dict_entries == p1.len() + p2.len()
    &&& st.pass1_entries == p1.len()
    &&& st.pass2_entries == p2.len()
    &&& st.input_bytes == n
    &&& st.tokenized_bytes == body_len
    &&& st.estimated_saving == capped_sum(saving_sum(p1 + p2))
}

/// `out` and `st` are what encoding `buf` under the chosen `p1` and `p2`
/// gives.
pub open spec fn encoded_with(
    buf: Seq<u8>,
    p1: Seq<(Seq<u8>, nat, nat)>,
    p2: Seq<(Seq<u8>, nat, nat)>,
    out: Seq<u8>,
    st: TokenizerStats,
) -> bool {
    &&& pass1_chosen(buf, p1)
    &&& pass2_chosen(buf, p1, p2)
    &&& encoding_with(buf, views_bytes(p1), views_bytes(p2), out)
    &&& stats_of(st, buf.len(), p1, p2, body_spec(buf, views_bytes(p1), views_bytes(p2)).len())
}

/// `out` and `st` are an encoding of `buf`: some first- and second-pass
/// dictionaries chosen as described give them.
pub open spec fn encoded_as(buf: Seq<u8>, out: Seq<u8>, st: TokenizerStats) -> bool {
    exists|p1: Seq<(Seq<u8>, nat, nat)>, p2: Seq<(Seq<u8>, nat, nat)>| #[trigger] encoded_with(buf, p1, p2, out, st)
}

/// What decoding a container gives: `None` when the buffer is shorter than
/// the magic, the dictionary or the length field is truncated, or the
/// decoded length differs from the stored one; a buffer without the magic
/// is passed through unchanged.
pub open spec fn tok_decode_spec(b: Seq<u8>) -> Option<Seq<u8>> {
    if b.len() < 4 {
        None
    } else if b.take(4) != tok_magic() {
        Some(b)
    } else {
        match crate::tokenizer::dictionary::deserialize_spec(b.skip(4)) {
            None => None,
            Some((pats, end)) => {
                let he = 4 + end;
                if he + 4 > b.len() {
                    None
                } else {
                    let n = crate::bytes::le32_value(b.subrange(he, he + 4));
                    let d = decode_spec(b.skip(he + 4), pats);
                    if d.len() == n {
                        Some(d)
                    } else {
                        None
                    }
                }
            },
        }
    }
}

/// Decoding an encoding gives the buffer back.
pub proof fn lemma_tokenizer_roundtrip(buf: Seq<u8>, out: Seq<u8>, st: TokenizerStats)
    requires
        encoded_as(buf, out, st),
    ensures
        tok_decode_spec(out) == Some(buf),
{
    let (p1v, p2v) = choose|p1: Seq<(Seq<u8>, nat, nat)>, p2: Seq<(Seq<u8>, nat, nat)>| #[trigger] encoded_with(buf, p1, p2, out, st);
    let p1 = views_bytes(p1v);
    let p2 = views_bytes(p2v);
    lemma_container_roundtrip(buf, p1, p2, out);
}

/// Decoding the container of `buf` under any two dictionaries that fit
/// gives `buf` back.
pub proof fn lemma_container_roundtrip(buf: Seq<u8>, p1: Seq<Seq<u8>>, p2: Seq<Seq<u8>>, out: Seq<u8>)
    requires
        encoding_with(buf, p1, p2, out),
    ensures
        tok_decode_spec(out) == Some(buf),
{
    let pm = p1 + p2;
    let body = body_spec(buf, p1, p2);
    let ser = crate::tokenizer::dictionary::serialize_spec(pm);
    let n32 = buf.len() as u32;
    let lenb = crate::bytes::le32_bytes(n32);
    assert(out.take(4) =~= tok_magic());
    assert(out.skip(4) =~= ser + (lenb + body));
    crate::tokenizer::dictionary::lemma_serialize_roundtrip(pm, lenb + body);
    let he: int = 4 + ser.len() as int;
    assert(out.subrange(he, he + 4) =~= lenb);
    crate::bytes::lemma_le32_roundtrip(n32);
    assert(out.skip(he + 4) =~= body);
    lemma_small_dict_ids_faithful(p1);
    lemma_codon_lossless(buf, p1);
    if p2.len() == 0 {
        assert(pm =~= p1);
    } else {
        lemma_encode_tokens_le(buf, p1, 0);
        lemma_apply_decode(encode_spec(buf, p1), p1, p2);
    }
}

pub struct Tokenizer;

impl Default for Tokenizer {
    fn default() -> (r: Self) {
        Tokenizer
    }
}

/// `entry_bytes` is the byte strings of the entry values.
pub(crate) proof fn lemma_entry_bytes_views(es: Seq<DictEntry>)
    ensures
        entry_bytes(es) == views_bytes(crate::tokenizer::dictionary::entry_views(es)),
{
    assert(entry_bytes(es) =~= views_bytes(crate::tokenizer::dictionary::entry_views(es)));
}

/// A total as a `usize`: itself when it fits, else `usize::MAX`.
pub open spec fn capped_sum(x: nat) -> usize {
    if x <= usize::MAX { x as usize } else { usize::MAX }
}

/// The sum of the savings of `es`, held at `usize::MAX` when it does not
/// fit.
fn saving_total(es: &Vec<DictEntry>) -> (r: usize)
    ensures
        r == capped_sum(saving_sum(crate::tokenizer::dictionary::entry_views(es@))),
{
    let ghost ev = crate::tokenizer::dictionary::entry_views(es@);
    let mut sum: usize = 0;
    let mut k: usize = 0;
    while k < es.len()
        invariant
            k <= es@.len(),
            ev == crate::tokenizer::dictionary::entry_views(es@),
            sum == capped_sum(saving_sum(ev.take(k as int))),
        decreases es@.len() - k,
    {
        proof {
            assert(ev.take(k + 1).drop_last() =~= ev.take(k as int));
            assert(ev.take(k + 1).last() == ev[k as int]);
        }
        sum = sum.saturating_add(es[k].saving);
        k = k + 1;
    }
    proof {
        assert(ev.take(k as int) =~= ev);
    }
    sum
}

impl Tokenizer {
    pub fn new() -> (r: Self) {
        Tokenizer
    }

    /// Two-pass encode with category-aware pre-seeding: the container and
    /// its statistics. The container stores the length in 32 bits; and a
    /// substring occurs at most `buf.len()` times and is at most 128 bytes
    /// long, so with `buf.len() * 128` within `usize` no entry's saving
    /// overflows.
    pub fn encode(&self, buf: &[u8]) -> (r: (Vec<u8>, TokenizerStats))
        requires
            buf@.len() <= u32::MAX,
            buf@.len() * 128 <= usize::MAX,
        ensures
            encoded_as(buf@, r.0@, r.1),
    {
        let category = crate::tokenizer::preseed::detect(buf);
        let pre = crate::tokenizer::preseed::preseed(&category);
        let ghost seeds = crate::tokenizer::dictionary::entry_views(pre@);
        proof {
            crate::tokenizer::preseed::lemma_seed_bounds(category);
        }
        let adaptive = crate::tokenizer::dictionary::build(buf);
        let ghost ad = adaptive@;
        let ghost cands = merge_candidates(seeds, crate::tokenizer::dictionary::entry_views(ad));
        let pass1 = merge_pass1(pre, adaptive);
        let ghost p1v = crate::tokenizer::dictionary::entry_views(pass1@);
        proof {
            assert(adaptive_ok(buf@, ad));
            assert(pass1_chosen(buf@, p1v));
            let adv = crate::tokenizer::dictionary::entry_views(ad);
            assert forall|k: int| 0 <= k < adv.len() implies (#[trigger] adv[k]).0.len() <= 128 && adv[k].2 <= 128 * buf@.len() by {
                assert(adv[k] == crate::tokenizer::dictionary::entry_view(ad[k]));
            }
            lemma_candidates_bounded(seeds, adv, buf@.len());
            lemma_ranked_bounded(cands, p1v, buf@.len());
            lemma_entry_bytes_views(pass1@);
        }
        let tokenized1 = crate::tokenizer::codon::encode(buf, pass1.as_slice());
        let residual = crate::tokenizer::dictionary::extract_residual(tokenized1.as_slice());
        proof {
            lemma_encode_residual_len(buf@, entry_bytes(pass1@), 0);
        }
        let pass2 = crate::tokenizer::dictionary::build_second_pass(residual.as_slice(), pass1.len());
        let ghost p2v = crate::tokenizer::dictionary::entry_views(pass2@);
        proof {
            lemma_entry_bytes_views(pass2@);
            if !(residual@.len() == 0 || pass1@.len() >= crate::tokenizer::dictionary::MAX_ENTRIES) {
                assert(crate::tokenizer::dictionary::is_selection(
                    crate::tokenizer::dictionary::freq_spec(residual@),
                    pass2@,
                    (crate::tokenizer::dictionary::MAX_ENTRIES - pass1@.len()) as nat,
                ));
            }
            assert(pass2_chosen(buf@, p1v, p2v));
        }
        let tokenized2 = if pass2.len() == 0 {
            tokenized1
        } else {
            apply_pass2(tokenized1.as_slice(), pass2.as_slice(), pass1.len())
        };
        let mut merged: Vec<DictEntry> = Vec::new();
        let mut k: usize = 0;
        while k < pass1.len()
            invariant
                k <= pass1@.len(),
                crate::tokenizer::dictionary::entry_views(merged@) == p1v.take(k as int),
                p1v == crate::tokenizer::dictionary::entry_views(pass1@),
            decreases pass1@.len() - k,
        {
            let e = pass1[k].duplicate();
            let ghost m0 = merged@;
            merged.push(e);
            proof {
                assert(crate::tokenizer::dictionary::entry_view(e) == p1v[k as int]);
                assert(crate::tokenizer::dictionary::entry_views(merged@) =~= crate::tokenizer::dictionary::entry_views(m0).push(
                    crate::tokenizer::dictionary::entry_view(e),
                ));
                assert(crate::tokenizer::dictionary::entry_views(merged@) =~= p1v.take(k + 1));
            }
            k = k + 1;
        }
        let mut k: usize = 0;
        while k < pass2.len()
            invariant
                k <= pass2@.len(),
                p1v.len() == pass1@.len(),
                crate::tokenizer::dictionary::entry_views(merged@) == p1v + p2v.take(k as int),
                p2v == crate::tokenizer::dictionary::entry_views(pass2@),
            decreases pass2@.len() - k,
        {
            let e = pass2[k].duplicate();
            let ghost m0 = merged@;
            merged.push(e);
            proof {
                assert(crate::tokenizer::dictionary::entry_view(e) == p2v[k as int]);
                assert(crate::tokenizer::dictionary::entry_views(merged@) =~= crate::tokenizer::dictionary::entry_views(m0).push(
                    crate::tokenizer::dictionary::entry_view(e),
                ));
                assert(crate::tokenizer::dictionary::entry_views(merged@) =~= p1v + p2v.take(k + 1));
            }
            k = k + 1;
        }
        let ghost mv = crate::tokenizer::dictionary::entry_views(merged@);
        proof {
            assert(p1v.take(p1v.len() as int) =~= p1v);
            assert(p2v.take(p2v.len() as int) =~= p2v);
            lemma_entry_bytes_views(merged@);
            assert(views_bytes(mv) =~= views_bytes(p1v) + views_bytes(p2v));
        }
        let header = crate::tokenizer::dictionary::serialize(merged.as_slice());
        let total = saving_total(&merged);
        let stats = TokenizerStats {
            dict_entries: merged.len(),
            pass1_entries: pass1.len(),
            pass2_entries: pass2.len(),
            input_bytes: buf.len(),
            tokenized_bytes: tokenized2.len(),
            estimated_saving: total,
        };
        let mut out: Vec<u8> = Vec::new();
        out.push(TOK_MAGIC[0]);
        out.push(TOK_MAGIC[1]);
        out.push(TOK_MAGIC[2]);
        out.push(TOK_MAGIC[3]);
        crate::bytes::append_bytes(&mut out, header.as_slice());
        crate::bytes::push_le32(&mut out, buf.len() as u32);
        crate::bytes::append_bytes(&mut out, tokenized2.as_slice());
        proof {
            let p1 = views_bytes(p1v);
            let p2 = views_bytes(p2v);
            assert(p1 + p2 =~= entry_bytes(merged@));
            assert forall|j: int| 0 <= j < (p1 + p2).len() implies (#[trigger] (p1 + p2)[j]).len() <= 255 by {
                assert((p1 + p2)[j] == mv[j].0);
                if j < p1v.len() {
                    assert(mv[j] == p1v[j]);
                } else {
                    assert(mv[j] == p2v[j - p1v.len()]);
                    assert(pass2@[j - p1v.len()].bytes@.len() <= 128);
                }
            }
            assert(tokenized2@ == body_spec(buf@, p1, p2));
            assert(out@ =~= tok_container(p1 + p2, buf@.len() as u32, body_spec(buf@, p1, p2)));
            assert(mv =~= p1v + p2v);
            assert(encoded_with(buf@, p1v, p2v, out@, stats));
        }
        (out, stats)
    }

    /// Decode a container; a buffer without the magic passes through.
    pub fn decode(&self, buf: &[u8]) -> (r: Result<Vec<u8>, String>)
        ensures
            match tok_decode_spec(buf@) {
                Some(d) => r matches Ok(v) && v@ == d,
                None => r is Err,
            },
            buf@.len() < 4 ==> (r matches Err(e) && e@ == "tokenizer: buffer too short"@),
    {
        if buf.len() < 4 {
            return Err(String::from_str("tokenizer: buffer too short"));
        }
        if !(buf[0] == TOK_MAGIC[0] && buf[1] == TOK_MAGIC[1] && buf[2] == TOK_MAGIC[2] && buf[3] == TOK_MAGIC[3]) {
            proof {
                if buf@.take(4) == tok_magic() {
                    assert(buf@.take(4)[0] == buf@[0] && buf@.take(4)[1] == buf@[1]);
                    assert(buf@.take(4)[2] == buf@[2] && buf@.take(4)[3] == buf@[3]);
                }
            }
            return Ok(vstd::slice::slice_to_vec(buf));
        }
        proof {
            assert(buf@.take(4) =~= tok_magic());
        }
        let rest = vstd::slice::slice_subrange(buf, 4, buf.len());
        proof {
            assert(rest@ =~= buf@.skip(4));
        }
        let (entries, dict_end) = match crate::tokenizer::dictionary::deserialize(rest) {
            Ok(v) => v,
            Err(e) => {
                return Err(dictionary_error_message(e));
            },
        };
        let header_end = 4 + dict_end;
        if header_end > buf.len() || buf.len() - header_end < 4 {
            return Err(String::from_str("tokenizer: truncated"));
        }
        let original_len = crate::bytes::read_le32(buf, header_end) as usize;
        let tokenized = vstd::slice::slice_subrange(buf, header_end + 4, buf.len());
        proof {
            assert(tokenized@ =~= buf@.skip(header_end + 4));
        }
        let decoded = crate::tokenizer::codon::decode(tokenized, entries.as_slice());
        if decoded.len() != original_len {
            return Err(length_mismatch_message(decoded.len(), original_len));
        }
        Ok(decoded)
    }
}

/// `format!` of the dictionary's message behind a prefix.
#[verifier::external_body]
fn dictionary_error_message(e: String) -> (m: String)
    ensures
        m@ == "tokenizer: "@ + e@,
{
    format!("tokenizer: {e}")
}

/// `format!` of the two lengths in decimal.
#[verifier::external_body]
fn length_mismatch_message(got: usize, expected: usize) -> (m: String)
    ensures
        m@ == "tokenizer: length mismatch got "@ + crate::text::decimal(got as nat) + " expected "@
            + crate::text::decimal(expected as nat),
{
    format!("tokenizer: length mismatch got {} expected {}", got, expected)
}

/// Bounds on the candidate entries of the first pass.
proof fn lemma_candidates_bounded(pre: Seq<(Seq<u8>, nat, nat)>, ad: Seq<(Seq<u8>, nat, nat)>, n: nat)
    requires
        forall|k: int| 0 <= k < pre.len() ==> (#[trigger] pre[k]).0.len() <= 128 && pre[k].2 <= 700,
        forall|k: int| 0 <= k < ad.len() ==> (#[trigger] ad[k]).0.len() <= 128 && ad[k].2 <= 128 * n,
    ensures
        forall|k: int| 0 <= k < merge_candidates(pre, ad).len() ==> (#[trigger] merge_candidates(pre, ad)[k]).0.len() <= 128
            && merge_candidates(pre, ad)[k].2 <= 128 * n + 700,
    decreases ad.len(),
{
    if ad.len() > 0 {
        lemma_candidates_bounded(pre, ad.drop_last(), n);
        let c0 = merge_candidates(pre, ad.drop_last());
        let c = merge_candidates(pre, ad);
        assert forall|k: int| 0 <= k < c.len() implies (#[trigger] c[k]).0.len() <= 128 && c[k].2 <= 128 * n + 700 by {
            if k < c0.len() {
                assert(c[k] == c0[k]);
            } else {
                assert(c[k] == ad.last());
            }
        }
    } else {
        let c = merge_candidates(pre, ad);
        assert(c =~= pre);
    }
}

/// Ranked entries keep the candidates' bounds.
proof fn lemma_ranked_bounded(c: Seq<(Seq<u8>, nat, nat)>, r: Seq<(Seq<u8>, nat, nat)>, n: nat)
    requires
        ranked(c, r, crate::tokenizer::dictionary::MAX_ENTRIES as nat),
        forall|k: int| 0 <= k < c.len() ==> (#[trigger] c[k]).0.len() <= 128 && c[k].2 <= 128 * n + 700,
    ensures
        r.len() <= crate::tokenizer::dictionary::MAX_ENTRIES,
        forall|k: int| 0 <= k < r.len() ==> (#[trigger] r[k]).0.len() <= 128 && r[k].2 <= 128 * n + 700,
{
    let perm = choose|perm: Seq<int>| #[trigger] ranked_by(c, r, crate::tokenizer::dictionary::MAX_ENTRIES as nat, perm);
    assert forall|k: int| 0 <= k < r.len() implies (#[trigger] r[k]).0.len() <= 128 && r[k].2 <= 128 * n + 700 by {
        assert(r[k] == c[perm[k]]);
        assert(0 <= perm[k] < c.len());
    }
}

} // verus!
