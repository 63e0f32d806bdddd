//! Codon-table symbol substitution.
//!
//! A codon is a fixed-width 2-byte symbol that maps to a variable-length
//! byte sequence.
//!
//! Encoding:
//!   ESCAPE byte (0x01) followed by id byte (1..=N) -> dictionary entry N-1
//!   ESCAPE byte followed by 0x00                   -> literal 0x01 byte
//!
//! Substitution uses a prefix hash index for bucket lookup, finds the
//! match at every position, then assembles greedily left to right.

use vstd::prelude::*;
use vstd::slice::{slice_subrange, slice_to_vec};
use crate::tokenizer::dictionary::{DictEntry, entry_bytes};

verus! {

pub const ESCAPE: u8 = 0x01;

// ---------------------------------------------------------------------------
// Format: literals, escapes and the decoder
// ---------------------------------------------------------------------------

/// The encoding of one literal byte: ESCAPE becomes `ESCAPE 0x00`.
pub open spec fn lit(b: u8) -> Seq<u8> {
    if b == ESCAPE {
        seq![ESCAPE, 0u8]
    } else {
        seq![b]
    }
}

/// Every byte of `s` encoded as a literal.
pub open spec fn escape_seq(s: Seq<u8>) -> Seq<u8>
    decreases s.len(),
{
    if s.len() == 0 {
        Seq::empty()
    } else {
        escape_seq(s.drop_last()) + lit(s.last())
    }
}

/// What the token `ESCAPE id` stands for.
pub open spec fn token_piece(id: u8, pats: Seq<Seq<u8>>) -> Seq<u8> {
    if id == 0 {
        seq![ESCAPE]
    } else if (id - 1) < pats.len() {
        pats[id - 1]
    } else {
        seq![ESCAPE, id]
    }
}

/// Codon decoding: `ESCAPE id` pairs expand to their entries, `ESCAPE 0x00`
/// to a literal ESCAPE, unknown ids pass through, other bytes are copied.
pub open spec fn decode_spec(s: Seq<u8>, pats: Seq<Seq<u8>>) -> Seq<u8>
    decreases s.len(),
{
    if s.len() == 0 {
        Seq::empty()
    } else if s[0] == ESCAPE && s.len() >= 2 {
        token_piece(s[1], pats) + decode_spec(s.subrange(2, s.len() as int), pats)
    } else {
        seq![s[0]] + decode_spec(s.drop_first(), pats)
    }
}

/// Escaping distributes over concatenation.
pub proof fn lemma_escape_seq_concat(a: Seq<u8>, b: Seq<u8>)
    ensures
        escape_seq(a + b) == escape_seq(a) + escape_seq(b),
    decreases b.len(),
{
    if b.len() == 0 {
        assert(a + b =~= a);
        assert(escape_seq(b) =~= Seq::<u8>::empty());
        assert(escape_seq(a) + escape_seq(b) =~= escape_seq(a));
    } else {
        lemma_escape_seq_concat(a, b.drop_last());
        assert((a + b).drop_last() =~= a + b.drop_last());
        assert((a + b).last() == b.last());
        assert(escape_seq(a + b) =~= escape_seq(a) + escape_seq(b));
    }
}

/// Decoding a literal byte followed by anything.
pub proof fn lemma_decode_lit(b: u8, rest: Seq<u8>, pats: Seq<Seq<u8>>)
    ensures
        decode_spec(lit(b) + rest, pats) == seq![b] + decode_spec(rest, pats),
{
    let s = lit(b) + rest;
    if b == ESCAPE {
        assert(s.subrange(2, s.len() as int) =~= rest);
    } else {
        assert(s.drop_first() =~= rest);
    }
}

/// Decoding a token followed by anything.
pub proof fn lemma_decode_token(id: u8, rest: Seq<u8>, pats: Seq<Seq<u8>>)
    ensures
        decode_spec(seq![ESCAPE, id] + rest, pats) == token_piece(id, pats) + decode_spec(rest, pats),
{
    let s = seq![ESCAPE, id] + rest;
    assert(s.subrange(2, s.len() as int) =~= rest);
}

/// Decoding escaped literals gives the literals back.
pub proof fn lemma_decode_escape_seq(s: Seq<u8>, rest: Seq<u8>, pats: Seq<Seq<u8>>)
    ensures
        decode_spec(escape_seq(s) + rest, pats) == s + decode_spec(rest, pats),
    decreases s.len(),
{
    if s.len() == 0 {
        assert(escape_seq(s) + rest =~= rest);
        assert(s + decode_spec(rest, pats) =~= decode_spec(rest, pats));
    } else {
        let t = s.drop_first();
        // escape_seq(s) == lit(s[0]) + escape_seq(t)
        lemma_escape_seq_concat(seq![s[0]], t);
        assert(seq![s[0]] + t =~= s);
        assert(seq![s[0]].drop_last() =~= Seq::<u8>::empty());
        assert(escape_seq(Seq::<u8>::empty()) =~= Seq::<u8>::empty());
        assert(seq![s[0]].last() == s[0]);
        assert(escape_seq(seq![s[0]]) =~= lit(s[0]));
        assert(escape_seq(s) + rest =~= lit(s[0]) + (escape_seq(t) + rest));
        lemma_decode_lit(s[0], escape_seq(t) + rest, pats);
        lemma_decode_escape_seq(t, rest, pats);
        assert(seq![s[0]] + (t + decode_spec(rest, pats)) =~= s + decode_spec(rest, pats));
    }
}

/// Decode: reverse codon substitution using dictionary entries.
pub fn decode(buf: &[u8], entries: &[DictEntry]) -> (out: Vec<u8>)
    ensures
        out@ == decode_spec(buf@, entry_bytes(entries@)),
{
    let ghost pats = entry_bytes(entries@);
    let mut out: Vec<u8> = Vec::new();
    let mut i: usize = 0;
    proof {
        assert(buf@.subrange(0, buf@.len() as int) =~= buf@);
        assert(out@ + decode_spec(buf@, pats) =~= decode_spec(buf@, pats));
    }
    while i < buf.len()
        invariant
            i <= buf@.len(),
            pats == entry_bytes(entries@),
            out@ + decode_spec(buf@.subrange(i as int, buf@.len() as int), pats) == decode_spec(buf@, pats),
        decreases buf@.len() - i,
    {
        let ghost rest = buf@.subrange(i as int, buf@.len() as int);
        if buf[i] == ESCAPE && i + 1 < buf.len() {
            let id = buf[i + 1];
            let ghost out0 = out@;
            if id == 0x00 {
                out.push(ESCAPE);
            } else {
                let idx = (id - 1) as usize;
                if idx < entries.len() {
                    crate::bytes::append_bytes(&mut out, entries[idx].bytes.as_slice());
                } else {
                    out.push(ESCAPE);
                    out.push(id);
                }
            }
            proof {
                assert(rest.subrange(2, rest.len() as int) =~= buf@.subrange(i + 2, buf@.len() as int));
                assert(out@ =~= out0 + token_piece(id, pats));
            }
            i = i + 2;
        } else {
            proof {
                assert(rest.drop_first() =~= buf@.subrange(i + 1, buf@.len() as int));
            }
            out.push(buf[i]);
            i = i + 1;
        }
    }
    proof {
        assert(buf@.subrange(i as int, buf@.len() as int) =~= Seq::<u8>::empty());
        assert(out@ + Seq::<u8>::empty() =~= out@);
    }
    out
}

/// Escape literal ESCAPE bytes only -- used when the dictionary is empty.
fn escape_only(buf: &[u8]) -> (out: Vec<u8>)
    ensures
        out@ == escape_seq(buf@),
{
    let mut out: Vec<u8> = Vec::new();
    let mut i: usize = 0;
    while i < buf.len()
        invariant
            i <= buf@.len(),
            out@ == escape_seq(buf@.subrange(0, i as int)),
        decreases buf@.len() - i,
    {
        let b = buf[i];
        proof {
            assert(buf@.subrange(0, i + 1).drop_last() =~= buf@.subrange(0, i as int));
        }
        if b == ESCAPE {
            out.push(ESCAPE);
            out.push(0x00);
        } else {
            out.push(b);
        }
        proof {
            assert(out@ =~= escape_seq(buf@.subrange(0, i + 1)));
        }
        i = i + 1;
    }
    proof {
        assert(buf@.subrange(0, i as int) =~= buf@);
    }
    out
}

// ---------------------------------------------------------------------------
// Which entry substitutes at a position
// ---------------------------------------------------------------------------

/// The highest token id: ids run from 1 to 254, 0 is reserved.
pub const MAX_TOKEN_ID: usize = 254;

/// Token id of entry `j` (for the first MAX_TOKEN_ID entries): its index
/// plus one.
pub open spec fn token_of(j: int) -> u8 {
    (j + 1) as u8
}

/// Entry `j` takes part in substitution: it is among the first
/// MAX_TOKEN_ID entries, so its token id is `j + 1` in 1..=254, and at
/// least four bytes long.
pub open spec fn pattern_ok(pats: Seq<Seq<u8>>, j: int) -> bool {
    &&& 0 <= j < pats.len()
    &&& j < MAX_TOKEN_ID
    &&& pats[j].len() >= 4
}

/// `p` occurs in `buf` at position `i`.
pub open spec fn occurs_at(buf: Seq<u8>, p: Seq<u8>, i: int) -> bool {
    &&& 0 <= i
    &&& i + p.len() <= buf.len()
    &&& buf.subrange(i, i + p.len()) == p
}

pub open spec fn candidate(buf: Seq<u8>, pats: Seq<Seq<u8>>, i: int, j: int) -> bool {
    pattern_ok(pats, j) && occurs_at(buf, pats[j], i)
}

/// Entry `j` is the one chosen among long candidates (128 bytes or more):
/// the shortest of them, the last entry among equally long ones.
pub open spec fn chosen_long(buf: Seq<u8>, pats: Seq<Seq<u8>>, i: int, j: int) -> bool {
    &&& candidate(buf, pats, i, j)
    &&& pats[j].len() >= 128
    &&& forall|k: int|
        candidate(buf, pats, i, k) && pats[k].len() >= 128 ==> pats[k].len() > pats[j].len() || (
        pats[k].len() == pats[j].len() && k <= j)
}

/// Entry `j` is the one chosen when all candidates are shorter than 128
/// bytes: the longest, the last entry among equally long ones.
pub open spec fn chosen_short(buf: Seq<u8>, pats: Seq<Seq<u8>>, i: int, j: int) -> bool {
    &&& candidate(buf, pats, i, j)
    &&& forall|k: int| candidate(buf, pats, i, k) ==> pats[k].len() < 128
    &&& forall|k: int|
        candidate(buf, pats, i, k) ==> pats[k].len() < pats[j].len() || (pats[k].len()
            == pats[j].len() && k <= j)
}

pub open spec fn chosen(buf: Seq<u8>, pats: Seq<Seq<u8>>, i: int, j: int) -> bool {
    chosen_long(buf, pats, i, j) || chosen_short(buf, pats, i, j)
}

/// The token and length substituted at `i`, if any. Positions holding a
/// literal ESCAPE never start a token.
pub open spec fn match_at(buf: Seq<u8>, pats: Seq<Seq<u8>>, i: int) -> Option<(u8, nat)> {
    if 0 <= i < buf.len() && buf[i] != ESCAPE && exists|j: int| chosen(buf, pats, i, j) {
        let j = choose|j: int| chosen(buf, pats, i, j);
        Some((token_of(j), pats[j].len()))
    } else {
        None
    }
}

/// At most one entry is chosen at a position.
pub proof fn lemma_chosen_unique(buf: Seq<u8>, pats: Seq<Seq<u8>>, i: int, j1: int, j2: int)
    requires
        chosen(buf, pats, i, j1),
        chosen(buf, pats, i, j2),
    ensures
        j1 == j2,
{
}

/// A match is at least four bytes long, within the buffer, and its token
/// id is in 1..=254, that of an entry no later than the 254th.
pub proof fn lemma_match_at_len(buf: Seq<u8>, pats: Seq<Seq<u8>>, i: int)
    ensures
        match_at(buf, pats, i) matches Some((t, l)) ==> l >= 4 && i + l <= buf.len() && 1 <= t <= MAX_TOKEN_ID
            && t <= pats.len() && pats[t - 1] == buf.subrange(i, i + l),
{
    if match_at(buf, pats, i) is Some {
        let j = choose|j: int| chosen(buf, pats, i, j);
        assert(chosen(buf, pats, i, j));
    }
}

/// The greedy codon encoding of `buf[pos..]`: the token chosen at a
/// position, or the position's byte as a literal, then the rest.
pub open spec fn encode_from(buf: Seq<u8>, pats: Seq<Seq<u8>>, pos: int) -> Seq<u8>
    decreases buf.len() - pos,
{
    if pos < 0 || pos >= buf.len() {
        Seq::empty()
    } else {
        match match_at(buf, pats, pos) {
            Some((t, l)) => {
                proof {
                    lemma_match_at_len(buf, pats, pos);
                }
                seq![ESCAPE, t] + encode_from(buf, pats, pos + l)
            },
            None => lit(buf[pos]) + encode_from(buf, pats, pos + 1),
        }
    }
}

/// The codon encoding of `buf` under the entries `pats`.
pub open spec fn encode_spec(buf: Seq<u8>, pats: Seq<Seq<u8>>) -> Seq<u8> {
    encode_from(buf, pats, 0)
}

/// Every token id that substitution can emit decodes to its own entry.
pub open spec fn ids_faithful(pats: Seq<Seq<u8>>) -> bool {
    forall|j: int| pattern_ok(pats, j) ==> #[trigger] token_piece(token_of(j), pats) == pats[j]
}

/// Every token id decodes to its own entry: ids never wrap.
pub proof fn lemma_small_dict_ids_faithful(pats: Seq<Seq<u8>>)
    ensures
        ids_faithful(pats),
{
    assert forall|j: int| pattern_ok(pats, j) implies #[trigger] token_piece(token_of(j), pats) == pats[j] by {
        assert(token_of(j) as int == j + 1);
    }
}

/// Codon substitution is lossless: decoding the encoding of `buf[pos..]`
/// under the same entries gives `buf[pos..]` back.
pub proof fn lemma_encode_decode_from(buf: Seq<u8>, pats: Seq<Seq<u8>>, pos: int)
    requires
        ids_faithful(pats),
        0 <= pos <= buf.len(),
    ensures
        decode_spec(encode_from(buf, pats, pos), pats) == buf.subrange(pos, buf.len() as int),
    decreases buf.len() - pos,
{
    if pos == buf.len() {
        assert(buf.subrange(pos, buf.len() as int) =~= Seq::<u8>::empty());
    } else {
        lemma_match_at_len(buf, pats, pos);
        match match_at(buf, pats, pos) {
            Some((t, l)) => {
                let j = choose|j: int| chosen(buf, pats, pos, j);
                assert(pattern_ok(pats, j));
                assert(token_piece(token_of(j), pats) == pats[j]);
                lemma_encode_decode_from(buf, pats, pos + l);
                lemma_decode_token(t, encode_from(buf, pats, pos + l), pats);
                assert(buf.subrange(pos, pos + l) == pats[j]);
                assert(buf.subrange(pos, buf.len() as int) =~= buf.subrange(pos, pos + l) + buf.subrange(pos + l, buf.len() as int));
            },
            None => {
                lemma_encode_decode_from(buf, pats, pos + 1);
                lemma_decode_lit(buf[pos], encode_from(buf, pats, pos + 1), pats);
                assert(buf.subrange(pos, buf.len() as int) =~= seq![buf[pos]] + buf.subrange(pos + 1, buf.len() as int));
            },
        }
    }
}

/// Decoding the codon encoding of `buf` gives `buf` back, under any
/// entries.
pub proof fn lemma_codon_lossless(buf: Seq<u8>, pats: Seq<Seq<u8>>)
    ensures
        decode_spec(encode_spec(buf, pats), pats) == buf,
{
    lemma_small_dict_ids_faithful(pats);
    lemma_encode_decode_from(buf, pats, 0);
    assert(buf.subrange(0, buf.len() as int) =~= buf);
}

// ---------------------------------------------------------------------------
// Assembly from a match list
// ---------------------------------------------------------------------------

/// `max(x, 0)` as a natural number.
pub open spec fn clip(x: int) -> nat {
    if x < 0 {
        0
    } else {
        x as nat
    }
}

/// Greedy left-to-right assembly of `buf[pos..]` from a list of
/// `(position, token, length)` matches: matches that start before `pos` are
/// skipped, one starting at `pos` emits its token, and the bytes up to the
/// next match are copied as literals.
pub open spec fn assemble_spec(buf: Seq<u8>, m: Seq<(usize, u8, usize)>, pos: int) -> Seq<u8>
    decreases clip(buf.len() - pos), m.len(),
{
    if pos < 0 || pos >= buf.len() {
        Seq::empty()
    } else if m.len() > 0 && m[0].0 < pos {
        assemble_spec(buf, m.drop_first(), pos)
    } else if m.len() > 0 && m[0].0 == pos {
        seq![ESCAPE, m[0].1] + assemble_spec(buf, m.drop_first(), pos + m[0].2)
    } else {
        let end = if m.len() > 0 && m[0].0 < buf.len() {
            m[0].0 as int
        } else {
            buf.len() as int
        };
        escape_seq(buf.subrange(pos, end)) + assemble_spec(buf, m, end)
    }
}

/// The matches at positions `i..` of `buf`, in position order.
pub open spec fn matches_from(buf: Seq<u8>, pats: Seq<Seq<u8>>, i: int) -> Seq<(usize, u8, usize)>
    decreases buf.len() - i,
{
    if i < 0 || i >= buf.len() {
        Seq::empty()
    } else {
        match match_at(buf, pats, i) {
            Some((t, l)) => seq![(i as usize, t, l as usize)] + matches_from(buf, pats, i + 1),
            None => matches_from(buf, pats, i + 1),
        }
    }
}

/// Every match at positions `i..` starts at or after `i`, in increasing
/// order, and fits in `buf`.
proof fn lemma_matches_from_shape(buf: Seq<u8>, pats: Seq<Seq<u8>>, i: int)
    requires
        0 <= i,
        buf.len() <= usize::MAX,
    ensures
        forall|k: int|
            0 <= k < matches_from(buf, pats, i).len() ==> {
                let e = #[trigger] matches_from(buf, pats, i)[k];
                &&& i <= e.0 < buf.len()
                &&& match_at(buf, pats, e.0 as int) == Some((e.1, e.2 as nat))
            },
        forall|a: int, b: int|
            0 <= a < b < matches_from(buf, pats, i).len() ==> (#[trigger] matches_from(buf, pats, i)[a]).0
                < (#[trigger] matches_from(buf, pats, i)[b]).0,
    decreases buf.len() - i,
{
    if i < buf.len() {
        lemma_matches_from_shape(buf, pats, i + 1);
        lemma_match_at_len(buf, pats, i);
    }
}

/// Every match carries a token id in 1..=254 that names the entry found
/// at its position.
pub proof fn lemma_matches_ids(buf: Seq<u8>, pats: Seq<Seq<u8>>)
    requires
        buf.len() <= usize::MAX,
    ensures
        forall|k: int| 0 <= k < matches_from(buf, pats, 0).len() ==> 1 <= (#[trigger] matches_from(buf, pats, 0)[k]).1 <= MAX_TOKEN_ID
            && matches_from(buf, pats, 0)[k].1 <= pats.len()
            && matches_from(buf, pats, 0)[k].0 + matches_from(buf, pats, 0)[k].2 <= buf.len()
            && pats[matches_from(buf, pats, 0)[k].1 - 1] == buf.subrange(matches_from(buf, pats, 0)[k].0 as int,
                matches_from(buf, pats, 0)[k].0 + matches_from(buf, pats, 0)[k].2),
{
    lemma_matches_from_shape(buf, pats, 0);
    assert forall|k: int| 0 <= k < matches_from(buf, pats, 0).len() implies 1 <= (#[trigger] matches_from(buf, pats, 0)[k]).1 <= MAX_TOKEN_ID
            && matches_from(buf, pats, 0)[k].1 <= pats.len()
            && matches_from(buf, pats, 0)[k].0 + matches_from(buf, pats, 0)[k].2 <= buf.len()
            && pats[matches_from(buf, pats, 0)[k].1 - 1] == buf.subrange(matches_from(buf, pats, 0)[k].0 as int,
                matches_from(buf, pats, 0)[k].0 + matches_from(buf, pats, 0)[k].2) by {
        let e = matches_from(buf, pats, 0)[k];
        lemma_match_at_len(buf, pats, e.0 as int);
    }
}

/// Matches starting before `pos` are skipped by the assembly.
proof fn lemma_assemble_skips_stale(buf: Seq<u8>, pats: Seq<Seq<u8>>, q: int, pos: int)
    requires
        0 <= q <= pos,
        buf.len() <= usize::MAX,
    ensures
        assemble_spec(buf, matches_from(buf, pats, q), pos) == assemble_spec(buf, matches_from(buf, pats, pos), pos),
    decreases pos - q,
{
    if q < pos {
        lemma_assemble_skips_stale(buf, pats, q + 1, pos);
        if q < buf.len() && pos < buf.len() {
            match match_at(buf, pats, q) {
                Some((t, l)) => {
                    let m = matches_from(buf, pats, q);
                    assert(m.drop_first() =~= matches_from(buf, pats, q + 1));
                },
                None => {},
            }
        } else if q < buf.len() {
            // pos >= buf.len(): both sides are empty
        }
    }
}

/// Between `pos` and `end` nothing matches: the spec encoding copies that
/// stretch as literals.
proof fn lemma_encode_literal_run(buf: Seq<u8>, pats: Seq<Seq<u8>>, pos: int, end: int)
    requires
        0 <= pos <= end <= buf.len(),
        forall|k: int| pos <= k < end ==> match_at(buf, pats, k) is None,
    ensures
        encode_from(buf, pats, pos) == escape_seq(buf.subrange(pos, end)) + encode_from(buf, pats, end),
        matches_from(buf, pats, pos) == matches_from(buf, pats, end),
    decreases end - pos,
{
    if pos == end {
        assert(buf.subrange(pos, end) =~= Seq::<u8>::empty());
        assert(escape_seq(Seq::<u8>::empty()) =~= Seq::<u8>::empty());
        assert(Seq::<u8>::empty() + encode_from(buf, pats, end) =~= encode_from(buf, pats, end));
    } else {
        lemma_encode_literal_run(buf, pats, pos + 1, end);
        assert(match_at(buf, pats, pos) is None);
        lemma_escape_seq_concat(seq![buf[pos]], buf.subrange(pos + 1, end));
        assert(seq![buf[pos]] + buf.subrange(pos + 1, end) =~= buf.subrange(pos, end));
        assert(seq![buf[pos]].drop_last() =~= Seq::<u8>::empty());
        assert(escape_seq(Seq::<u8>::empty()) =~= Seq::<u8>::empty());
        assert(seq![buf[pos]].last() == buf[pos]);
        assert(escape_seq(seq![buf[pos]]) =~= lit(buf[pos]));
        assert(encode_from(buf, pats, pos) =~= escape_seq(buf.subrange(pos, end)) + encode_from(buf, pats, end));
    }
}

/// The first match at or after `pos`, if any, and no match before it.
proof fn lemma_next_match(buf: Seq<u8>, pats: Seq<Seq<u8>>, pos: int)
    requires
        0 <= pos <= buf.len(),
        buf.len() <= usize::MAX,
    ensures
        matches_from(buf, pats, pos).len() == 0 ==> forall|k: int| pos <= k < buf.len() ==> match_at(buf, pats, k) is None,
        matches_from(buf, pats, pos).len() > 0 ==> {
            let e = matches_from(buf, pats, pos)[0];
            &&& pos <= e.0 < buf.len()
            &&& match_at(buf, pats, e.0 as int) == Some((e.1, e.2 as nat))
            &&& forall|k: int| pos <= k < e.0 ==> match_at(buf, pats, k) is None
            &&& matches_from(buf, pats, e.0 as int) == matches_from(buf, pats, pos)
        },
    decreases buf.len() - pos,
{
    if pos < buf.len() {
        lemma_next_match(buf, pats, pos + 1);
        lemma_matches_from_shape(buf, pats, pos);
    }
}

/// Assembling from all matches of `buf` gives the spec encoding.
proof fn lemma_assemble_is_encode(buf: Seq<u8>, pats: Seq<Seq<u8>>, pos: int)
    requires
        0 <= pos <= buf.len(),
        buf.len() <= usize::MAX,
    ensures
        assemble_spec(buf, matches_from(buf, pats, pos), pos) == encode_from(buf, pats, pos),
    decreases buf.len() - pos,
{
    if pos < buf.len() {
        lemma_next_match(buf, pats, pos);
        lemma_match_at_len(buf, pats, pos);
        let m = matches_from(buf, pats, pos);
        match match_at(buf, pats, pos) {
            Some((t, l)) => {
                assert(m[0] == (pos as usize, t, l as usize));
                assert(m.drop_first() =~= matches_from(buf, pats, pos + 1));
                lemma_assemble_skips_stale(buf, pats, pos + 1, pos + l);
                lemma_assemble_is_encode(buf, pats, pos + l);
            },
            None => {
                let end = if m.len() > 0 {
                    m[0].0 as int
                } else {
                    buf.len() as int
                };
                if m.len() > 0 {
                    assert(m[0].0 != pos);
                }
                lemma_encode_literal_run(buf, pats, pos, end);
                lemma_assemble_is_encode(buf, pats, end);
            },
        }
    }
}

/// Assembling the token stream from every match the entries have in
/// `buf` gives the greedy codon encoding, and decoding it gives `buf`
/// back.
pub proof fn lemma_assemble_decodes(buf: Seq<u8>, pats: Seq<Seq<u8>>)
    requires
        buf.len() <= usize::MAX,
    ensures
        assemble_spec(buf, matches_from(buf, pats, 0), 0) == encode_spec(buf, pats),
        decode_spec(assemble_spec(buf, matches_from(buf, pats, 0), 0), pats) == buf,
{
    lemma_assemble_is_encode(buf, pats, 0);
    lemma_codon_lossless(buf, pats);
}

/// Greedy left-to-right assembly from a list of matches sorted by position.
pub fn assemble_from_matches(buf: &[u8], matches: &[(usize, u8, usize)]) -> (out: Vec<u8>)
    requires
        forall|k: int| 0 <= k < matches@.len() ==> (#[trigger] matches@[k]).0 + matches@[k].2 <= usize::MAX,
    ensures
        out@ == assemble_spec(buf@, matches@, 0),
{
    if matches.len() == 0 {
        proof {
            assert(buf@.subrange(0, buf@.len() as int) =~= buf@);
            if buf@.len() > 0 {
                assert(assemble_spec(buf@, matches@, buf@.len() as int) =~= Seq::<u8>::empty());
                assert(assemble_spec(buf@, matches@, 0) =~= escape_seq(buf@));
            } else {
                assert(escape_seq(buf@) =~= Seq::<u8>::empty());
            }
        }
        return escape_only(buf);
    }
    let mut out: Vec<u8> = Vec::new();
    let mut pos: usize = 0;
    let mut mi: usize = 0;
    proof {
        assert(matches@.subrange(0, matches@.len() as int) =~= matches@);
        assert(out@ + assemble_spec(buf@, matches@, 0) =~= assemble_spec(buf@, matches@, 0));
    }
    while pos < buf.len()
        invariant
            mi <= matches@.len(),
            forall|k: int| 0 <= k < matches@.len() ==> (#[trigger] matches@[k]).0 + matches@[k].2 <= usize::MAX,
            out@ + assemble_spec(buf@, matches@.subrange(mi as int, matches@.len() as int), pos as int)
                == assemble_spec(buf@, matches@, 0),
        decreases clip(buf@.len() - pos), matches@.len() - mi,
    {
        let ghost m = matches@.subrange(mi as int, matches@.len() as int);
        if mi < matches.len() && matches[mi].0 < pos {
            proof {
                assert(m.drop_first() =~= matches@.subrange(mi + 1, matches@.len() as int));
            }
            mi = mi + 1;
        } else if mi < matches.len() && matches[mi].0 == pos {
            let (_, token_id, match_len) = matches[mi];
            let ghost out0 = out@;
            out.push(ESCAPE);
            out.push(token_id);
            proof {
                assert(m.drop_first() =~= matches@.subrange(mi + 1, matches@.len() as int));
                assert(out@ =~= out0 + seq![ESCAPE, token_id]);
            }
            pos = pos + match_len;
            mi = mi + 1;
        } else {
            // Copy bytes up to the next match, escaping literal ESCAPE bytes.
            let next_match = if mi < matches.len() {
                matches[mi].0
            } else {
                buf.len()
            };
            let end = if next_match < buf.len() {
                next_match
            } else {
                buf.len()
            };
            let ghost out0 = out@;
            let ghost pos0 = pos;
            let mut j = pos;
            while j < end
                invariant
                    pos0 <= pos <= j <= end <= buf@.len(),
                    out@ + buf@.subrange(pos as int, j as int) == out0 + escape_seq(buf@.subrange(pos0 as int, j as int)),
                    forall|k: int| pos <= k < j ==> buf@[k] != ESCAPE,
                decreases end - j,
            {
                let ghost before = out@;
                proof {
                    let sj1 = buf@.subrange(pos0 as int, j + 1);
                    assert(sj1.drop_last() =~= buf@.subrange(pos0 as int, j as int));
                    assert(sj1.last() == buf@[j as int]);
                    assert(escape_seq(sj1) == escape_seq(buf@.subrange(pos0 as int, j as int)) + lit(buf@[j as int]));
                }
                if buf[j] == ESCAPE {
                    if j > pos {
                        crate::bytes::append_bytes(&mut out, slice_subrange(buf, pos, j));
                    } else {
                        assert(buf@.subrange(pos as int, j as int) =~= Seq::<u8>::empty());
                    }
                    out.push(ESCAPE);
                    out.push(0x00);
                    proof {
                        assert(out@ =~= before + buf@.subrange(pos as int, j as int) + lit(ESCAPE));
                        assert(buf@.subrange(j + 1, j + 1) =~= Seq::<u8>::empty());
                    }
                    pos = j + 1;
                } else {
                    proof {
                        assert(buf@.subrange(pos as int, j + 1) =~= buf@.subrange(pos as int, j as int).push(buf@[j as int]));
                        assert(lit(buf@[j as int]) =~= seq![buf@[j as int]]);
                        assert(out@ + buf@.subrange(pos as int, j + 1) =~= (out@ + buf@.subrange(pos as int, j as int)) + lit(buf@[j as int]));
                    }
                }
                j = j + 1;
            }
            if pos < end {
                crate::bytes::append_bytes(&mut out, slice_subrange(buf, pos, end));
            } else {
                assert(buf@.subrange(pos as int, end as int) =~= Seq::<u8>::empty());
            }
            proof {
                assert(out@ =~= out0 + escape_seq(buf@.subrange(pos0 as int, end as int)));
            }
            pos = end;
        }
    }
    proof {
        assert(out@ + Seq::<u8>::empty() =~= out@);
    }
    out
}

// ---------------------------------------------------------------------------
// The prefix index
// ---------------------------------------------------------------------------

/// Patterns are kept longest first; equally long ones in entry order.
pub open spec fn pattern_before(pats: Seq<Seq<u8>>, a: int, b: int) -> bool {
    pats[a].len() > pats[b].len() || (pats[a].len() == pats[b].len() && a < b)
}

/// The first four bytes of `b` as a little-endian key.
pub open spec fn prefix_key(b: Seq<u8>) -> u32 {
    crate::bytes::le32_value(b)
}

/// `order` lists every substituting entry exactly once, longest first.
pub open spec fn order_wf(pats: Seq<Seq<u8>>, order: Seq<int>) -> bool {
    &&& forall|p: int| 0 <= p < order.len() ==> pattern_ok(pats, #[trigger] order[p])
    &&& forall|a: int, b: int| 0 <= a < b < order.len() ==> pattern_before(pats, #[trigger] order[a], #[trigger] order[b])
    &&& forall|j: int| pattern_ok(pats, j) ==> exists|p: int| 0 <= p < order.len() && #[trigger] order[p] == j
}

/// Entries that substitute, longest first (equally long ones in entry order).
fn sorted_pattern_order(entries: &[DictEntry]) -> (order: Vec<usize>)
    ensures
        order_wf(entry_bytes(entries@), order@.map_values(|x: usize| x as int)),
{
    let ghost pats = entry_bytes(entries@);
    let mut order: Vec<usize> = Vec::new();
    let mut j: usize = 0;
    while j < entries.len()
        invariant
            j <= entries@.len(),
            pats == entry_bytes(entries@),
            forall|p: int| 0 <= p < order@.len() ==> pattern_ok(pats, #[trigger] order@[p] as int) && order@[p] < j,
            forall|a: int, b: int| 0 <= a < b < order@.len() ==> pattern_before(pats, #[trigger] order@[a] as int, #[trigger] order@[b] as int),
            forall|jj: int| 0 <= jj < j && pattern_ok(pats, jj) ==> exists|p: int| 0 <= p < order@.len() && #[trigger] order@[p] as int == jj,
        decreases entries@.len() - j,
    {
        let len = entries[j].bytes.len();
        if len >= 4 && j < MAX_TOKEN_ID {
            // insert after every pattern at least as long
            let mut pos: usize = 0;
            while pos < order.len() && entries[order[pos]].bytes.len() >= len
                invariant
                    pos <= order@.len(),
                    j < entries@.len(),
                    len == pats[j as int].len(),
                    pats == entry_bytes(entries@),
                    forall|p: int| 0 <= p < order@.len() ==> pattern_ok(pats, #[trigger] order@[p] as int) && order@[p] < j,
                    forall|p: int| 0 <= p < pos ==> pats[#[trigger] order@[p] as int].len() >= len,
                decreases order@.len() - pos,
            {
                pos = pos + 1;
            }
            let ghost old_order = order@;
            proof {
                assert(pattern_ok(pats, j as int));
                assert forall|a: int, b: int| pos <= a < b < old_order.len() implies pats[old_order[a] as int].len() >= pats[old_order[b] as int].len() by {
                    assert(pattern_before(pats, old_order[a] as int, old_order[b] as int));
                }
            }
            order.insert(pos, j);
            proof {
                assert forall|a: int, b: int| 0 <= a < b < order@.len() implies pattern_before(pats, #[trigger] order@[a] as int, #[trigger] order@[b] as int) by {
                    if a < pos && b < pos {
                        assert(order@[a] == old_order[a] && order@[b] == old_order[b]);
                    } else if a < pos && b == pos {
                        assert(pats[old_order[a] as int].len() >= len);
                    } else if a < pos {
                        assert(order@[a] == old_order[a] && order@[b] == old_order[b - 1]);
                    } else if a == pos {
                        assert(order@[b] == old_order[b - 1]);
                        if pos < old_order.len() {
                            assert(pats[old_order[pos as int] as int].len() < len);
                            assert(pats[old_order[pos as int] as int].len() >= pats[old_order[b - 1] as int].len());
                        }
                    } else {
                        assert(order@[a] == old_order[a - 1] && order@[b] == old_order[b - 1]);
                    }
                }
                assert forall|jj: int| 0 <= jj < j + 1 && pattern_ok(pats, jj) implies exists|p: int| 0 <= p < order@.len() && #[trigger] order@[p] as int == jj by {
                    if jj == j {
                        assert(order@[pos as int] as int == jj);
                    } else {
                        let p = choose|p: int| 0 <= p < old_order.len() && #[trigger] old_order[p] as int == jj;
                        if p < pos {
                            assert(order@[p] as int == jj);
                        } else {
                            assert(order@[p + 1] as int == jj);
                        }
                    }
                }
            }
        } else {
            proof {
                assert(!pattern_ok(pats, j as int));
            }
        }
        j = j + 1;
    }
    proof {
        let o = order@.map_values(|x: usize| x as int);
        assert forall|j: int| pattern_ok(pats, j) implies exists|p: int| 0 <= p < o.len() && #[trigger] o[p] == j by {
            let p = choose|p: int| 0 <= p < order@.len() && #[trigger] order@[p] as int == j;
            assert(o[p] == j);
        }
    }
    order
}

#[derive(Debug)]
struct PatternRec {
    prefix4: u32,
    token_id: u8,
    bytes: Vec<u8>,
    next: i32,
}

/// Prefix index over dictionary entries: every substituting entry is a
/// pattern record, longest first, and records sharing a 4-byte prefix are
/// chained from the slot table through `next`.
pub struct FirstByteIndex {
    mask: usize,
    keys: Vec<u32>,
    heads: Vec<i32>,
    used: Vec<u8>,
    patterns: Vec<PatternRec>,
    pats: Ghost<Seq<Seq<u8>>>,
    order: Ghost<Seq<int>>,
}

/// The keys of the pattern records.
spec fn record_keys(recs: Seq<PatternRec>) -> Seq<u32> {
    recs.map_values(|r: PatternRec| r.prefix4)
}

/// Record `q` holds entry `ord[q]`: its bytes, token id, key, and the link
/// to the previous record with the same key.
spec fn record_ok(pats: Seq<Seq<u8>>, ord: Seq<int>, recs: Seq<PatternRec>, q: int) -> bool {
    &&& recs[q].bytes@ == pats[ord[q]]
    &&& recs[q].token_id == token_of(ord[q])
    &&& recs[q].prefix4 == prefix_key(recs[q].bytes@)
    &&& crate::tokenizer::slots::last_with_key(record_keys(recs).subrange(0, q), recs[q].prefix4, recs[q].next as int)
}

spec fn records_ok(pats: Seq<Seq<u8>>, ord: Seq<int>, recs: Seq<PatternRec>) -> bool {
    forall|q: int| 0 <= q < recs.len() ==> #[trigger] record_ok(pats, ord, recs, q)
}

proof fn lemma_records_push(pats: Seq<Seq<u8>>, ord: Seq<int>, recs: Seq<PatternRec>, r: PatternRec)
    requires
        records_ok(pats, ord, recs),
        record_ok(pats, ord, recs.push(r), recs.len() as int),
    ensures
        records_ok(pats, ord, recs.push(r)),
{
    let recs2 = recs.push(r);
    assert forall|q: int| 0 <= q < recs2.len() implies #[trigger] record_ok(pats, ord, recs2, q) by {
        if q < recs.len() {
            assert(record_ok(pats, ord, recs, q));
            assert(recs2[q] == recs[q]);
            assert(record_keys(recs2).subrange(0, q) =~= record_keys(recs).subrange(0, q));
        }
    }
}

impl FirstByteIndex {
    /// The entries (as byte strings) the index was built from.
    pub closed spec fn entries_view(&self) -> Seq<Seq<u8>> {
        self.pats@
    }

    pub closed spec fn wf(&self) -> bool {
        let pats = self.pats@;
        let order = self.order@;
        let recs = self.patterns@;
        let pk = record_keys(recs);
        &&& crate::tokenizer::slots::table_wf(self.mask, self.keys@, self.heads@, self.used@, pk)
        &&& order_wf(pats, order)
        &&& recs.len() == order.len()
        &&& records_ok(pats, order, recs)
    }
}

impl FirstByteIndex {
    /// Build the index over the substituting entries of `entries`.
    pub fn build(entries: &[DictEntry]) -> (idx: FirstByteIndex)
        requires
            entries@.len() <= 0x2000_0000,
        ensures
            idx.wf(),
            idx.entries_view() == entry_bytes(entries@),
    {
        let ghost pats = entry_bytes(entries@);
        let order = sorted_pattern_order(entries);
        let ghost ord = order@.map_values(|x: usize| x as int);
        proof {
            // order lists distinct entries, so it is no longer than the entries
            assert forall|p: int| 0 <= p < ord.len() implies ord[p] < entries@.len() by {
                assert(pattern_ok(pats, ord[p]));
            }
            lemma_order_len(pats, ord);
        }
        let n = if order.len() > 0 { order.len() } else { 1 };
        let mut cap: usize = 1024;
        let ghost mut k: nat = 10;
        proof {
            vstd::arithmetic::power2::lemma2_to64();
            vstd::arithmetic::power2::lemma2_to64_rest();
        }
        while cap < n * 2
            invariant
                1 <= n <= 0x2000_0000,
                10 <= k <= 30,
                cap as int == vstd::arithmetic::power2::pow2(k),
                cap <= 0x4000_0000,
                vstd::arithmetic::power2::pow2(30) == 0x4000_0000,
            decreases 30 - k,
        {
            proof {
                vstd::arithmetic::power2::lemma_pow2_unfold(k + 1);
                if k >= 30 {
                    if k > 30 {
                        vstd::arithmetic::power2::lemma_pow2_strictly_increases(30, k);
                    }
                    assert(false);
                }
                if k + 1 < 30 {
                    vstd::arithmetic::power2::lemma_pow2_strictly_increases(k + 1, 30);
                }
                assert(cap * 2 <= 0x4000_0000);
            }
            cap = cap * 2;
            proof {
                k = k + 1;
            }
        }
        let mask = cap - 1;
        let mut keys: Vec<u32> = Vec::new();
        let mut heads: Vec<i32> = Vec::new();
        let mut used: Vec<u8> = Vec::new();
        let mut t: usize = 0;
        while t < cap
            invariant
                t <= cap,
                keys@.len() == t && heads@.len() == t && used@.len() == t,
                forall|s: int| 0 <= s < t ==> used@[s] == 0 && heads@[s] == -1 && keys@[s] == 0,
            decreases cap - t,
        {
            keys.push(0);
            heads.push(-1);
            used.push(0);
            t = t + 1;
        }
        proof {
            assert(crate::tokenizer::slots::is_table_cap(mask as int + 1));
            lemma_count_zero(used@, cap as int);
            crate::tokenizer::slots::lemma_table_cap_bounds(cap as int);
        }
        let mut patterns: Vec<PatternRec> = Vec::new();
        let mut p: usize = 0;
        while p < order.len()
            invariant
                p <= order@.len(),
                order@.len() < cap,
                cap <= 0x4000_0000,
                mask as int + 1 == cap,
                ord == order@.map_values(|x: usize| x as int),
                pats == entry_bytes(entries@),
                order_wf(pats, ord),
                patterns@.len() == p,
                crate::tokenizer::slots::table_wf(mask, keys@, heads@, used@, record_keys(patterns@)),
                records_ok(pats, ord, patterns@),
            decreases order@.len() - p,
        {
            let id0 = order[p];
            proof {
                assert(ord[p as int] == id0 as int);
                assert(pattern_ok(pats, ord[p as int]));
            }
            let b = entries[id0].bytes.as_slice();
            let token_id = (id0 + 1) as u8;
            let prefix4 = crate::bytes::read_le32(b, 0);
            proof {
                assert(b@ == pats[id0 as int]);
                assert(b@.subrange(0, 4)[0] == b@[0] && b@.subrange(0, 4)[1] == b@[1]);
                assert(b@.subrange(0, 4)[2] == b@[2] && b@.subrange(0, 4)[3] == b@[3]);
            }
            let ghost pk = record_keys(patterns@);
            let ghost heads0 = heads@;
            let slot = crate::tokenizer::slots::find_slot_insert(prefix4, mask, &mut keys, &mut used, Ghost(heads0), Ghost(pk));
            let old_head = heads[slot];
            heads.set(slot, p as i32);
            let rec = PatternRec { prefix4, token_id, bytes: slice_to_vec(b), next: old_head };
            let ghost before = patterns@;
            patterns.push(rec);
            proof {
                assert(record_keys(patterns@) =~= pk.push(prefix4));
                assert(heads@ =~= heads0.update(slot as int, pk.len() as i32));
                assert(patterns@ == before.push(rec));
                assert(record_keys(patterns@).subrange(0, p as int) =~= pk);
                assert(record_ok(pats, ord, patterns@, p as int));
                lemma_records_push(pats, ord, before, rec);
            }
            p = p + 1;
        }
        FirstByteIndex { mask, keys, heads, used, patterns, pats: Ghost(pats), order: Ghost(ord) }
    }
}

/// A list of distinct entry indices below `pats.len()` is no longer than `pats`.
proof fn lemma_order_len(pats: Seq<Seq<u8>>, ord: Seq<int>)
    requires
        order_wf(pats, ord),
    ensures
        ord.len() <= pats.len(),
{
    let s = ord.to_set();
    assert forall|a: int, b: int| 0 <= a < b < ord.len() implies ord[a] != ord[b] by {
        assert(pattern_before(pats, ord[a], ord[b]));
    }
    ord.unique_seq_to_set();
    assert(s.subset_of(vstd::set_lib::set_int_range(0, pats.len() as int))) by {
        assert forall|x: int| s.contains(x) implies vstd::set_lib::set_int_range(0, pats.len() as int).contains(x) by {
            let p = choose|p: int| 0 <= p < ord.len() && ord[p] == x;
            assert(pattern_ok(pats, ord[p]));
        }
    }
    vstd::set_lib::lemma_int_range(0, pats.len() as int);
    vstd::set_lib::lemma_len_subset(s, vstd::set_lib::set_int_range(0, pats.len() as int));
}

pub(crate) proof fn lemma_count_zero(used: Seq<u8>, hi: int)
    requires
        0 <= hi <= used.len(),
        forall|s: int| 0 <= s < hi ==> used[s] == 0,
    ensures
        crate::tokenizer::slots::count_used(used, hi) == 0,
    decreases hi,
{
    if hi > 0 {
        lemma_count_zero(used, hi - 1);
    }
}

/// `b` occurs in `buf` at `i`.
pub(crate) fn occurs(buf: &[u8], i: usize, b: &[u8]) -> (r: bool)
    ensures
        r == occurs_at(buf@, b@, i as int),
{
    if i > buf.len() || b.len() > buf.len() - i {
        return false;
    }
    let mut t: usize = 0;
    while t < b.len()
        invariant
            i + b@.len() <= buf@.len(),
            buf@.len() == buf.len(),
            t <= b@.len(),
            forall|u: int| 0 <= u < t ==> buf@[i + u] == b@[u],
        decreases b@.len() - t,
    {
        if buf[i + t] != b[t] {
            proof {
                assert(buf@.subrange(i as int, i + b@.len())[t as int] != b@[t as int]);
            }
            return false;
        }
        t = t + 1;
    }
    assert(buf@.subrange(i as int, i + b@.len()) =~= b@);
    true
}

/// A pattern occurring at `i` has the key of the four bytes at `i`.
proof fn lemma_occurs_key(buf: Seq<u8>, b: Seq<u8>, i: int)
    requires
        occurs_at(buf, b, i),
        b.len() >= 4,
    ensures
        prefix_key(b) == crate::bytes::le32_value(buf.subrange(i, i + 4)),
        b[0] == buf[i],
{
    assert(buf.subrange(i, i + b.len())[0] == b[0]);
    assert(buf.subrange(i, i + b.len())[1] == b[1]);
    assert(buf.subrange(i, i + b.len())[2] == b[2]);
    assert(buf.subrange(i, i + b.len())[3] == b[3]);
}

/// The running best over the records already visited in a key's chain.
spec fn visited(pk: Seq<u32>, kb: u32, lim: int, q: int) -> bool {
    lim <= q < pk.len() && pk[q] == kb
}

impl FirstByteIndex {
    fn lookup(&self, key: u32) -> (r: i32)
        requires
            self.wf(),
        ensures
            crate::tokenizer::slots::last_with_key(record_keys(self.patterns@), key, r as int),
    {
        crate::tokenizer::slots::slot_lookup(self.mask, &self.keys, &self.heads, &self.used, key, Ghost(record_keys(self.patterns@)))
    }

    /// Every candidate entry at `i` is some record occurring at `i`.
    proof fn lemma_candidate_record(&self, buf: Seq<u8>, i: int, k: int) -> (q: int)
        requires
            self.wf(),
            candidate(buf, self.pats@, i, k),
        ensures
            0 <= q < self.patterns@.len(),
            self.order@[q] == k,
            occurs_at(buf, self.patterns@[q].bytes@, i),
            record_keys(self.patterns@)[q] == crate::bytes::le32_value(buf.subrange(i, i + 4)),
            self.patterns@[q].bytes@.len() == self.pats@[k].len(),
    {
        let q = choose|q: int| 0 <= q < self.order@.len() && #[trigger] self.order@[q] == k;
        assert(record_ok(self.pats@, self.order@, self.patterns@, q));
        lemma_occurs_key(buf, self.patterns@[q].bytes@, i);
        q
    }

    /// The chain walk stopped at record `pb`, the first visited long
    /// candidate: its entry is the chosen one.
    proof fn lemma_chain_long(&self, buf: Seq<u8>, i: int, lim: int, pb: int)
        requires
            self.wf(),
            0 <= pb < lim <= self.patterns@.len(),
            crate::tokenizer::slots::last_with_key(record_keys(self.patterns@).subrange(0, lim), crate::bytes::le32_value(buf.subrange(i, i + 4)), pb),
            occurs_at(buf, self.patterns@[pb].bytes@, i),
            self.patterns@[pb].bytes@.len() >= 128,
            forall|q: int| visited(record_keys(self.patterns@), crate::bytes::le32_value(buf.subrange(i, i + 4)), lim, q)
                && occurs_at(buf, self.patterns@[q].bytes@, i) ==> self.patterns@[q].bytes@.len() < 128,
        ensures
            chosen_long(buf, self.pats@, i, self.order@[pb]),
    {
        let pats = self.pats@;
        let ord = self.order@;
        let pk = record_keys(self.patterns@);
        let kb = crate::bytes::le32_value(buf.subrange(i, i + 4));
        let jb = ord[pb];
        assert(pk.len() == self.patterns@.len());
        assert(record_ok(pats, ord, self.patterns@, pb));
        assert(pk.subrange(0, lim)[pb] == pk[pb]);
        assert forall|k: int| candidate(buf, pats, i, k) && pats[k].len() >= 128 implies pats[k].len() > pats[jb].len() || (
            pats[k].len() == pats[jb].len() && k <= jb) by {
            let q = self.lemma_candidate_record(buf, i, k);
            if q > pb {
                if q < lim {
                    assert(pk.subrange(0, lim)[q] == pk[q]);
                } else {
                    assert(visited(pk, kb, lim, q));
                }
            } else if q < pb {
                assert(pattern_before(pats, ord[q], ord[pb]));
            }
        }
    }

    /// The chain walk ended: the visited records are all records with the key.
    proof fn lemma_chain_done(&self, buf: Seq<u8>, i: int, lim: int, best_len: int, qstar: int)
        requires
            self.wf(),
            0 <= i < buf.len(),
            0 <= lim <= self.patterns@.len(),
            best_len >= 0,
            forall|q: int| 0 <= q < lim ==> record_keys(self.patterns@)[q] != crate::bytes::le32_value(buf.subrange(i, i + 4)),
            forall|q: int| visited(record_keys(self.patterns@), crate::bytes::le32_value(buf.subrange(i, i + 4)), lim, q)
                && occurs_at(buf, self.patterns@[q].bytes@, i) ==> self.patterns@[q].bytes@.len() < 128,
            best_len == 0 ==> forall|q: int| visited(record_keys(self.patterns@), crate::bytes::le32_value(buf.subrange(i, i + 4)), lim, q)
                ==> !occurs_at(buf, self.patterns@[q].bytes@, i),
            best_len > 0 ==> {
                &&& visited(record_keys(self.patterns@), crate::bytes::le32_value(buf.subrange(i, i + 4)), lim, qstar)
                &&& occurs_at(buf, self.patterns@[qstar].bytes@, i)
                &&& self.patterns@[qstar].bytes@.len() == best_len
                &&& forall|q: int| visited(record_keys(self.patterns@), crate::bytes::le32_value(buf.subrange(i, i + 4)), lim, q)
                    && occurs_at(buf, self.patterns@[q].bytes@, i) ==> self.patterns@[q].bytes@.len() < best_len || (
                    self.patterns@[q].bytes@.len() == best_len && q <= qstar)
            },
        ensures
            best_len == 0 ==> forall|k: int| !candidate(buf, self.pats@, i, k),
            best_len > 0 ==> chosen_short(buf, self.pats@, i, self.order@[qstar]),
    {
        let pats = self.pats@;
        let ord = self.order@;
        let pk = record_keys(self.patterns@);
        let kb = crate::bytes::le32_value(buf.subrange(i, i + 4));
        if best_len == 0 {
            assert forall|k: int| !candidate(buf, pats, i, k) by {
                if candidate(buf, pats, i, k) {
                    let q = self.lemma_candidate_record(buf, i, k);
                    assert(visited(pk, kb, lim, q));
                }
            }
        } else {
            let js = ord[qstar];
            assert(pk.len() == self.patterns@.len());
            assert(visited(pk, kb, lim, qstar));
            assert(0 <= qstar < self.patterns@.len());
            assert(records_ok(pats, ord, self.patterns@));
            assert(record_ok(pats, ord, self.patterns@, qstar));
            assert forall|k: int| candidate(buf, pats, i, k) implies pats[k].len() < 128 && (pats[k].len() < pats[js].len() || (
                pats[k].len() == pats[js].len() && k <= js)) by {
                let q = self.lemma_candidate_record(buf, i, k);
                assert(visited(pk, kb, lim, q));
                if q < qstar {
                    assert(pattern_before(pats, ord[q], ord[qstar]));
                }
            }
        }
    }

    /// The token and length substituted at `i` (length 0 when none), for a
    /// position that does not hold ESCAPE and has four bytes after it.
    fn best_at(&self, buf: &[u8], i: usize) -> (r: (usize, u8))
        requires
            self.wf(),
            i + 4 <= buf@.len(),
            buf@[i as int] != ESCAPE,
        ensures
            match_at(buf@, self.entries_view(), i as int) == (if r.0 >= 4 {
                Some((r.1, r.0 as nat))
            } else {
                None::<(u8, nat)>
            }),
    {
        let ghost pats = self.pats@;
        let ghost ord = self.order@;
        let ghost pk = record_keys(self.patterns@);
        let prefix4 = crate::bytes::read_le32(buf, i);
        let ghost kb = prefix4;
        let mut p = self.lookup(prefix4);
        let ghost mut lim: int = self.patterns@.len() as int;
        let mut best_len: usize = 0;
        let mut best_tok: u8 = 0;
        let ghost mut qstar: int = 0;
        let mut broke = false;
        proof {
            assert(pk.len() == self.patterns@.len());
            assert(pk.subrange(0, lim) =~= pk);
        }
        while p >= 0
            invariant_except_break
                !broke,
            invariant
                self.wf(),
                pats == self.pats@ && ord == self.order@ && pk == record_keys(self.patterns@),
                kb == crate::bytes::le32_value(buf@.subrange(i as int, i + 4)),
                i + 4 <= buf@.len(),
                -1 <= p < lim <= self.patterns@.len(),
                !broke ==> crate::tokenizer::slots::last_with_key(pk.subrange(0, lim), kb, p as int),
                !broke ==> forall|q: int| visited(pk, kb, lim, q) && occurs_at(buf@, self.patterns@[q].bytes@, i as int)
                    ==> self.patterns@[q].bytes@.len() < 128,
                !broke ==> best_len < 128,
                !broke && best_len == 0 ==> forall|q: int| visited(pk, kb, lim, q) ==> !occurs_at(buf@, self.patterns@[q].bytes@, i as int),
                !broke && best_len > 0 ==> {
                    &&& visited(pk, kb, lim, qstar)
                    &&& occurs_at(buf@, self.patterns@[qstar].bytes@, i as int)
                    &&& self.patterns@[qstar].bytes@.len() == best_len
                    &&& best_tok == token_of(ord[qstar])
                    &&& forall|q: int| visited(pk, kb, lim, q) && occurs_at(buf@, self.patterns@[q].bytes@, i as int)
                        ==> self.patterns@[q].bytes@.len() < best_len || (self.patterns@[q].bytes@.len() == best_len && q <= qstar)
                },
                broke ==> {
                    &&& 0 <= qstar < lim
                    &&& crate::tokenizer::slots::last_with_key(pk.subrange(0, lim), kb, qstar)
                    &&& occurs_at(buf@, self.patterns@[qstar].bytes@, i as int)
                    &&& self.patterns@[qstar].bytes@.len() == best_len
                    &&& best_len >= 128
                    &&& best_tok == token_of(ord[qstar])
                    &&& forall|q: int| visited(pk, kb, lim, q) && occurs_at(buf@, self.patterns@[q].bytes@, i as int)
                        ==> self.patterns@[q].bytes@.len() < 128
                },
            ensures
                broke || p < 0,
            decreases p + 1,
        {
            let rec = &self.patterns[p as usize];
            proof {
                assert(pk.len() == self.patterns@.len());
                assert(record_ok(pats, ord, self.patterns@, p as int));
                assert(pk.subrange(0, lim)[p as int] == pk[p as int]);
                assert(pk[p as int] == kb);
            }
            let len = rec.bytes.len();
            if len > best_len && occurs(buf, i, rec.bytes.as_slice()) {
                best_len = len;
                best_tok = rec.token_id;
                proof {
                    qstar = p as int;
                }
                if best_len >= 128 {
                    broke = true;
                    break;
                }
            }
            let next = rec.next;
            proof {
                assert(pk.subrange(0, p as int) =~= pk.subrange(0, lim).subrange(0, p as int));
                assert forall|q: int| visited(pk, kb, p as int, q) implies (q == p || visited(pk, kb, lim, q)) by {
                    if q > p && q < lim {
                        assert(pk.subrange(0, lim)[q] == pk[q]);
                    }
                }
                lim = p as int;
            }
            p = next;
        }
        proof {
            assert(pk.len() == self.patterns@.len());
            if broke {
                self.lemma_chain_long(buf@, i as int, lim, qstar);
                assert(record_ok(pats, ord, self.patterns@, qstar));
                lemma_chosen_unique_match(buf@, pats, i as int, ord[qstar]);
            } else {
                assert forall|q: int| 0 <= q < lim implies pk[q] != kb by {
                    assert(pk.subrange(0, lim)[q] == pk[q]);
                }
                self.lemma_chain_done(buf@, i as int, lim, best_len as int, qstar);
                if best_len > 0 {
                    assert(record_ok(pats, ord, self.patterns@, qstar));
                    assert(pattern_ok(pats, ord[qstar]));
                    lemma_chosen_unique_match(buf@, pats, i as int, ord[qstar]);
                } else {
                    assert(!exists|j: int| chosen(buf@, pats, i as int, j));
                }
            }
        }
        (best_len, best_tok)
    }
}

proof fn lemma_chosen_unique_match(buf: Seq<u8>, pats: Seq<Seq<u8>>, i: int, j: int)
    requires
        chosen(buf, pats, i, j),
        0 <= i < buf.len(),
        buf[i] != ESCAPE,
    ensures
        match_at(buf, pats, i) == Some((token_of(j), pats[j].len())),
{
    let jj = choose|jj: int| chosen(buf, pats, i, jj);
    lemma_chosen_unique(buf, pats, i, j, jj);
}

/// No entry occurs at positions from `i` on: the rest of the match list is empty.
proof fn lemma_no_matches_from(buf: Seq<u8>, pats: Seq<Seq<u8>>, i: int)
    requires
        0 <= i,
        forall|k: int| i <= k < buf.len() ==> match_at(buf, pats, k) is None,
    ensures
        matches_from(buf, pats, i) == Seq::<(usize, u8, usize)>::empty(),
    decreases buf.len() - i,
{
    if i < buf.len() {
        lemma_no_matches_from(buf, pats, i + 1);
    }
}

/// A position too close to the end for four bytes has no match.
proof fn lemma_no_match_near_end(buf: Seq<u8>, pats: Seq<Seq<u8>>, i: int)
    requires
        i + 4 > buf.len(),
    ensures
        match_at(buf, pats, i) is None,
{
    if exists|j: int| chosen(buf, pats, i, j) {
        let j = choose|j: int| chosen(buf, pats, i, j);
        assert(candidate(buf, pats, i, j));
    }
}

impl FirstByteIndex {
    /// Every match of the index's entries in `buf`, in position order:
    /// `(position, token id, length)`.
    pub fn find_matches(&self, buf: &[u8]) -> (r: Vec<(usize, u8, usize)>)
        requires
            self.wf(),
        ensures
            r@ == matches_from(buf@, self.entries_view(), 0),
            forall|k: int| 0 <= k < r@.len() ==> 1 <= (#[trigger] r@[k]).1 <= MAX_TOKEN_ID
                && r@[k].1 <= self.entries_view().len() && r@[k].0 + r@[k].2 <= buf@.len()
                && self.entries_view()[r@[k].1 - 1] == buf@.subrange(r@[k].0 as int, r@[k].0 + r@[k].2),
    {
        let ghost pats = self.pats@;
        proof {
            assert(buf@.len() == buf.len());
            lemma_matches_ids(buf@, pats);
        }
        let ghost ord = self.order@;
        let n = buf.len();
        if n < 4 || self.patterns.len() == 0 {
            proof {
                assert forall|k: int| 0 <= k < buf@.len() implies match_at(buf@, pats, k) is None by {
                    if n < 4 {
                        lemma_no_match_near_end(buf@, pats, k);
                    } else if exists|j: int| chosen(buf@, pats, k, j) {
                        let j = choose|j: int| chosen(buf@, pats, k, j);
                        assert(pattern_ok(pats, j));
                        let p = choose|p: int| 0 <= p < ord.len() && #[trigger] ord[p] == j;
                    }
                }
                lemma_no_matches_from(buf@, pats, 0);
            }
            return Vec::new();
        }
        // first bytes that can start a pattern
        let mut first_byte_present = [false; 256];
        let mut q: usize = 0;
        while q < self.patterns.len()
            invariant
                q <= self.patterns@.len(),
                self.wf(),
                forall|qq: int| 0 <= qq < q ==> first_byte_present[#[trigger] self.patterns@[qq].bytes@[0] as int],
            decreases self.patterns@.len() - q,
        {
            proof {
                assert(record_ok(self.pats@, self.order@, self.patterns@, q as int));
                assert(pattern_ok(self.pats@, self.order@[q as int]));
            }
            let b0 = self.patterns[q].bytes[0];
            first_byte_present[b0 as usize] = true;
            q = q + 1;
        }
        let mut out: Vec<(usize, u8, usize)> = Vec::new();
        let mut i: usize = 0;
        proof {
            assert(out@ + matches_from(buf@, pats, 0) =~= matches_from(buf@, pats, 0));
        }
        while i <= n - 4
            invariant
                self.wf(),
                n >= 4,
                pats == self.pats@,
                n == buf@.len(),
                i <= n,
                forall|qq: int| 0 <= qq < self.patterns@.len() ==> first_byte_present[#[trigger] self.patterns@[qq].bytes@[0] as int],
                out@ + matches_from(buf@, pats, i as int) == matches_from(buf@, pats, 0),
            decreases n - i,
        {
            let ghost rest = matches_from(buf@, pats, i as int);
            if buf[i] == ESCAPE || !first_byte_present[buf[i] as usize] {
                proof {
                    if buf@[i as int] != ESCAPE && exists|j: int| chosen(buf@, pats, i as int, j) {
                        let j = choose|j: int| chosen(buf@, pats, i as int, j);
                        let qq = self.lemma_candidate_record(buf@, i as int, j);
                        assert(record_ok(self.pats@, self.order@, self.patterns@, qq));
                        lemma_occurs_key(buf@, self.patterns@[qq].bytes@, i as int);
                        assert(first_byte_present[self.patterns@[qq].bytes@[0] as int]);
                    }
                    assert(match_at(buf@, pats, i as int) is None);
                }
            } else {
                let (best_len, best_tok) = self.best_at(buf, i);
                if best_len >= 4 {
                    let ghost out0 = out@;
                    out.push((i, best_tok, best_len));
                    proof {
                        assert(rest =~= seq![(i, best_tok, best_len)] + matches_from(buf@, pats, i + 1));
                        assert(out@ =~= out0 + seq![(i, best_tok, best_len)]);
                    }
                }
            }
            i = i + 1;
        }
        proof {
            assert forall|k: int| i <= k < buf@.len() implies match_at(buf@, pats, k) is None by {
                lemma_no_match_near_end(buf@, pats, k);
            }
            lemma_no_matches_from(buf@, pats, i as int);
            assert(out@ + Seq::<(usize, u8, usize)>::empty() =~= out@);
        }
        out
    }
}

/// Codon-encode `buf` with the dictionary `entries`.
pub fn encode(buf: &[u8], entries: &[DictEntry]) -> (out: Vec<u8>)
    requires
        entries@.len() <= 0x2000_0000,
    ensures
        out@ == encode_spec(buf@, entry_bytes(entries@)),
{
    if entries.len() == 0 {
        proof {
            let pats = entry_bytes(entries@);
            assert forall|k: int| 0 <= k < buf@.len() implies match_at(buf@, pats, k) is None by {
                if exists|j: int| chosen(buf@, pats, k, j) {
                    let j = choose|j: int| chosen(buf@, pats, k, j);
                    assert(pattern_ok(pats, j));
                }
            }
            lemma_encode_literal_run(buf@, pats, 0, buf@.len() as int);
            assert(buf@.subrange(0, buf@.len() as int) =~= buf@);
        }
        return escape_only(buf);
    }
    let index = FirstByteIndex::build(entries);
    encode_with_index(buf, &index)
}

/// Encode using a pre-built index.
pub fn encode_with_index(buf: &[u8], index: &FirstByteIndex) -> (out: Vec<u8>)
    requires
        index.wf(),
    ensures
        out@ == encode_spec(buf@, index.entries_view()),
{
    let matches = index.find_matches(buf);
    let n = buf.len();
    proof {
        lemma_matches_from_shape(buf@, index.entries_view(), 0);
        assert forall|k: int| 0 <= k < matches@.len() implies (#[trigger] matches@[k]).0 + matches@[k].2 <= usize::MAX by {
            lemma_match_at_len(buf@, index.entries_view(), matches@[k].0 as int);
        }
        lemma_assemble_is_encode(buf@, index.entries_view(), 0);
    }
    assemble_from_matches(buf, matches.as_slice())
}


// ---------------------------------------------------------------------------
// Interleaved split-stream format and tiered token ids
// ---------------------------------------------------------------------------

/// Decode the first `k` records of an interleaved pair stream: the output so
/// far and the literals consumed, or `None` once a record overruns the
/// literals or names no entry. A record is a literal count (u16 little
/// endian) and a token id.
pub open spec fn interleaved_prefix(pairs: Seq<u8>, lits: Seq<u8>, pats: Seq<Seq<u8>>, k: nat) -> Option<(Seq<u8>, int)>
    decreases k,
{
    if k == 0 {
        Some((Seq::empty(), 0))
    } else {
        match interleaved_prefix(pairs, lits, pats, (k - 1) as nat) {
            Some((out, li)) => {
                let p = 3 * (k - 1);
                let lc = crate::bytes::le16_value(pairs.subrange(p, p + 2)) as int;
                let tok = pairs[p + 2] as int;
                if li + lc > lits.len() {
                    None
                } else if 0 < tok <= pats.len() {
                    Some((out + lits.subrange(li, li + lc) + pats[tok - 1], li + lc))
                } else {
                    None
                }
            },
            None => None,
        }
    }
}

/// Decode an interleaved pair stream: records of literal count and token
/// id, then the trailing literal count. `None` when the stream is shorter
/// than two bytes, its body is not a whole number of records, or a record
/// or the trailer overruns the literals or names no entry.
pub open spec fn interleaved_spec(pairs: Seq<u8>, lits: Seq<u8>, pats: Seq<Seq<u8>>) -> Option<Seq<u8>> {
    if pairs.len() < 2 || (pairs.len() - 2) % 3 != 0 {
        None
    } else {
        let body = pairs.len() - 2;
        match interleaved_prefix(pairs, lits, pats, (body / 3) as nat) {
            Some((out, li)) => {
                let tr = crate::bytes::le16_value(pairs.subrange(body, body + 2)) as int;
                if li + tr > lits.len() {
                    None
                } else {
                    Some(out + lits.subrange(li, li + tr))
                }
            },
            None => None,
        }
    }
}

proof fn lemma_interleaved_fail(pairs: Seq<u8>, lits: Seq<u8>, pats: Seq<Seq<u8>>, k: nat, count: nat)
    requires
        k <= count,
        interleaved_prefix(pairs, lits, pats, k) is None,
    ensures
        interleaved_prefix(pairs, lits, pats, count) is None,
    decreases count - k,
{
    if k < count {
        lemma_interleaved_fail(pairs, lits, pats, k + 1, count);
    }
}

/// `format!` of the length in decimal.
#[verifier::external_body]
fn body_length_message(n: usize) -> (m: String)
    ensures
        m@ == "pairs body length "@ + crate::text::decimal(n as nat) + " not multiple of 3"@,
{
    format!("pairs body length {} not multiple of 3", n)
}

/// `format!` of the id and the entry count in decimal.
#[verifier::external_body]
fn invalid_token_message(tok: usize, n: usize) -> (m: String)
    ensures
        m@ == "invalid tok_id "@ + crate::text::decimal(tok as nat) + " (entries len "@ + crate::text::decimal(n as nat) + ")"@,
{
    format!("invalid tok_id {} (entries len {})", tok, n)
}

/// Decode the interleaved pair format; the original buffer is not needed.
pub fn decode_ac_interleaved(pairs: &[u8], literals: &[u8], entries: &[DictEntry]) -> (r: Result<Vec<u8>, String>)
    ensures
        match interleaved_spec(pairs@, literals@, entry_bytes(entries@)) {
            Some(d) => r matches Ok(v) && v@ == d,
            None => r is Err,
        },
{
    let ghost pats = entry_bytes(entries@);
    if pairs.len() < 2 {
        return Err(String::from_str("pairs stream too short"));
    }
    let body_len = pairs.len() - 2;
    if body_len % 3 != 0 {
        return Err(body_length_message(body_len));
    }
    let mut out: Vec<u8> = Vec::new();
    let mut lit_idx: usize = 0;
    let mut pair_pos: usize = 0;
    let ghost mut k: nat = 0;
    while pair_pos < body_len
        invariant
            body_len == pairs@.len() - 2,
            body_len % 3 == 0,
            pair_pos == 3 * k,
            pair_pos <= body_len,
            lit_idx <= literals@.len(),
            pats == entry_bytes(entries@),
            interleaved_prefix(pairs@, literals@, pats, k) == Some((out@, lit_idx as int)),
        decreases body_len - pair_pos,
    {
        let lit_count = crate::bytes::read_le16(pairs, pair_pos) as usize;
        let tok_id = pairs[pair_pos + 2] as usize;
        proof {
            assert(pair_pos as int == 3 * (k as int));
        }
        if lit_count > literals.len() - lit_idx {
            proof {
                lemma_interleaved_fail(pairs@, literals@, pats, k + 1, (body_len / 3) as nat);
            }
            return Err(String::from_str("literal overrun in pairs decode"));
        }
        crate::bytes::append_bytes(&mut out, vstd::slice::slice_subrange(literals, lit_idx, lit_idx + lit_count));
        lit_idx = lit_idx + lit_count;
        if tok_id > 0 && tok_id <= entries.len() {
            crate::bytes::append_bytes(&mut out, entries[tok_id - 1].bytes.as_slice());
        } else {
            proof {
                lemma_interleaved_fail(pairs@, literals@, pats, k + 1, (body_len / 3) as nat);
            }
            return Err(invalid_token_message(tok_id, entries.len()));
        }
        pair_pos = pair_pos + 3;
        proof {
            k = k + 1;
        }
    }
    let trailing = crate::bytes::read_le16(pairs, pair_pos) as usize;
    if trailing > literals.len() - lit_idx {
        return Err(String::from_str("trailing literal overrun"));
    }
    crate::bytes::append_bytes(&mut out, vstd::slice::slice_subrange(literals, lit_idx, lit_idx + trailing));
    Ok(out)
}

/// The tier (0 to 3) of a pattern index in a tiered pattern list: indices
/// below 63, 127 and 191 mark tiers 0, 1 and 2.
pub fn tier_for_pattern_idx(idx: usize) -> (t: u8)
    ensures
        t == if idx < 63 { 0u8 } else if idx < 127 { 1u8 } else if idx < 191 { 2u8 } else { 3u8 },
{
    if idx < 63 {
        0
    } else if idx < 127 {
        1
    } else if idx < 191 {
        2
    } else {
        3
    }
}

/// The token id (1 to 254) of a pattern index, when there is one.
pub fn pattern_idx_to_token_id(idx: usize) -> (r: Option<u8>)
    ensures
        r == if idx < 254 { Some((idx + 1) as u8) } else { None::<u8> },
{
    if idx < 254 {
        Some((idx + 1) as u8)
    } else {
        None
    }
}


/// A codon encoding is at most twice as long as what it encodes.
pub proof fn lemma_encode_len(buf: Seq<u8>, pats: Seq<Seq<u8>>, pos: int)
    requires
        0 <= pos <= buf.len(),
    ensures
        encode_from(buf, pats, pos).len() <= 2 * (buf.len() - pos),
    decreases buf.len() - pos,
{
    if pos < buf.len() {
        lemma_match_at_len(buf, pats, pos);
        match match_at(buf, pats, pos) {
            Some((t, l)) => {
                lemma_encode_len(buf, pats, pos + l);
            },
            None => {
                lemma_encode_len(buf, pats, pos + 1);
            },
        }
    }
}

// ---------------------------------------------------------------------------
// Aho-Corasick matching
// ---------------------------------------------------------------------------

#[verifier::external_type_specification]
#[verifier::external_body]
pub struct ExAhoCorasick(aho_corasick::AhoCorasick);

/// The matches that a leftmost-longest Aho-Corasick automaton over
/// `patterns` reports, in order, for `hay`: (start, end, pattern index).
pub uninterp spec fn ac_leftmost_longest(patterns: Seq<Seq<u8>>, hay: Seq<u8>) -> Seq<(int, int, int)>;

/// The patterns an automaton holds, in pattern-id order.
pub uninterp spec fn ac_patterns(ac: aho_corasick::AhoCorasick) -> Seq<Seq<u8>>;

/// Whether the builder (leftmost-longest, contiguous NFA) succeeds on
/// `patterns`; it depends on the patterns alone.
pub uninterp spec fn ac_buildable(patterns: Seq<Seq<u8>>) -> bool;

/// The byte strings of a list of byte vectors.
pub open spec fn vecs_view(v: Seq<Vec<u8>>) -> Seq<Seq<u8>> {
    v.map_values(|p: Vec<u8>| p@)
}

/// A leftmost-longest automaton.
pub struct AcIndex {
    ac: aho_corasick::AhoCorasick,
}

impl AcIndex {
    /// The patterns, in automaton order.
    pub closed spec fn patterns(&self) -> Seq<Seq<u8>> {
        ac_patterns(self.ac)
    }

    /// Every pattern is at least four bytes long.
    pub closed spec fn wf(&self) -> bool {
        forall|k: int| 0 <= k < ac_patterns(self.ac).len() ==> (#[trigger] ac_patterns(self.ac)[k]).len() >= 4
    }
}

/// What holds of every match list of a non-overlapping search: each match
/// is an occurrence of its pattern, and the matches come in order without
/// overlapping.
pub open spec fn matches_ok(pats: Seq<Seq<u8>>, hay: Seq<u8>, ms: Seq<(int, int, int)>) -> bool {
    &&& forall|k: int|
        0 <= k < ms.len() ==> {
            &&& 0 <= (#[trigger] ms[k]).0 <= ms[k].1 <= hay.len()
            &&& 0 <= ms[k].2 < pats.len()
            &&& hay.subrange(ms[k].0, ms[k].1) == pats[ms[k].2]
        }
    &&& forall|a: int, b: int| 0 <= a < b < ms.len() ==> (#[trigger] ms[a]).1 <= (#[trigger] ms[b]).0
}

/// The plain values of a match list.
pub open spec fn match_view(ms: Seq<(usize, usize, usize)>) -> Seq<(int, int, int)> {
    ms.map_values(|m: (usize, usize, usize)| (m.0 as int, m.1 as int, m.2 as int))
}

/// `aho_corasick::AhoCorasick::builder` with leftmost-longest matching as
/// a contiguous NFA, then `build` over `patterns`: an automaton holding
/// the patterns in order (pattern `i` has id `i`), or `None` when the
/// builder reports an error, which it does on the patterns alone (named
/// `ac_buildable`; which patterns fail is not stated). The automaton kind
/// decides how fast it is built and searches, not which matches it
/// reports.
#[verifier::external_body]
fn ac_build(patterns: &Vec<Vec<u8>>) -> (r: Option<aho_corasick::AhoCorasick>)
    ensures
        r is Some <==> ac_buildable(vecs_view(patterns@)),
        r matches Some(a) ==> ac_patterns(a) == vecs_view(patterns@),
{
    aho_corasick::AhoCorasick::builder()
        .match_kind(aho_corasick::MatchKind::LeftmostLongest)
        .kind(Some(aho_corasick::AhoCorasickKind::ContiguousNFA))
        .build(patterns)
        .ok()
}

/// `aho_corasick::AhoCorasick::find_iter` over `hay`, each match as
/// (start, end, pattern index): the matches the automaton reports, which
/// are occurrences of their patterns in order and without overlap.
#[verifier::external_body]
fn ac_find(idx: &AcIndex, hay: &[u8]) -> (r: Vec<(usize, usize, usize)>)
    requires
        idx.wf(),
    ensures
        match_view(r@) == ac_leftmost_longest(idx.patterns(), hay@),
        matches_ok(idx.patterns(), hay@, match_view(r@)),
{
    idx.ac.find_iter(hay).map(|m| (m.start(), m.end(), m.pattern().as_usize())).collect()
}

/// Entries of at least four bytes, in order.
pub open spec fn long_views(es: Seq<(Seq<u8>, nat, nat)>) -> Seq<(Seq<u8>, nat, nat)>
    decreases es.len(),
{
    if es.len() == 0 {
        Seq::empty()
    } else {
        long_views(es.drop_last()) + if es.last().0.len() >= 4 { seq![es.last()] } else { Seq::empty() }
    }
}

proof fn lemma_long_views(es: Seq<(Seq<u8>, nat, nat)>)
    ensures
        forall|k: int| 0 <= k < long_views(es).len() ==> (#[trigger] long_views(es)[k]).0.len() >= 4,
    decreases es.len(),
{
    if es.len() > 0 {
        lemma_long_views(es.drop_last());
        let a = long_views(es.drop_last());
        let l = long_views(es);
        assert forall|k: int| 0 <= k < l.len() implies (#[trigger] l[k]).0.len() >= 4 by {
            if k < a.len() {
                assert(l[k] == a[k]);
            }
        }
    }
}

/// The entries of at least four bytes.
fn long_entries(entries: &[DictEntry]) -> (r: Vec<DictEntry>)
    ensures
        crate::tokenizer::dictionary::entry_views(r@) == long_views(crate::tokenizer::dictionary::entry_views(entries@)),
{
    let ghost ev = crate::tokenizer::dictionary::entry_views(entries@);
    let mut r: Vec<DictEntry> = Vec::new();
    let mut k: usize = 0;
    while k < entries.len()
        invariant
            k <= entries@.len(),
            ev == crate::tokenizer::dictionary::entry_views(entries@),
            crate::tokenizer::dictionary::entry_views(r@) == long_views(ev.take(k as int)),
        decreases entries@.len() - k,
    {
        proof {
            assert(ev.take(k + 1).drop_last() =~= ev.take(k as int));
            assert(ev.take(k + 1).last() == ev[k as int]);
        }
        if entries[k].bytes.len() >= 4 {
            let e = entries[k].duplicate();
            let ghost r0 = r@;
            r.push(e);
            proof {
                assert(crate::tokenizer::dictionary::entry_views(r@) =~= crate::tokenizer::dictionary::entry_views(r0).push(
                    crate::tokenizer::dictionary::entry_view(e),
                ));
            }
        } else {
            proof {
                assert(long_views(ev.take(k + 1)) =~= long_views(ev.take(k as int)));
            }
        }
        k = k + 1;
    }
    proof {
        assert(ev.take(entries@.len() as int) =~= ev);
    }
    r
}

/// The byte strings of a list of entries, as vectors.
fn entry_byte_vecs(es: &Vec<DictEntry>) -> (r: Vec<Vec<u8>>)
    ensures
        r@.len() == es@.len(),
        forall|k: int| 0 <= k < es@.len() ==> (#[trigger] r@[k])@ == es@[k].bytes@,
{
    let mut r: Vec<Vec<u8>> = Vec::new();
    let mut k: usize = 0;
    while k < es.len()
        invariant
            k <= es@.len(),
            r@.len() == k,
            forall|j: int| 0 <= j < k ==> (#[trigger] r@[j])@ == es@[j].bytes@,
        decreases es@.len() - k,
    {
        r.push(vstd::slice::slice_to_vec(es[k].bytes.as_slice()));
        k = k + 1;
    }
    r
}

/// Pair an automaton with the patterns it was built from.
fn ac_over(es: &Vec<DictEntry>) -> (r: Option<AcIndex>)
    requires
        forall|k: int| 0 <= k < es@.len() ==> (#[trigger] es@[k]).bytes@.len() >= 4,
    ensures
        r is Some <==> ac_buildable(entry_bytes(es@)),
        r matches Some(a) ==> a.wf() && a.patterns() == entry_bytes(es@),
{
    let pv = entry_byte_vecs(es);
    proof {
        assert(vecs_view(pv@) =~= entry_bytes(es@));
    }
    match ac_build(&pv) {
        Some(ac) => {
            let a = AcIndex { ac };
            proof {
                assert forall|k: int| 0 <= k < ac_patterns(a.ac).len() implies (#[trigger] ac_patterns(a.ac)[k]).len() >= 4 by {
                    assert(ac_patterns(a.ac)[k] == es@[k].bytes@);
                }
            }
            Some(a)
        },
        None => None,
    }
}

/// An automaton over the entries of at least four bytes, largest saving
/// first (equally large ones in any order); `None` for no entries or when
/// the automaton cannot be built.
pub fn build_ac(entries: &[DictEntry]) -> (r: Option<AcIndex>)
    ensures
        entries@.len() == 0 ==> r is None,
        entries@.len() > 0 ==> exists|ranking: Seq<(Seq<u8>, nat, nat)>|
            #[trigger] crate::tokenizer::ranked(long_views(crate::tokenizer::dictionary::entry_views(entries@)), ranking,
                long_views(crate::tokenizer::dictionary::entry_views(entries@)).len())
            && (r is Some <==> ac_buildable(crate::tokenizer::views_bytes(ranking)))
            && (r matches Some(a) ==> a.wf() && a.patterns() == crate::tokenizer::views_bytes(ranking)),
{
    if entries.len() == 0 {
        return None;
    }
    let long = long_entries(entries);
    let n = long.len();
    let sorted = crate::tokenizer::rank_by_saving(&long, n);
    let ghost lv = crate::tokenizer::dictionary::entry_views(long@);
    let ghost sv = crate::tokenizer::dictionary::entry_views(sorted@);
    proof {
        lemma_long_views(crate::tokenizer::dictionary::entry_views(entries@));
        let perm = choose|perm: Seq<int>| #[trigger] crate::tokenizer::ranked_by(lv, sv, n as nat, perm);
        assert forall|k: int| 0 <= k < sorted@.len() implies (#[trigger] sorted@[k]).bytes@.len() >= 4 by {
            assert(sv[k] == crate::tokenizer::dictionary::entry_view(sorted@[k]));
            assert(sv[k] == lv[perm[k]]);
        }
        crate::tokenizer::lemma_entry_bytes_views(sorted@);
    }
    ac_over(&sorted)
}

/// Append the bytes of `buf[from..to]` as literals.
fn append_escaped(out: &mut Vec<u8>, buf: &[u8], from: usize, to: usize)
    requires
        from <= to <= buf@.len(),
    ensures
        final(out)@ == old(out)@ + escape_seq(buf@.subrange(from as int, to as int)),
{
    let ghost start = out@;
    let mut t = from;
    proof {
        assert(buf@.subrange(from as int, from as int) =~= Seq::<u8>::empty());
        assert(out@ =~= start + escape_seq(buf@.subrange(from as int, from as int)));
    }
    while t < to
        invariant
            from <= t <= to <= buf@.len(),
            out@ == start + escape_seq(buf@.subrange(from as int, t as int)),
        decreases to - t,
    {
        let b = buf[t];
        proof {
            assert(buf@.subrange(from as int, t + 1).drop_last() =~= buf@.subrange(from as int, t as int));
            assert(buf@.subrange(from as int, t + 1).last() == b);
        }
        if b == ESCAPE {
            out.push(ESCAPE);
            out.push(0x00);
        } else {
            out.push(b);
        }
        proof {
            assert(out@ =~= start + escape_seq(buf@.subrange(from as int, t + 1)));
        }
        t = t + 1;
    }
}

/// Append the bytes of `buf[from..to]` unchanged.
fn append_range(out: &mut Vec<u8>, buf: &[u8], from: usize, to: usize)
    requires
        from <= to <= buf@.len(),
    ensures
        final(out)@ == old(out)@ + buf@.subrange(from as int, to as int),
{
    let ghost start = out@;
    let mut t = from;
    while t < to
        invariant
            from <= t <= to <= buf@.len(),
            out@ == start + buf@.subrange(from as int, t as int),
        decreases to - t,
    {
        out.push(buf[t]);
        proof {
            assert(buf@.subrange(from as int, t + 1) =~= buf@.subrange(from as int, t as int).push(buf@[t as int]));
        }
        t = t + 1;
    }
}

/// An automaton over four vocabulary tiers: from each tier its entries of
/// at least four bytes, largest saving first (equally large ones in any
/// order), at most the tier's slots; `None` when no tier has any, or when
/// the automaton cannot be built.
pub fn build_tiered_ac(l0: &[DictEntry], l1: &[DictEntry], l2: &[DictEntry], l3: &[DictEntry]) -> (r: Option<AcIndex>)
    ensures
        exists|r0: Seq<(Seq<u8>, nat, nat)>, r1: Seq<(Seq<u8>, nat, nat)>, r2: Seq<(Seq<u8>, nat, nat)>, r3: Seq<(Seq<u8>, nat, nat)>|
            #[trigger] tiers_ranked(l0@, l1@, l2@, l3@, r0, r1, r2, r3) && tiered_result(r0 + r1 + r2 + r3, r),
        a_none_when_empty(l0@, l1@, l2@, l3@) ==> r is None,
{
    let t0 = tier_top(l0, 63);
    let t1 = tier_top(l1, 64);
    let t2 = tier_top(l2, 64);
    let t3 = tier_top(l3, 63);
    let mut all: Vec<DictEntry> = Vec::new();
    append_entries(&mut all, &t0);
    append_entries(&mut all, &t1);
    append_entries(&mut all, &t2);
    append_entries(&mut all, &t3);
    let ghost v0 = crate::tokenizer::dictionary::entry_views(t0@);
    let ghost v1 = crate::tokenizer::dictionary::entry_views(t1@);
    let ghost v2 = crate::tokenizer::dictionary::entry_views(t2@);
    let ghost v3 = crate::tokenizer::dictionary::entry_views(t3@);
    proof {
        assert(crate::tokenizer::dictionary::entry_views(all@) =~= v0 + v1 + v2 + v3);
        crate::tokenizer::lemma_entry_bytes_views(all@);
        assert forall|k: int| 0 <= k < all@.len() implies (#[trigger] all@[k]).bytes@.len() >= 4 by {
            assert(crate::tokenizer::dictionary::entry_views(all@)[k] == crate::tokenizer::dictionary::entry_view(all@[k]));
        }
    }
    proof {
        assert(crate::tokenizer::views_bytes(v0 + v1 + v2 + v3) == entry_bytes(all@));
        assert(tiers_ranked(l0@, l1@, l2@, l3@, v0, v1, v2, v3));
        assert((v0 + v1 + v2 + v3).len() == all@.len());
    }
    if all.len() == 0 {
        return None;
    }
    let r = ac_over(&all);
    proof {
        assert(tiered_result(v0 + v1 + v2 + v3, r));
    }
    r
}

/// `r0`..`r3` are the four tiers' entries of at least four bytes, ranked
/// by saving (equal savings in tier order), at most 63, 64, 64 and 63.
pub open spec fn tiers_ranked(
    l0: Seq<DictEntry>,
    l1: Seq<DictEntry>,
    l2: Seq<DictEntry>,
    l3: Seq<DictEntry>,
    r0: Seq<(Seq<u8>, nat, nat)>,
    r1: Seq<(Seq<u8>, nat, nat)>,
    r2: Seq<(Seq<u8>, nat, nat)>,
    r3: Seq<(Seq<u8>, nat, nat)>,
) -> bool {
    &&& crate::tokenizer::ranked_stable(long_views(crate::tokenizer::dictionary::entry_views(l0)), r0, 63)
    &&& crate::tokenizer::ranked_stable(long_views(crate::tokenizer::dictionary::entry_views(l1)), r1, 64)
    &&& crate::tokenizer::ranked_stable(long_views(crate::tokenizer::dictionary::entry_views(l2)), r2, 64)
    &&& crate::tokenizer::ranked_stable(long_views(crate::tokenizer::dictionary::entry_views(l3)), r3, 63)
}

/// `r` is the automaton over the ranked entries `rs`: there is one exactly
/// when there are entries and the builder succeeds on their bytes, and it
/// holds those bytes in order.
pub open spec fn tiered_result(rs: Seq<(Seq<u8>, nat, nat)>, r: Option<AcIndex>) -> bool {
    &&& r is Some <==> rs.len() > 0 && ac_buildable(crate::tokenizer::views_bytes(rs))
    &&& r matches Some(a) ==> a.wf() && a.patterns() == crate::tokenizer::views_bytes(rs)
}

/// No tier has an entry of at least four bytes.
pub open spec fn a_none_when_empty(l0: Seq<DictEntry>, l1: Seq<DictEntry>, l2: Seq<DictEntry>, l3: Seq<DictEntry>) -> bool {
    &&& long_views(crate::tokenizer::dictionary::entry_views(l0)).len() == 0
    &&& long_views(crate::tokenizer::dictionary::entry_views(l1)).len() == 0
    &&& long_views(crate::tokenizer::dictionary::entry_views(l2)).len() == 0
    &&& long_views(crate::tokenizer::dictionary::entry_views(l3)).len() == 0
}

/// A tier's entries of at least four bytes, ranked by saving, at most `slots`.
pub(crate) fn tier_top(tier: &[DictEntry], slots: usize) -> (r: Vec<DictEntry>)
    ensures
        crate::tokenizer::ranked_stable(long_views(crate::tokenizer::dictionary::entry_views(tier@)), crate::tokenizer::dictionary::entry_views(r@), slots as nat),
        forall|k: int| 0 <= k < r@.len() ==> (#[trigger] crate::tokenizer::dictionary::entry_views(r@)[k]).0.len() >= 4,
        long_views(crate::tokenizer::dictionary::entry_views(tier@)).len() == 0 ==> r@.len() == 0,
{
    let long = long_entries(tier);
    let r = crate::tokenizer::rank_by_saving(&long, slots);
    proof {
        let lv = crate::tokenizer::dictionary::entry_views(long@);
        let rv = crate::tokenizer::dictionary::entry_views(r@);
        lemma_long_views(crate::tokenizer::dictionary::entry_views(tier@));
        let perm = choose|perm: Seq<int>| #[trigger] crate::tokenizer::ranked_by(lv, rv, slots as nat, perm);
        assert forall|k: int| 0 <= k < rv.len() implies (#[trigger] rv[k]).0.len() >= 4 by {
            assert(rv[k] == lv[perm[k]]);
        }
    }
    r
}

fn append_entries(all: &mut Vec<DictEntry>, more: &Vec<DictEntry>)
    ensures
        crate::tokenizer::dictionary::entry_views(final(all)@) == crate::tokenizer::dictionary::entry_views(old(all)@)
            + crate::tokenizer::dictionary::entry_views(more@),
{
    let ghost a0 = crate::tokenizer::dictionary::entry_views(all@);
    let ghost mv = crate::tokenizer::dictionary::entry_views(more@);
    let mut k: usize = 0;
    while k < more.len()
        invariant
            k <= more@.len(),
            mv == crate::tokenizer::dictionary::entry_views(more@),
            crate::tokenizer::dictionary::entry_views(all@) == a0 + mv.take(k as int),
        decreases more@.len() - k,
    {
        let e = more[k].duplicate();
        let ghost before = all@;
        all.push(e);
        proof {
            assert(crate::tokenizer::dictionary::entry_views(all@) =~= crate::tokenizer::dictionary::entry_views(before).push(
                crate::tokenizer::dictionary::entry_view(e),
            ));
            assert(mv.take(k + 1) =~= mv.take(k as int).push(mv[k as int]));
        }
        k = k + 1;
    }
    proof {
        assert(mv.take(more@.len() as int) =~= mv);
    }
}

/// The codon-format encoding of `buf[pos..]` from match `k` on: literals
/// escaped, matches of patterns 0-253 as tokens 1-254, later patterns'
/// matches as escaped literals.
pub open spec fn ac_with_from(buf: Seq<u8>, ms: Seq<(int, int, int)>, k: int, pos: int) -> Seq<u8>
    decreases ms.len() - k,
{
    if k < 0 || k >= ms.len() {
        escape_seq(buf.subrange(pos, buf.len() as int))
    } else {
        escape_seq(buf.subrange(pos, ms[k].0)) + (if ms[k].2 >= 254 {
            escape_seq(buf.subrange(ms[k].0, ms[k].1))
        } else {
            seq![ESCAPE, (ms[k].2 + 1) as u8]
        }) + ac_with_from(buf, ms, k + 1, ms[k].1)
    }
}

/// Encode `buf` with a prebuilt automaton, in the codon format.
pub fn encode_ac_with(buf: &[u8], ac: &AcIndex) -> (out: Vec<u8>)
    requires
        ac.wf(),
    ensures
        matches_ok(ac.patterns(), buf@, ac_leftmost_longest(ac.patterns(), buf@)),
        out@ == ac_with_from(buf@, ac_leftmost_longest(ac.patterns(), buf@), 0, 0),
{
    let ms = ac_find(ac, buf);
    let ghost mv = match_view(ms@);
    let mut out: Vec<u8> = Vec::new();
    let mut pos: usize = 0;
    let mut k: usize = 0;
    while k < ms.len()
        invariant
            k <= ms@.len(),
            mv == match_view(ms@),
            matches_ok(ac.patterns(), buf@, mv),
            pos <= buf@.len(),
            k < ms@.len() ==> pos <= mv[k as int].0,
            k > 0 ==> pos == mv[k - 1].1,
            ac_with_from(buf@, mv, 0, 0) == out@ + ac_with_from(buf@, mv, k as int, pos as int),
        decreases ms@.len() - k,
    {
        let (st, en, p) = ms[k];
        proof {
            assert(mv[k as int] == (st as int, en as int, p as int));
        }
        append_escaped(&mut out, buf, pos, st);
        if p >= 254 {
            append_escaped(&mut out, buf, st, en);
        } else {
            out.push(ESCAPE);
            out.push((p + 1) as u8);
        }
        pos = en;
        k = k + 1;
        proof {
            if k < ms@.len() {
                assert(mv[k - 1].1 <= mv[k as int].0);
            }
        }
    }
    append_escaped(&mut out, buf, pos, buf.len());
    out
}

/// The split-stream encoding of `buf[pos..]` from match `k` on: token ids
/// of matches of patterns 0-253, and every other byte in order.
pub open spec fn ac_split_from(buf: Seq<u8>, ms: Seq<(int, int, int)>, k: int, pos: int) -> (Seq<u8>, Seq<u8>)
    decreases ms.len() - k,
{
    if k < 0 || k >= ms.len() {
        (Seq::empty(), buf.subrange(pos, buf.len() as int))
    } else {
        let rest = ac_split_from(buf, ms, k + 1, ms[k].1);
        if ms[k].2 < 254 {
            (seq![(ms[k].2 + 1) as u8] + rest.0, buf.subrange(pos, ms[k].0) + rest.1)
        } else {
            (rest.0, buf.subrange(pos, ms[k].1) + rest.1)
        }
    }
}

/// Split-stream encode: token ids and literal bytes, for independent
/// compression.
pub fn encode_ac_split(buf: &[u8], ac: &AcIndex) -> (r: (Vec<u8>, Vec<u8>))
    requires
        ac.wf(),
    ensures
        matches_ok(ac.patterns(), buf@, ac_leftmost_longest(ac.patterns(), buf@)),
        (r.0@, r.1@) == ac_split_from(buf@, ac_leftmost_longest(ac.patterns(), buf@), 0, 0),
{
    let ms = ac_find(ac, buf);
    let ghost mv = match_view(ms@);
    let mut toks: Vec<u8> = Vec::new();
    let mut lits: Vec<u8> = Vec::new();
    let mut pos: usize = 0;
    let mut k: usize = 0;
    while k < ms.len()
        invariant
            k <= ms@.len(),
            mv == match_view(ms@),
            matches_ok(ac.patterns(), buf@, mv),
            pos <= buf@.len(),
            k < ms@.len() ==> pos <= mv[k as int].0,
            ac_split_from(buf@, mv, 0, 0).0 == toks@ + ac_split_from(buf@, mv, k as int, pos as int).0,
            ac_split_from(buf@, mv, 0, 0).1 == lits@ + ac_split_from(buf@, mv, k as int, pos as int).1,
        decreases ms@.len() - k,
    {
        let (st, en, p) = ms[k];
        proof {
            assert(mv[k as int] == (st as int, en as int, p as int));
        }
        if p < 254 {
            append_range(&mut lits, buf, pos, st);
            toks.push((p + 1) as u8);
        } else {
            append_range(&mut lits, buf, pos, en);
        }
        pos = en;
        k = k + 1;
        proof {
            if k < ms@.len() {
                assert(mv[k - 1].1 <= mv[k as int].0);
            }
        }
    }
    append_range(&mut lits, buf, pos, buf.len());
    (toks, lits)
}

/// The interleaved encoding of `buf[pos..]` from match `k` on: for each
/// match of a pattern 0-253, the count of literals before it (u16 little
/// endian, truncated) and its token id; then the trailing literal count;
/// and the literal bytes in order.
pub open spec fn ac_inter_from(buf: Seq<u8>, ms: Seq<(int, int, int)>, k: int, pos: int) -> (Seq<u8>, Seq<u8>)
    decreases ms.len() - k,
{
    if k < 0 || k >= ms.len() {
        (crate::bytes::le16_bytes((buf.len() - pos) as u16), buf.subrange(pos, buf.len() as int))
    } else {
        let rest = ac_inter_from(buf, ms, k + 1, ms[k].1);
        if ms[k].2 < 254 {
            (crate::bytes::le16_bytes((ms[k].0 - pos) as u16) + seq![(ms[k].2 + 1) as u8] + rest.0,
                buf.subrange(pos, ms[k].0) + rest.1)
        } else {
            (rest.0, buf.subrange(pos, ms[k].1) + rest.1)
        }
    }
}

/// Encode in the interleaved pair format: (pairs, literals).
pub fn encode_ac_interleaved(buf: &[u8], ac: &AcIndex) -> (r: (Vec<u8>, Vec<u8>))
    requires
        ac.wf(),
    ensures
        matches_ok(ac.patterns(), buf@, ac_leftmost_longest(ac.patterns(), buf@)),
        (r.0@, r.1@) == ac_inter_from(buf@, ac_leftmost_longest(ac.patterns(), buf@), 0, 0),
{
    let ms = ac_find(ac, buf);
    let ghost mv = match_view(ms@);
    let mut pairs: Vec<u8> = Vec::new();
    let mut lits: Vec<u8> = Vec::new();
    let mut pos: usize = 0;
    let mut k: usize = 0;
    while k < ms.len()
        invariant
            k <= ms@.len(),
            mv == match_view(ms@),
            matches_ok(ac.patterns(), buf@, mv),
            pos <= buf@.len(),
            k < ms@.len() ==> pos <= mv[k as int].0,
            ac_inter_from(buf@, mv, 0, 0).0 == pairs@ + ac_inter_from(buf@, mv, k as int, pos as int).0,
            ac_inter_from(buf@, mv, 0, 0).1 == lits@ + ac_inter_from(buf@, mv, k as int, pos as int).1,
        decreases ms@.len() - k,
    {
        let (st, en, p) = ms[k];
        proof {
            assert(mv[k as int] == (st as int, en as int, p as int));
        }
        if p < 254 {
            crate::bytes::push_le16(&mut pairs, (st - pos) as u16);
            pairs.push((p + 1) as u8);
            append_range(&mut lits, buf, pos, st);
        } else {
            append_range(&mut lits, buf, pos, en);
        }
        pos = en;
        k = k + 1;
        proof {
            if k < ms@.len() {
                assert(mv[k - 1].1 <= mv[k as int].0);
            }
        }
    }
    crate::bytes::push_le16(&mut pairs, (buf.len() - pos) as u16);
    append_range(&mut lits, buf, pos, buf.len());
    (pairs, lits)
}

/// Rebuilding `buf[pos..]` from a split stream, from match `k` on, with
/// `ti` token ids and `li` literals consumed: `None` where the streams run
/// short. Token ids outside the entries expand to nothing.
pub open spec fn ac_unsplit_from(
    ms: Seq<(int, int, int)>,
    toks: Seq<u8>,
    lits: Seq<u8>,
    pats: Seq<Seq<u8>>,
    k: int,
    pos: int,
    ti: int,
    li: int,
) -> Option<Seq<u8>>
    decreases ms.len() - k,
{
    if k < 0 || k >= ms.len() {
        if 0 <= li <= lits.len() { Some(lits.subrange(li, lits.len() as int)) } else { None }
    } else {
        let lc = ms[k].0 - pos;
        if lc < 0 || li < 0 || li + lc > lits.len() {
            None
        } else if ms[k].2 < 254 {
            if ti < 0 || ti >= toks.len() {
                None
            } else {
                let id = toks[ti] as int;
                let piece = if 0 < id <= pats.len() { pats[id - 1] } else { Seq::empty() };
                match ac_unsplit_from(ms, toks, lits, pats, k + 1, ms[k].1, ti + 1, li + lc) {
                    Some(r) => Some(lits.subrange(li, li + lc) + piece + r),
                    None => None,
                }
            }
        } else {
            let len = ms[k].1 - ms[k].0;
            if len < 0 || li + lc + len > lits.len() {
                None
            } else {
                match ac_unsplit_from(ms, toks, lits, pats, k + 1, ms[k].1, ti, li + lc + len) {
                    Some(r) => Some(lits.subrange(li, li + lc + len) + r),
                    None => None,
                }
            }
        }
    }
}

/// Rebuild a buffer from its split streams, re-running the automaton on
/// `buf` for the match positions; `None` where the streams run short.
fn unsplit_streams(buf: &[u8], tok_ids: &[u8], literals: &[u8], ac: &AcIndex, entries: &[DictEntry]) -> (r: Option<Vec<u8>>)
    requires
        ac.wf(),
    ensures
        match ac_unsplit_from(ac_leftmost_longest(ac.patterns(), buf@), tok_ids@, literals@, entry_bytes(entries@), 0, 0, 0, 0) {
            Some(d) => r matches Some(v) && v@ == d,
            None => r is None,
        },
{
    let ghost pats = entry_bytes(entries@);
    let ms = ac_find(ac, buf);
    let ghost mv = match_view(ms@);
    let mut out: Vec<u8> = Vec::new();
    let mut pos: usize = 0;
    let mut tok_idx: usize = 0;
    let mut lit_idx: usize = 0;
    let mut k: usize = 0;
    while k < ms.len()
        invariant
            k <= ms@.len(),
            mv == match_view(ms@),
            mv == ac_leftmost_longest(ac.patterns(), buf@),
            pats == entry_bytes(entries@),
            matches_ok(ac.patterns(), buf@, mv),
            pos <= buf@.len(),
            k < ms@.len() ==> pos <= mv[k as int].0,
            tok_idx <= tok_ids@.len(),
            lit_idx <= literals@.len(),
            match ac_unsplit_from(mv, tok_ids@, literals@, pats, 0, 0, 0, 0) {
                Some(d) => ac_unsplit_from(mv, tok_ids@, literals@, pats, k as int, pos as int, tok_idx as int, lit_idx as int)
                    matches Some(rest) && d == out@ + rest,
                None => ac_unsplit_from(mv, tok_ids@, literals@, pats, k as int, pos as int, tok_idx as int, lit_idx as int) is None,
            },
        decreases ms@.len() - k,
    {
        let (st, en, p) = ms[k];
        proof {
            assert(mv[k as int] == (st as int, en as int, p as int));
        }
        let lc = st - pos;
        if lc > literals.len() - lit_idx {
            proof {
                assert(ac_unsplit_from(mv, tok_ids@, literals@, pats, k as int, pos as int, tok_idx as int, lit_idx as int) is None);
            }
            return None;
        }
        let ghost li0 = lit_idx as int;
        let ghost ti0 = tok_idx as int;
        append_range(&mut out, literals, lit_idx, lit_idx + lc);
        lit_idx = lit_idx + lc;
        if p < 254 {
            if tok_idx >= tok_ids.len() {
                proof {
                    assert(ac_unsplit_from(mv, tok_ids@, literals@, pats, k as int, pos as int, ti0, li0) is None);
                }
                return None;
            }
            let id = tok_ids[tok_idx] as usize;
            tok_idx = tok_idx + 1;
            if id > 0 && id <= entries.len() {
                crate::bytes::append_bytes(&mut out, entries[id - 1].bytes.as_slice());
            }
        } else {
            let len = en - st;
            if len > literals.len() - lit_idx {
                proof {
                    assert(ac_unsplit_from(mv, tok_ids@, literals@, pats, k as int, pos as int, ti0, li0) is None);
                }
                return None;
            }
            proof {
                assert(literals@.subrange(lit_idx - lc, lit_idx + len) =~= literals@.subrange(lit_idx - lc, lit_idx as int)
                    + literals@.subrange(lit_idx as int, lit_idx + len));
            }
            append_range(&mut out, literals, lit_idx, lit_idx + len);
            lit_idx = lit_idx + len;
        }
        pos = en;
        k = k + 1;
        proof {
            if k < ms@.len() {
                assert(mv[k - 1].1 <= mv[k as int].0);
            }
        }
    }
    append_range(&mut out, literals, lit_idx, literals.len());
    Some(out)
}

/// Rebuild a buffer from its split streams, for streams long enough.
pub fn decode_ac_split(buf: &[u8], tok_ids: &[u8], literals: &[u8], ac: &AcIndex, entries: &[DictEntry]) -> (out: Vec<u8>)
    requires
        ac.wf(),
        ac_unsplit_from(ac_leftmost_longest(ac.patterns(), buf@), tok_ids@, literals@, entry_bytes(entries@), 0, 0, 0, 0) is Some,
    ensures
        ac_unsplit_from(ac_leftmost_longest(ac.patterns(), buf@), tok_ids@, literals@, entry_bytes(entries@), 0, 0, 0, 0)
            == Some(out@),
{
    match unsplit_streams(buf, tok_ids, literals, ac, entries) {
        Some(v) => v,
        None => Vec::new(),
    }
}

/// Rebuild a buffer from its split streams when they are long enough for
/// the matches the automaton finds in `buf`; `None` where they run short.
pub fn try_decode_ac_split(buf: &[u8], tok_ids: &[u8], literals: &[u8], ac: &AcIndex, entries: &[DictEntry]) -> (r: Option<Vec<u8>>)
    requires
        ac.wf(),
    ensures
        match ac_unsplit_from(ac_leftmost_longest(ac.patterns(), buf@), tok_ids@, literals@, entry_bytes(entries@), 0, 0, 0, 0) {
            Some(d) => r matches Some(v) && v@ == d,
            None => r is None,
        },
{
    match unsplit_streams(buf, tok_ids, literals, ac, entries) {
        Some(_) => Some(decode_ac_split(buf, tok_ids, literals, ac, entries)),
        None => None,
    }
}

/// The token encoding of `buf[pos..]` from match `k` on, with two-byte
/// tokens for ids 1-254 and `ESCAPE 0xFF (id - 255)` for larger ids.
pub open spec fn ac_full_from(buf: Seq<u8>, ms: Seq<(int, int, int)>, k: int, pos: int) -> Seq<u8>
    decreases ms.len() - k,
{
    if k < 0 || k >= ms.len() {
        escape_seq(buf.subrange(pos, buf.len() as int))
    } else {
        escape_seq(buf.subrange(pos, ms[k].0)) + ac_token(ms[k].2) + ac_full_from(buf, ms, k + 1, ms[k].1)
    }
}

/// The token for pattern `p`: id `p + 1` (modulo 2^16), in two bytes for
/// ids 1-254 and as `ESCAPE 0xFF (id - 255)` for larger ids.
pub open spec fn ac_token(p: int) -> Seq<u8> {
    let tok = ((p + 1) % 0x10000) as u16;
    if tok <= 254 {
        seq![ESCAPE, tok as u8]
    } else {
        seq![ESCAPE, 0xFFu8, ((tok - 255) % 256) as u8]
    }
}

fn push_ac_token(out: &mut Vec<u8>, p: usize)
    ensures
        final(out)@ == old(out)@ + ac_token(p as int),
{
    let q = p % 0x10000;
    let tok: u16 = if q == 0xFFFF { 0 } else { (q + 1) as u16 };
    proof {
        assert(tok as int == (p as int + 1) % 0x10000);
    }
    if tok <= 254 {
        out.push(ESCAPE);
        out.push(tok as u8);
    } else {
        out.push(ESCAPE);
        out.push(0xFF);
        out.push(((tok - 255) % 256) as u8);
    }
    assert(out@ =~= old(out)@ + ac_token(p as int));
}

/// Encode with an automaton built over all entries of at least four
/// bytes, largest saving first; when there are no entries, or the
/// automaton cannot be built, every byte is a literal.
pub fn encode_ac(buf: &[u8], entries: &[DictEntry]) -> (out: Vec<u8>)
    ensures
        entries@.len() == 0 ==> out@ == escape_seq(buf@),
        entries@.len() > 0 ==> exists|ranking: Seq<(Seq<u8>, nat, nat)>|
            #[trigger] crate::tokenizer::ranked(long_views(crate::tokenizer::dictionary::entry_views(entries@)), ranking,
                long_views(crate::tokenizer::dictionary::entry_views(entries@)).len())
            && (if ac_buildable(crate::tokenizer::views_bytes(ranking)) {
                out@ == ac_full_from(buf@, ac_leftmost_longest(crate::tokenizer::views_bytes(ranking), buf@), 0, 0)
            } else {
                out@ == escape_seq(buf@)
            }),
{
    if entries.len() == 0 {
        return escape_only(buf);
    }
    let long = long_entries(entries);
    let n = long.len();
    let sorted = crate::tokenizer::rank_by_saving(&long, n);
    let ghost lv = crate::tokenizer::dictionary::entry_views(long@);
    let ghost sv = crate::tokenizer::dictionary::entry_views(sorted@);
    proof {
        lemma_long_views(crate::tokenizer::dictionary::entry_views(entries@));
        let perm = choose|perm: Seq<int>| #[trigger] crate::tokenizer::ranked_by(lv, sv, n as nat, perm);
        assert forall|k: int| 0 <= k < sorted@.len() implies (#[trigger] sorted@[k]).bytes@.len() >= 4 by {
            assert(sv[k] == crate::tokenizer::dictionary::entry_view(sorted@[k]));
            assert(sv[k] == lv[perm[k]]);
        }
        crate::tokenizer::lemma_entry_bytes_views(sorted@);
        assert(crate::tokenizer::ranked(lv, sv, lv.len()));
    }
    let ac = match ac_over(&sorted) {
        Some(a) => a,
        None => {
            return escape_only(buf);
        },
    };
    let ms = ac_find(&ac, buf);
    let ghost mv = match_view(ms@);
    let mut out: Vec<u8> = Vec::new();
    let mut pos: usize = 0;
    let mut k: usize = 0;
    while k < ms.len()
        invariant
            k <= ms@.len(),
            mv == match_view(ms@),
            matches_ok(ac.patterns(), buf@, mv),
            pos <= buf@.len(),
            k < ms@.len() ==> pos <= mv[k as int].0,
            ac_full_from(buf@, mv, 0, 0) == out@ + ac_full_from(buf@, mv, k as int, pos as int),
        decreases ms@.len() - k,
    {
        let (st, en, p) = ms[k];
        proof {
            assert(mv[k as int] == (st as int, en as int, p as int));
        }
        append_escaped(&mut out, buf, pos, st);
        push_ac_token(&mut out, p);
        pos = en;
        k = k + 1;
        proof {
            if k < ms@.len() {
                assert(mv[k - 1].1 <= mv[k as int].0);
            }
        }
    }
    append_escaped(&mut out, buf, pos, buf.len());
    out
}

// ---------------------------------------------------------------------------
// Round trips through the automaton encodings
// ---------------------------------------------------------------------------

/// The entries stand for the patterns on every id a token can carry:
/// entry `p` has the bytes of pattern `p` for each pattern below 254.
pub open spec fn entries_agree(pats: Seq<Seq<u8>>, es: Seq<Seq<u8>>) -> bool {
    forall|p: int| 0 <= p < pats.len() && p < 254 ==> p < es.len() && #[trigger] es[p] == pats[p]
}

proof fn lemma_ac_with_decode(buf: Seq<u8>, pats: Seq<Seq<u8>>, ms: Seq<(int, int, int)>, es: Seq<Seq<u8>>, k: int, pos: int)
    requires
        matches_ok(pats, buf, ms),
        entries_agree(pats, es),
        0 <= k <= ms.len(),
        0 <= pos <= buf.len(),
        k < ms.len() ==> pos <= ms[k].0,
    ensures
        decode_spec(ac_with_from(buf, ms, k, pos), es) == buf.subrange(pos, buf.len() as int),
    decreases ms.len() - k,
{
    if k == ms.len() {
        lemma_decode_escape_seq(buf.subrange(pos, buf.len() as int), Seq::empty(), es);
        assert(escape_seq(buf.subrange(pos, buf.len() as int)) + Seq::<u8>::empty() =~= escape_seq(buf.subrange(pos, buf.len() as int)));
        assert(buf.subrange(pos, buf.len() as int) + Seq::<u8>::empty() =~= buf.subrange(pos, buf.len() as int));
    } else {
        let (st, en, p) = ms[k];
        if k + 1 < ms.len() {
            assert(ms[k].1 <= ms[k + 1].0);
        }
        lemma_ac_with_decode(buf, pats, ms, es, k + 1, en);
        let rest = ac_with_from(buf, ms, k + 1, en);
        let a = escape_seq(buf.subrange(pos, st));
        if p >= 254 {
            let b = escape_seq(buf.subrange(st, en));
            assert(ac_with_from(buf, ms, k, pos) =~= a + (b + rest));
            lemma_decode_escape_seq(buf.subrange(st, en), rest, es);
            lemma_decode_escape_seq(buf.subrange(pos, st), b + rest, es);
        } else {
            let t = seq![ESCAPE, (p + 1) as u8];
            assert(ac_with_from(buf, ms, k, pos) =~= a + (t + rest));
            lemma_decode_token((p + 1) as u8, rest, es);
            lemma_decode_escape_seq(buf.subrange(pos, st), t + rest, es);
            assert(es[p] == pats[p]);
            assert(token_piece((p + 1) as u8, es) == es[p]);
        }
        assert(buf.subrange(pos, st) + (buf.subrange(st, en) + buf.subrange(en, buf.len() as int)) =~= buf.subrange(pos, buf.len() as int));
    }
}

/// Codon decoding, with entries that agree with the patterns, undoes the
/// automaton encoding over any match list of a non-overlapping search.
pub proof fn lemma_encode_ac_with_roundtrip(buf: Seq<u8>, pats: Seq<Seq<u8>>, ms: Seq<(int, int, int)>, es: Seq<Seq<u8>>)
    requires
        matches_ok(pats, buf, ms),
        entries_agree(pats, es),
    ensures
        decode_spec(ac_with_from(buf, ms, 0, 0), es) == buf,
{
    lemma_ac_with_decode(buf, pats, ms, es, 0, 0);
    assert(buf.subrange(0, buf.len() as int) =~= buf);
}

proof fn lemma_ac_unsplit(
    buf: Seq<u8>,
    pats: Seq<Seq<u8>>,
    ms: Seq<(int, int, int)>,
    es: Seq<Seq<u8>>,
    k: int,
    pos: int,
    pt: Seq<u8>,
    pl: Seq<u8>,
)
    requires
        matches_ok(pats, buf, ms),
        entries_agree(pats, es),
        0 <= k <= ms.len(),
        0 <= pos <= buf.len(),
        k < ms.len() ==> pos <= ms[k].0,
    ensures
        ac_unsplit_from(ms, pt + ac_split_from(buf, ms, k, pos).0, pl + ac_split_from(buf, ms, k, pos).1, es, k, pos,
            pt.len() as int, pl.len() as int) == Some(buf.subrange(pos, buf.len() as int)),
    decreases ms.len() - k,
{
    let sp = ac_split_from(buf, ms, k, pos);
    let toks = pt + sp.0;
    let lits = pl + sp.1;
    if k == ms.len() {
        assert(lits.subrange(pl.len() as int, lits.len() as int) =~= buf.subrange(pos, buf.len() as int));
    } else {
        let (st, en, p) = ms[k];
        if k + 1 < ms.len() {
            assert(ms[k].1 <= ms[k + 1].0);
        }
        let rest = ac_split_from(buf, ms, k + 1, en);
        if p < 254 {
            let pt2 = pt + seq![(p + 1) as u8];
            let pl2 = pl + buf.subrange(pos, st);
            lemma_ac_unsplit(buf, pats, ms, es, k + 1, en, pt2, pl2);
            assert(pt2 + rest.0 =~= toks);
            assert(pl2 + rest.1 =~= lits);
            assert(toks[pt.len() as int] == (p + 1) as u8);
            assert(lits.subrange(pl.len() as int, pl.len() + (st - pos)) =~= buf.subrange(pos, st));
            assert(es[p] == pats[p]);
            assert(buf.subrange(pos, st) + buf.subrange(st, en) + buf.subrange(en, buf.len() as int) =~= buf.subrange(pos, buf.len() as int));
        } else {
            let pl2 = pl + buf.subrange(pos, en);
            lemma_ac_unsplit(buf, pats, ms, es, k + 1, en, pt, pl2);
            assert(pt + rest.0 =~= toks);
            assert(pl2 + rest.1 =~= lits);
            assert(lits.subrange(pl.len() as int, pl.len() + (st - pos) + (en - st)) =~= buf.subrange(pos, en));
            assert(buf.subrange(pos, en) + buf.subrange(en, buf.len() as int) =~= buf.subrange(pos, buf.len() as int));
        }
    }
}

/// Rebuilding from the split streams, with entries that agree with the
/// patterns, gives the buffer back, for any match list of a
/// non-overlapping search.
pub proof fn lemma_split_roundtrip(buf: Seq<u8>, pats: Seq<Seq<u8>>, ms: Seq<(int, int, int)>, es: Seq<Seq<u8>>)
    requires
        matches_ok(pats, buf, ms),
        entries_agree(pats, es),
    ensures
        ac_unsplit_from(ms, ac_split_from(buf, ms, 0, 0).0, ac_split_from(buf, ms, 0, 0).1, es, 0, 0, 0, 0) == Some(buf),
{
    let sp = ac_split_from(buf, ms, 0, 0);
    lemma_ac_unsplit(buf, pats, ms, es, 0, 0, Seq::empty(), Seq::empty());
    assert(Seq::<u8>::empty() + sp.0 =~= sp.0);
    assert(Seq::<u8>::empty() + sp.1 =~= sp.1);
    assert(buf.subrange(0, buf.len() as int) =~= buf);
}

/// Decoding records `r..nrec` of an interleaved pair stream and its
/// trailer with `li` literals consumed.
spec fn inter_suffix(pairs: Seq<u8>, lits: Seq<u8>, pats: Seq<Seq<u8>>, r: int, nrec: int, li: int) -> Option<Seq<u8>>
    decreases nrec - r,
{
    if r >= nrec {
        let tr = crate::bytes::le16_value(pairs.subrange(3 * nrec, 3 * nrec + 2)) as int;
        if li < 0 || li + tr > lits.len() { None } else { Some(lits.subrange(li, li + tr)) }
    } else {
        let lc = crate::bytes::le16_value(pairs.subrange(3 * r, 3 * r + 2)) as int;
        let tok = pairs[3 * r + 2] as int;
        if li < 0 || li + lc > lits.len() {
            None
        } else if 0 < tok <= pats.len() {
            match inter_suffix(pairs, lits, pats, r + 1, nrec, li + lc) {
                Some(rest) => Some(lits.subrange(li, li + lc) + pats[tok - 1] + rest),
                None => None,
            }
        } else {
            None
        }
    }
}

proof fn lemma_inter_prefix_li(pairs: Seq<u8>, lits: Seq<u8>, pats: Seq<Seq<u8>>, k: nat)
    requires
        interleaved_prefix(pairs, lits, pats, k) is Some,
    ensures
        0 <= interleaved_prefix(pairs, lits, pats, k).unwrap().1 <= lits.len(),
    decreases k,
{
    if k > 0 {
        lemma_inter_prefix_li(pairs, lits, pats, (k - 1) as nat);
    }
}

/// The whole decode is the first `k` records' output followed by the
/// suffix decode from record `k`.
proof fn lemma_inter_split(pairs: Seq<u8>, lits: Seq<u8>, pats: Seq<Seq<u8>>, nrec: nat, k: nat)
    requires
        pairs.len() == 3 * nrec + 2,
        k <= nrec,
        interleaved_prefix(pairs, lits, pats, k) is Some,
    ensures
        ({
            let (out, li) = interleaved_prefix(pairs, lits, pats, k).unwrap();
            interleaved_spec(pairs, lits, pats) == match inter_suffix(pairs, lits, pats, k as int, nrec as int, li) {
                Some(rest) => Some(out + rest),
                None => None,
            }
        }),
    decreases nrec - k,
{
    let (out, li) = interleaved_prefix(pairs, lits, pats, k).unwrap();
    lemma_inter_prefix_li(pairs, lits, pats, k);
    assert((pairs.len() - 2) / 3 == nrec);
    if k < nrec {
        let p: int = 3 * (k as int);
        let lc = crate::bytes::le16_value(pairs.subrange(p, p + 2)) as int;
        let tok = pairs[p + 2] as int;
        if li + lc > lits.len() || !(0 < tok <= pats.len()) {
            assert(interleaved_prefix(pairs, lits, pats, k + 1) is None);
            lemma_interleaved_fail(pairs, lits, pats, k + 1, nrec);
        } else {
            lemma_inter_split(pairs, lits, pats, nrec, k + 1);
            let out1 = out + lits.subrange(li, li + lc) + pats[tok - 1];
            assert(interleaved_prefix(pairs, lits, pats, k + 1) == Some((out1, li + lc)));
            match inter_suffix(pairs, lits, pats, (k + 1) as int, nrec as int, li + lc) {
                Some(rest) => {
                    assert(out1 + rest =~= out + (lits.subrange(li, li + lc) + pats[tok - 1] + rest));
                },
                None => {},
            }
        }
    } else {
        let tr = crate::bytes::le16_value(pairs.subrange(3 * (nrec as int), 3 * (nrec as int) + 2)) as int;
        if li + tr <= lits.len() {
            assert(out + lits.subrange(li, li + tr) == out + lits.subrange(li, li + tr));
        }
    }
}

/// The interleaved encoding of `buf[pos..]` from match `k` on decodes back,
/// whatever records and literals come before it.
proof fn lemma_inter_decode(
    buf: Seq<u8>,
    pats: Seq<Seq<u8>>,
    ms: Seq<(int, int, int)>,
    es: Seq<Seq<u8>>,
    k: int,
    pos: int,
    xp: Seq<u8>,
    yl: Seq<u8>,
)
    requires
        matches_ok(pats, buf, ms),
        pats.len() <= 254,
        buf.len() < 0x10000,
        entries_agree(pats, es),
        0 <= k <= ms.len(),
        0 <= pos <= buf.len(),
        k < ms.len() ==> pos <= ms[k].0,
        xp.len() == 3 * k,
    ensures
        ({
            let e = ac_inter_from(buf, ms, k, pos);
            &&& e.0.len() == 3 * (ms.len() - k) + 2
            &&& inter_suffix(xp + e.0, yl + e.1, es, k, ms.len() as int, yl.len() as int) == Some(buf.subrange(pos, buf.len() as int))
        }),
    decreases ms.len() - k,
{
    let e = ac_inter_from(buf, ms, k, pos);
    let n = ms.len() as int;
    if k == n {
        let v = (buf.len() - pos) as u16;
        crate::bytes::lemma_le16_roundtrip(v);
        let pairs = xp + e.0;
        assert(pairs.subrange(3 * n, 3 * n + 2) =~= crate::bytes::le16_bytes(v));
        let lits = yl + e.1;
        assert(lits.subrange(yl.len() as int, yl.len() + (buf.len() - pos)) =~= buf.subrange(pos, buf.len() as int));
    } else {
        let (st, en, p) = ms[k];
        if k + 1 < n {
            assert(ms[k].1 <= ms[k + 1].0);
        }
        assert(p < 254);
        let v = (st - pos) as u16;
        crate::bytes::lemma_le16_roundtrip(v);
        let rec = crate::bytes::le16_bytes(v) + seq![(p + 1) as u8];
        let gap = buf.subrange(pos, st);
        let xp1 = xp + rec;
        let yl1 = yl + gap;
        lemma_inter_decode(buf, pats, ms, es, k + 1, en, xp1, yl1);
        let rest = ac_inter_from(buf, ms, k + 1, en);
        assert(e.0 == rec + rest.0);
        assert(e.1 == gap + rest.1);
        let pairs = xp + e.0;
        let lits = yl + e.1;
        assert(pairs =~= xp1 + rest.0);
        assert(lits =~= yl1 + rest.1);
        assert(pairs.subrange(3 * k, 3 * k + 2) =~= crate::bytes::le16_bytes(v));
        assert(pairs[3 * k + 2] == (p + 1) as u8);
        assert(lits.subrange(yl.len() as int, yl.len() + (st - pos)) =~= gap);
        assert(es[p] == pats[p]);
        assert(buf.subrange(st, en) == pats[p]);
        let tail = buf.subrange(en, buf.len() as int);
        assert(gap + pats[p] + tail =~= buf.subrange(pos, buf.len() as int));
    }
}

/// Decoding the interleaved pair and literal streams of a buffer with
/// entries that agree with the automaton's patterns gives the buffer back,
/// for at most 254 patterns (each match a token) and buffers shorter than
/// 65536 bytes (each literal count fits its 16 bits).
pub proof fn lemma_interleaved_roundtrip(buf: Seq<u8>, pats: Seq<Seq<u8>>, ms: Seq<(int, int, int)>, es: Seq<Seq<u8>>)
    requires
        matches_ok(pats, buf, ms),
        pats.len() <= 254,
        buf.len() < 0x10000,
        entries_agree(pats, es),
    ensures
        interleaved_spec(ac_inter_from(buf, ms, 0, 0).0, ac_inter_from(buf, ms, 0, 0).1, es) == Some(buf),
{
    let e = ac_inter_from(buf, ms, 0, 0);
    if ms.len() > 0 {
        assert(0 <= ms[0].0);
    }
    lemma_inter_decode(buf, pats, ms, es, 0, 0, Seq::empty(), Seq::empty());
    assert(Seq::<u8>::empty() + e.0 =~= e.0);
    assert(Seq::<u8>::empty() + e.1 =~= e.1);
    assert(interleaved_prefix(e.0, e.1, es, 0) == Some((Seq::<u8>::empty(), 0int)));
    lemma_inter_split(e.0, e.1, es, ms.len(), 0);
    let r = inter_suffix(e.0, e.1, es, 0, ms.len() as int, 0);
    assert(r == Some(buf.subrange(0, buf.len() as int)));
    assert(Seq::<u8>::empty() + buf.subrange(0, buf.len() as int) =~= buf);
}

/// With no entries, encoding writes every byte as a literal.
pub proof fn lemma_encode_no_entries(buf: Seq<u8>)
    ensures
        encode_spec(buf, Seq::<Seq<u8>>::empty()) == escape_seq(buf),
{
    let pats = Seq::<Seq<u8>>::empty();
    assert forall|k: int| 0 <= k < buf.len() implies match_at(buf, pats, k) is None by {
        if exists|j: int| chosen(buf, pats, k, j) {
            let j = choose|j: int| chosen(buf, pats, k, j);
            assert(pattern_ok(pats, j));
        }
    }
    lemma_encode_literal_run(buf, pats, 0, buf.len() as int);
    assert(buf.subrange(0, buf.len() as int) =~= buf);
}

} // verus!
