//! Greedy vocabulary tokenizer over a prefix hash index.
//!
//! A single left-to-right scan: at each position the prefix key of the
//! next bytes selects a chain of vocabulary patterns, and the longest one
//! that occurs there is substituted. The token byte format is
//!   `ESCAPE 0x00`        a literal ESCAPE byte,
//!   `ESCAPE id`          vocabulary entry `id` (1..=254),
//!   `ESCAPE 0xFF lo hi`  vocabulary entry `id`, a u16 in little endian,
//! and every other byte stands for itself. Every writer, the byte-level
//! scans and `tokens_to_gn_bytes` alike, writes ids above 254 in the u16
//! form the decoder reads.

use vstd::prelude::*;
use vstd::slice::slice_to_vec;
use crate::tokenizer::dictionary::{DictEntry, entry_bytes};
use crate::tokenizer::codon::occurs_at;
use crate::pipeline::inflate_spec;

verus! {

pub const ESCAPE: u8 = 0x01;
pub const MIN_MATCH: usize = 4;
pub const MAX_MATCH: usize = 128;

#[derive(Debug, Clone, Copy, PartialEq, Eq, Structural)]
pub enum Token {
    Literal(u8),
    DictU8 { id: u8, len: u8 },
    DictU16 { id: u16, len: u8 },
}

// ---------------------------------------------------------------------------
// Token serialisation
// ---------------------------------------------------------------------------

/// The bytes one token is written as.
pub open spec fn token_bytes(t: Token) -> Seq<u8> {
    match t {
        Token::Literal(b) => if b == ESCAPE { seq![ESCAPE, 0x00u8] } else { seq![b] },
        Token::DictU8 { id, .. } => seq![ESCAPE, id],
        Token::DictU16 { id, .. } => seq![ESCAPE, 0xFFu8] + crate::bytes::le16_bytes(id),
    }
}

/// The bytes a token stream is written as, token after token.
pub open spec fn tokens_bytes(ts: Seq<Token>) -> Seq<u8>
    decreases ts.len(),
{
    if ts.len() == 0 {
        Seq::empty()
    } else {
        tokens_bytes(ts.drop_last()) + token_bytes(ts.last())
    }
}

/// Write a token stream as bytes.
pub fn tokens_to_gn_bytes(tokens: &[Token]) -> (out: Vec<u8>)
    ensures
        out@ == tokens_bytes(tokens@),
{
    let mut out: Vec<u8> = Vec::new();
    let mut k: usize = 0;
    while k < tokens.len()
        invariant
            k <= tokens@.len(),
            out@ == tokens_bytes(tokens@.take(k as int)),
        decreases tokens@.len() - k,
    {
        let t = tokens[k];
        match t {
            Token::Literal(b) => {
                if b == ESCAPE {
                    out.push(ESCAPE);
                    out.push(0x00);
                } else {
                    out.push(b);
                }
            },
            Token::DictU8 { id, .. } => {
                out.push(ESCAPE);
                out.push(id);
            },
            Token::DictU16 { id, .. } => {
                out.push(ESCAPE);
                out.push(0xFF);
                crate::bytes::push_le16(&mut out, id);
            },
        }
        proof {
            assert(tokens@.take(k + 1).drop_last() =~= tokens@.take(k as int));
            assert(tokens@.take(k + 1).last() == t);
        }
        k = k + 1;
    }
    proof {
        assert(tokens@.take(tokens@.len() as int) =~= tokens@);
    }
    out
}

// ---------------------------------------------------------------------------
// Stored deflate blocks
// ---------------------------------------------------------------------------

/// Stored (uncompressed) deflate blocks carrying `data[off..]`: blocks of
/// at most 65535 bytes, each a BFINAL byte, LEN and NLEN in little endian,
/// then the bytes; the last block has BFINAL set.
pub open spec fn stored_from(data: Seq<u8>, off: int) -> Seq<u8>
    decreases data.len() - off,
{
    if off < 0 || off >= data.len() {
        Seq::empty()
    } else {
        let c = if data.len() - off < 65535 { data.len() - off } else { 65535 };
        seq![if off + c == data.len() { 0x01u8 } else { 0x00u8 }]
            + crate::bytes::le16_bytes(c as u16)
            + crate::bytes::le16_bytes((0xFFFF - c) as u16)
            + data.subrange(off, off + c)
            + stored_from(data, off + c)
    }
}

/// Wrap `data` in stored deflate blocks.
pub fn deflate_stored_blocks(data: &[u8]) -> (out: Vec<u8>)
    ensures
        out@ == stored_from(data@, 0),
{
    let mut out: Vec<u8> = Vec::new();
    let mut offset: usize = 0;
    while offset < data.len()
        invariant
            offset <= data@.len(),
            stored_from(data@, 0) == out@ + stored_from(data@, offset as int),
        decreases data@.len() - offset,
    {
        let remaining = data.len() - offset;
        let chunk_len = if remaining < 65535 { remaining } else { 65535 };
        let final_block = offset + chunk_len == data.len();
        out.push(if final_block { 0x01 } else { 0x00 });
        let len = chunk_len as u16;
        crate::bytes::push_le16(&mut out, len);
        crate::bytes::push_le16(&mut out, 0xFFFF - len);
        let ghost before = out@;
        let mut t: usize = offset;
        let end = offset + chunk_len;
        while t < end
            invariant
                end == offset + chunk_len,
                offset <= t <= end <= data@.len(),
                out@ == before + data@.subrange(offset as int, t as int),
            decreases end - t,
        {
            out.push(data[t]);
            proof {
                assert(data@.subrange(offset as int, t + 1) =~= data@.subrange(offset as int, t as int).push(data@[t as int]));
            }
            t = t + 1;
        }
        proof {
            assert(stored_from(data@, offset as int) == seq![if final_block { 0x01u8 } else { 0x00u8 }]
                + crate::bytes::le16_bytes(len) + crate::bytes::le16_bytes((0xFFFF - len) as u16)
                + data@.subrange(offset as int, offset + chunk_len) + stored_from(data@, offset + chunk_len));
        }
        offset = offset + chunk_len;
    }
    proof {
        assert(out@ + Seq::<u8>::empty() =~= out@);
    }
    out
}

// ---------------------------------------------------------------------------
// Decoding
// ---------------------------------------------------------------------------

/// The bytes of vocabulary entry `id` (ids count from 1); nothing for an
/// id outside the vocabulary.
pub open spec fn vocab_piece(pats: Seq<Seq<u8>>, id: int) -> Seq<u8> {
    if 0 < id <= pats.len() {
        pats[id - 1]
    } else {
        Seq::empty()
    }
}

/// Decoding of `enc[i..]`. A trailing ESCAPE, or an extended token cut
/// short, ends the output.
/// An extended token `ESCAPE 0xFF lo hi` names entry `lo + 256 * hi`.
pub open spec fn gn_decode_from(enc: Seq<u8>, pats: Seq<Seq<u8>>, i: int) -> Seq<u8>
    decreases enc.len() - i,
{
    if i < 0 || i >= enc.len() {
        Seq::empty()
    } else if enc[i] != ESCAPE {
        seq![enc[i]] + gn_decode_from(enc, pats, i + 1)
    } else if i + 1 >= enc.len() {
        Seq::empty()
    } else if enc[i + 1] == 0x00 {
        seq![ESCAPE] + gn_decode_from(enc, pats, i + 2)
    } else if enc[i + 1] == 0xFF {
        if i + 3 >= enc.len() {
            Seq::empty()
        } else {
            vocab_piece(pats, enc[i + 2] + 256 * enc[i + 3]) + gn_decode_from(enc, pats, i + 4)
        }
    } else {
        vocab_piece(pats, enc[i + 1] as int) + gn_decode_from(enc, pats, i + 2)
    }
}

fn append_entry(out: &mut Vec<u8>, entries: &[DictEntry], id: usize)
    ensures
        final(out)@ == old(out)@ + vocab_piece(entry_bytes(entries@), id as int),
{
    if id > 0 && id <= entries.len() {
        crate::bytes::append_bytes(out, entries[id - 1].bytes.as_slice());
    }
}

/// Decode token bytes back to the bytes they stand for.
pub fn decode_gn_bytes(encoded: &[u8], entries: &[DictEntry]) -> (out: Vec<u8>)
    ensures
        out@ == gn_decode_from(encoded@, entry_bytes(entries@), 0),
{
    let ghost pats = entry_bytes(entries@);
    let mut out: Vec<u8> = Vec::new();
    let mut i: usize = 0;
    while i < encoded.len()
        invariant
            i <= encoded@.len(),
            pats == entry_bytes(entries@),
            gn_decode_from(encoded@, pats, 0) == out@ + gn_decode_from(encoded@, pats, i as int),
        ensures
            gn_decode_from(encoded@, pats, i as int) == Seq::<u8>::empty(),
        decreases encoded@.len() - i,
    {
        if encoded[i] != ESCAPE {
            out.push(encoded[i]);
            i = i + 1;
            continue;
        }
        if i + 1 >= encoded.len() {
            break;
        }
        let next = encoded[i + 1];
        if next == 0x00 {
            out.push(ESCAPE);
            i = i + 2;
        } else if next == 0xFF {
            if encoded.len() - i <= 3 {
                break;
            }
            let id = (encoded[i + 2] as usize) + 256 * (encoded[i + 3] as usize);
            append_entry(&mut out, entries, id);
            i = i + 4;
        } else {
            append_entry(&mut out, entries, next as usize);
            i = i + 2;
        }
    }
    proof {
        assert(out@ + Seq::<u8>::empty() =~= out@);
    }
    out
}

/// The bytes a token stands for under the vocabulary `pats`.
pub open spec fn token_text(t: Token, pats: Seq<Seq<u8>>) -> Seq<u8> {
    match t {
        Token::Literal(b) => seq![b],
        Token::DictU8 { id, .. } => vocab_piece(pats, id as int),
        Token::DictU16 { id, .. } => vocab_piece(pats, id as int),
    }
}

/// The bytes a token stream stands for, token after token.
pub open spec fn tokens_text(ts: Seq<Token>, pats: Seq<Seq<u8>>) -> Seq<u8>
    decreases ts.len(),
{
    if ts.len() == 0 {
        Seq::empty()
    } else {
        tokens_text(ts.drop_last(), pats) + token_text(ts.last(), pats)
    }
}

/// A token whose bytes read back as it: a one-byte id is neither the
/// reserved 0 (a literal ESCAPE) nor 0xFF (the extended-token marker).
pub open spec fn token_readable(t: Token) -> bool {
    match t {
        Token::DictU8 { id, .. } => 1 <= id <= 254,
        _ => true,
    }
}

proof fn lemma_tokens_front(ts: Seq<Token>, pats: Seq<Seq<u8>>)
    requires
        ts.len() > 0,
    ensures
        tokens_bytes(ts) == token_bytes(ts[0]) + tokens_bytes(ts.drop_first()),
        tokens_text(ts, pats) == token_text(ts[0], pats) + tokens_text(ts.drop_first(), pats),
    decreases ts.len(),
{
    if ts.len() == 1 {
        assert(ts.drop_last() =~= Seq::<Token>::empty());
        assert(ts.drop_first() =~= Seq::<Token>::empty());
        assert(tokens_bytes(ts) =~= token_bytes(ts[0]) + tokens_bytes(ts.drop_first()));
        assert(tokens_text(ts, pats) =~= token_text(ts[0], pats) + tokens_text(ts.drop_first(), pats));
    } else {
        lemma_tokens_front(ts.drop_last(), pats);
        assert(ts.drop_last().drop_first() =~= ts.drop_first().drop_last());
        assert(ts.drop_last()[0] == ts[0]);
        assert(ts.drop_first().last() == ts.last());
        assert(tokens_bytes(ts) =~= token_bytes(ts[0]) + tokens_bytes(ts.drop_first()));
        assert(tokens_text(ts, pats) =~= token_text(ts[0], pats) + tokens_text(ts.drop_first(), pats));
    }
}

proof fn lemma_token_decode(t: Token, r: Seq<u8>, pats: Seq<Seq<u8>>)
    requires
        token_readable(t),
    ensures
        gn_decode_from(token_bytes(t) + r, pats, 0) == token_text(t, pats) + gn_decode_from(r, pats, 0),
{
    let a = token_bytes(t);
    let e = a + r;
    lemma_gn_decode_shift(a, r, pats, 0);
    assert(e[0] == a[0]);
    if a.len() >= 2 {
        assert(e[1] == a[1]);
    }
    match t {
        Token::Literal(b) => {},
        Token::DictU8 { id, .. } => {},
        Token::DictU16 { id, .. } => {
            assert(e[2] == a[2] && e[3] == a[3]);
            assert((id as u8) as int + 256 * ((id >> 8u16) as u8) as int == id as int) by (bit_vector);
        },
    }
}

/// Decoding the bytes of a token stream gives the bytes its tokens stand
/// for, when every one-byte id is in 1..=254.
pub proof fn lemma_tokens_roundtrip(ts: Seq<Token>, pats: Seq<Seq<u8>>)
    requires
        forall|k: int| 0 <= k < ts.len() ==> token_readable(#[trigger] ts[k]),
    ensures
        gn_decode_from(tokens_bytes(ts), pats, 0) == tokens_text(ts, pats),
    decreases ts.len(),
{
    if ts.len() == 0 {
        assert(tokens_bytes(ts) =~= Seq::<u8>::empty());
    } else {
        lemma_tokens_front(ts, pats);
        assert forall|k: int| 0 <= k < ts.drop_first().len() implies token_readable(#[trigger] ts.drop_first()[k]) by {
            assert(ts.drop_first()[k] == ts[k + 1]);
        }
        lemma_tokens_roundtrip(ts.drop_first(), pats);
        assert(token_readable(ts[0]));
        lemma_token_decode(ts[0], tokens_bytes(ts.drop_first()), pats);
    }
}

// ---------------------------------------------------------------------------
// Vocabulary matching
// ---------------------------------------------------------------------------

/// The hash key of a pattern: its first three bytes when the index works
/// on 3-byte prefixes, its first four bytes otherwise, little endian.
pub open spec fn pat_key(prefix: usize, b: Seq<u8>) -> u32 {
    if prefix == 3 {
        ((b[0] as u32) | ((b[1] as u32) << 8u32) | ((b[2] as u32) << 16u32)) as u32
    } else {
        crate::bytes::le32_value(b)
    }
}

/// The hash key of the bytes at `buf[i..]`.
pub open spec fn key_at(prefix: usize, buf: Seq<u8>, i: int) -> u32 {
    pat_key(prefix, buf.subrange(i, i + 4))
}

/// Entry `j` is indexed: between MIN_MATCH and MAX_MATCH bytes long and
/// no shorter than the prefix.
pub open spec fn indexed(prefix: usize, pats: Seq<Seq<u8>>, j: int) -> bool {
    &&& 0 <= j < pats.len()
    &&& MIN_MATCH <= pats[j].len() <= MAX_MATCH
    &&& pats[j].len() >= prefix
}

/// The vocabulary id of entry `j`: its index plus one, as a `u16`.
pub open spec fn vocab_id(j: int) -> u16 {
    ((j + 1) % 0x10000) as u16
}

/// Entry `j` has key `key` and occurs at `buf[i..]`.
pub open spec fn vocab_candidate(prefix: usize, pats: Seq<Seq<u8>>, buf: Seq<u8>, i: int, key: u32, j: int) -> bool {
    &&& indexed(prefix, pats, j)
    &&& pat_key(prefix, pats[j]) == key
    &&& occurs_at(buf, pats[j], i)
}

/// Entry `j` is the longest candidate, the last entry among equally long ones.
pub open spec fn vocab_chosen(prefix: usize, pats: Seq<Seq<u8>>, buf: Seq<u8>, i: int, key: u32, j: int) -> bool {
    &&& vocab_candidate(prefix, pats, buf, i, key, j)
    &&& forall|k: int| #[trigger] vocab_candidate(prefix, pats, buf, i, key, k)
        ==> pats[k].len() < pats[j].len() || (pats[k].len() == pats[j].len() && k <= j)
}

/// The id and length of the vocabulary match for `key` at `buf[i..]`.
pub open spec fn vocab_match(prefix: usize, pats: Seq<Seq<u8>>, buf: Seq<u8>, i: int, key: u32) -> Option<(u16, nat)> {
    if exists|j: int| vocab_chosen(prefix, pats, buf, i, key, j) {
        let j = choose|j: int| vocab_chosen(prefix, pats, buf, i, key, j);
        Some((vocab_id(j), pats[j].len()))
    } else {
        None
    }
}

/// A vocabulary match is MIN_MATCH to MAX_MATCH bytes long and within the buffer.
pub proof fn lemma_vocab_match_len(prefix: usize, pats: Seq<Seq<u8>>, buf: Seq<u8>, i: int, key: u32)
    ensures
        vocab_match(prefix, pats, buf, i, key) matches Some((id, l)) ==> MIN_MATCH <= l <= MAX_MATCH && 0 <= i
            && i + l <= buf.len(),
{
    if vocab_match(prefix, pats, buf, i, key) is Some {
        let j = choose|j: int| vocab_chosen(prefix, pats, buf, i, key, j);
        assert(vocab_chosen(prefix, pats, buf, i, key, j));
    }
}

/// Patterns are kept in ascending length; equally long ones in entry order.
pub open spec fn pattern_after(pats: Seq<Seq<u8>>, a: int, b: int) -> bool {
    pats[a].len() < pats[b].len() || (pats[a].len() == pats[b].len() && a < b)
}

/// `order` lists every indexed entry exactly once, shortest first.
pub open spec fn order_asc(prefix: usize, pats: Seq<Seq<u8>>, order: Seq<int>) -> bool {
    &&& forall|p: int| 0 <= p < order.len() ==> indexed(prefix, pats, #[trigger] order[p])
    &&& forall|a: int, b: int| 0 <= a < b < order.len() ==> pattern_after(pats, #[trigger] order[a], #[trigger] order[b])
    &&& forall|j: int| indexed(prefix, pats, j) ==> exists|p: int| 0 <= p < order.len() && #[trigger] order[p] == j
}

/// Indexed entries, shortest first (equally long ones in entry order).
fn ascending_pattern_order(entries: &[DictEntry], prefix: usize) -> (order: Vec<usize>)
    ensures
        order_asc(prefix, entry_bytes(entries@), order@.map_values(|x: usize| x as int)),
{
    let ghost pats = entry_bytes(entries@);
    let mut order: Vec<usize> = Vec::new();
    let mut j: usize = 0;
    while j < entries.len()
        invariant
            j <= entries@.len(),
            pats == entry_bytes(entries@),
            forall|p: int| 0 <= p < order@.len() ==> indexed(prefix, pats, #[trigger] order@[p] as int) && order@[p] < j,
            forall|a: int, b: int| 0 <= a < b < order@.len() ==> pattern_after(pats, #[trigger] order@[a] as int, #[trigger] order@[b] as int),
            forall|jj: int| 0 <= jj < j && indexed(prefix, pats, jj) ==> exists|p: int| 0 <= p < order@.len() && #[trigger] order@[p] as int == jj,
        decreases entries@.len() - j,
    {
        let len = entries[j].bytes.len();
        if len >= MIN_MATCH && len <= MAX_MATCH && len >= prefix {
            // insert after every pattern no longer than this one
            let mut pos: usize = 0;
            while pos < order.len() && entries[order[pos]].bytes.len() <= len
                invariant
                    pos <= order@.len(),
                    j < entries@.len(),
                    len == pats[j as int].len(),
                    pats == entry_bytes(entries@),
                    forall|p: int| 0 <= p < order@.len() ==> indexed(prefix, pats, #[trigger] order@[p] as int) && order@[p] < j,
                    forall|p: int| 0 <= p < pos ==> pats[#[trigger] order@[p] as int].len() <= len,
                decreases order@.len() - pos,
            {
                pos = pos + 1;
            }
            let ghost old_order = order@;
            proof {
                assert(indexed(prefix, pats, j as int));
                assert forall|a: int, b: int| pos <= a < b < old_order.len() implies pats[old_order[a] as int].len() <= pats[old_order[b] as int].len() by {
                    assert(pattern_after(pats, old_order[a] as int, old_order[b] as int));
                }
            }
            order.insert(pos, j);
            proof {
                assert forall|a: int, b: int| 0 <= a < b < order@.len() implies pattern_after(pats, #[trigger] order@[a] as int, #[trigger] order@[b] as int) by {
                    if a < pos && b < pos {
                        assert(order@[a] == old_order[a] && order@[b] == old_order[b]);
                    } else if a < pos && b == pos {
                        assert(pats[old_order[a] as int].len() <= len);
                    } else if a < pos {
                        assert(order@[a] == old_order[a] && order@[b] == old_order[b - 1]);
                    } else if a == pos {
                        assert(order@[b] == old_order[b - 1]);
                        if pos < old_order.len() {
                            assert(pats[old_order[pos as int] as int].len() > len);
                            assert(pats[old_order[pos as int] as int].len() <= pats[old_order[b - 1] as int].len());
                        }
                    } else {
                        assert(order@[a] == old_order[a - 1] && order@[b] == old_order[b - 1]);
                    }
                }
                assert forall|jj: int| 0 <= jj < j + 1 && indexed(prefix, pats, jj) implies exists|p: int| 0 <= p < order@.len() && #[trigger] order@[p] as int == jj by {
                    if jj == j {
                        assert(order@[pos as int] as int == jj);
                    } else {
                        let p = choose|p: int| 0 <= p < old_order.len() && #[trigger] old_order[p] as int == jj;
                        if p < pos {
                            assert(order@[p] as int == jj);
                        } else {
                            assert(order@[p + 1] as int == jj);
                        }
                    }
                }
            }
        } else {
            proof {
                assert(!indexed(prefix, pats, j as int));
            }
        }
        j = j + 1;
    }
    proof {
        let o = order@.map_values(|x: usize| x as int);
        assert forall|j: int| indexed(prefix, pats, j) implies exists|p: int| 0 <= p < o.len() && #[trigger] o[p] == j by {
            let p = choose|p: int| 0 <= p < order@.len() && #[trigger] order@[p] as int == j;
            assert(o[p] == j);
        }
    }
    order
}

/// A list of distinct entry indices below `pats.len()` is no longer than `pats`.
proof fn lemma_order_asc_len(prefix: usize, pats: Seq<Seq<u8>>, ord: Seq<int>)
    requires
        order_asc(prefix, pats, ord),
    ensures
        ord.len() <= pats.len(),
{
    let s = ord.to_set();
    assert forall|a: int, b: int| 0 <= a < b < ord.len() implies ord[a] != ord[b] by {
        assert(pattern_after(pats, ord[a], ord[b]));
    }
    ord.unique_seq_to_set();
    assert(s.subset_of(vstd::set_lib::set_int_range(0, pats.len() as int))) by {
        assert forall|x: int| s.contains(x) implies vstd::set_lib::set_int_range(0, pats.len() as int).contains(x) by {
            let p = choose|p: int| 0 <= p < ord.len() && ord[p] == x;
            assert(indexed(prefix, pats, ord[p]));
        }
    }
    vstd::set_lib::lemma_int_range(0, pats.len() as int);
    vstd::set_lib::lemma_len_subset(s, vstd::set_lib::set_int_range(0, pats.len() as int));
}

/// The hash key of a pattern of at least four bytes.
fn prefix_key(b: &[u8], prefix: usize) -> (r: u32)
    requires
        b@.len() >= 4,
    ensures
        r == pat_key(prefix, b@),
{
    if prefix == 3 {
        (b[0] as u32) | ((b[1] as u32) << 8) | ((b[2] as u32) << 16)
    } else {
        let r = crate::bytes::read_le32(b, 0);
        proof {
            assert(b@.subrange(0, 4)[0] == b@[0] && b@.subrange(0, 4)[1] == b@[1]);
            assert(b@.subrange(0, 4)[2] == b@[2] && b@.subrange(0, 4)[3] == b@[3]);
        }
        r
    }
}

/// The hash key of the bytes at `buf[i..]`.
fn prefix_key_at(buf: &[u8], i: usize, prefix: usize) -> (r: u32)
    requires
        i + 4 <= buf@.len(),
    ensures
        r == key_at(prefix, buf@, i as int),
{
    if prefix == 3 {
        proof {
            assert(buf@.subrange(i as int, i + 4)[0] == buf@[i as int]);
            assert(buf@.subrange(i as int, i + 4)[1] == buf@[i + 1]);
            assert(buf@.subrange(i as int, i + 4)[2] == buf@[i + 2]);
        }
        (buf[i] as u32) | ((buf[i + 1] as u32) << 8) | ((buf[i + 2] as u32) << 16)
    } else {
        crate::bytes::read_le32(buf, i)
    }
}

#[derive(Debug)]
struct PatternRec {
    key: u32,
    id: u16,
    bytes: Vec<u8>,
    next: i32,
}

/// Prefix hash index over vocabulary entries: every indexed entry is a
/// pattern record, shortest first, and records sharing a key are chained
/// from the slot table through `next`, longest first.
pub struct PrefixIndex<const PREFIX: usize> {
    mask: usize,
    keys: Vec<u32>,
    heads: Vec<i32>,
    used: Vec<u8>,
    patterns: Vec<PatternRec>,
    pats: Ghost<Seq<Seq<u8>>>,
    order: Ghost<Seq<int>>,
}

/// The keys of the pattern records.
spec fn record_keys(recs: Seq<PatternRec>) -> Seq<u32> {
    recs.map_values(|r: PatternRec| r.key)
}

/// Record `q` holds entry `ord[q]`: its bytes, id, key, and the link to
/// the previous record with the same key.
spec fn record_ok(prefix: usize, pats: Seq<Seq<u8>>, ord: Seq<int>, recs: Seq<PatternRec>, q: int) -> bool {
    &&& recs[q].bytes@ == pats[ord[q]]
    &&& recs[q].id == vocab_id(ord[q])
    &&& recs[q].key == pat_key(prefix, recs[q].bytes@)
    &&& crate::tokenizer::slots::last_with_key(record_keys(recs).subrange(0, q), recs[q].key, recs[q].next as int)
}

spec fn records_ok(prefix: usize, pats: Seq<Seq<u8>>, ord: Seq<int>, recs: Seq<PatternRec>) -> bool {
    forall|q: int| 0 <= q < recs.len() ==> #[trigger] record_ok(prefix, pats, ord, recs, q)
}

proof fn lemma_records_push(prefix: usize, pats: Seq<Seq<u8>>, ord: Seq<int>, recs: Seq<PatternRec>, r: PatternRec)
    requires
        records_ok(prefix, pats, ord, recs),
        record_ok(prefix, pats, ord, recs.push(r), recs.len() as int),
    ensures
        records_ok(prefix, pats, ord, recs.push(r)),
{
    let recs2 = recs.push(r);
    assert forall|q: int| 0 <= q < recs2.len() implies #[trigger] record_ok(prefix, pats, ord, recs2, q) by {
        if q < recs.len() {
            assert(record_ok(prefix, pats, ord, recs, q));
            assert(recs2[q] == recs[q]);
            assert(record_keys(recs2).subrange(0, q) =~= record_keys(recs).subrange(0, q));
        }
    }
}

impl<const PREFIX: usize> PrefixIndex<PREFIX> {
    /// The entries (as byte strings) the index was built from.
    pub closed spec fn entries_view(&self) -> Seq<Seq<u8>> {
        self.pats@
    }

    /// The keys of the pattern records, in insertion order.
    pub closed spec fn chain_keys(&self) -> Seq<u32> {
        record_keys(self.patterns@)
    }

    pub closed spec fn wf(&self) -> bool {
        let pats = self.pats@;
        let order = self.order@;
        let recs = self.patterns@;
        &&& order_asc(PREFIX, pats, order)
        &&& recs.len() == order.len()
        &&& records_ok(PREFIX, pats, order, recs)
        &&& self.keys@.len() == 0 ==> recs.len() == 0
        &&& self.keys@.len() != 0 ==> crate::tokenizer::slots::table_wf(self.mask, self.keys@, self.heads@, self.used@, record_keys(recs))
    }

    /// An index over no entries.
    pub fn new() -> (idx: Self)
        ensures
            idx.wf(),
            idx.entries_view() == Seq::<Seq<u8>>::empty(),
    {
        PrefixIndex {
            mask: 0,
            keys: Vec::new(),
            heads: Vec::new(),
            used: Vec::new(),
            patterns: Vec::new(),
            pats: Ghost(Seq::empty()),
            order: Ghost(Seq::empty()),
        }
    }

    /// Build the index over the indexed entries of `entries`.
    pub fn build(entries: &[DictEntry]) -> (idx: Self)
        requires
            entries@.len() <= 0x2000_0000,
        ensures
            idx.wf(),
            idx.entries_view() == entry_bytes(entries@),
    {
        let ghost pats = entry_bytes(entries@);
        let order = ascending_pattern_order(entries, PREFIX);
        let ghost ord = order@.map_values(|x: usize| x as int);
        proof {
            lemma_order_asc_len(PREFIX, pats, ord);
        }
        let n = if order.len() > 0 { order.len() } else { 1 };
        let mut cap: usize = 1024;
        let ghost mut k: nat = 10;
        proof {
            vstd::arithmetic::power2::lemma2_to64();
            vstd::arithmetic::power2::lemma2_to64_rest();
        }
        while cap < n * 2
            invariant
                1 <= n <= 0x2000_0000,
                10 <= k <= 30,
                cap as int == vstd::arithmetic::power2::pow2(k),
                cap <= 0x4000_0000,
                vstd::arithmetic::power2::pow2(30) == 0x4000_0000,
            decreases 30 - k,
        {
            proof {
                vstd::arithmetic::power2::lemma_pow2_unfold(k + 1);
                if k >= 30 {
                    if k > 30 {
                        vstd::arithmetic::power2::lemma_pow2_strictly_increases(30, k);
                    }
                    assert(false);
                }
                if k + 1 < 30 {
                    vstd::arithmetic::power2::lemma_pow2_strictly_increases(k + 1, 30);
                }
                assert(cap * 2 <= 0x4000_0000);
            }
            cap = cap * 2;
            proof {
                k = k + 1;
            }
        }
        let mask = cap - 1;
        let mut keys: Vec<u32> = Vec::new();
        let mut heads: Vec<i32> = Vec::new();
        let mut used: Vec<u8> = Vec::new();
        let mut t: usize = 0;
        while t < cap
            invariant
                t <= cap,
                keys@.len() == t && heads@.len() == t && used@.len() == t,
                forall|s: int| 0 <= s < t ==> used@[s] == 0 && heads@[s] == -1 && keys@[s] == 0,
            decreases cap - t,
        {
            keys.push(0);
            heads.push(-1);
            used.push(0);
            t = t + 1;
        }
        proof {
            assert(crate::tokenizer::slots::is_table_cap(mask as int + 1));
            crate::tokenizer::codon::lemma_count_zero(used@, cap as int);
            crate::tokenizer::slots::lemma_table_cap_bounds(cap as int);
        }
        let mut patterns: Vec<PatternRec> = Vec::new();
        let mut p: usize = 0;
        while p < order.len()
            invariant
                p <= order@.len(),
                order@.len() < cap,
                cap <= 0x4000_0000,
                1024 <= cap,
                mask as int + 1 == cap,
                ord == order@.map_values(|x: usize| x as int),
                pats == entry_bytes(entries@),
                order_asc(PREFIX, pats, ord),
                patterns@.len() == p,
                keys@.len() == cap,
                crate::tokenizer::slots::table_wf(mask, keys@, heads@, used@, record_keys(patterns@)),
                records_ok(PREFIX, pats, ord, patterns@),
            decreases order@.len() - p,
        {
            let id0 = order[p];
            proof {
                assert(ord[p as int] == id0 as int);
                assert(indexed(PREFIX, pats, ord[p as int]));
            }
            let b = entries[id0].bytes.as_slice();
            let id = ((id0 + 1) % 0x10000) as u16;
            let key = prefix_key(b, PREFIX);
            proof {
                assert(b@ == pats[id0 as int]);
            }
            let ghost pk = record_keys(patterns@);
            let ghost heads0 = heads@;
            let slot = crate::tokenizer::slots::find_slot_insert(key, mask, &mut keys, &mut used, Ghost(heads0), Ghost(pk));
            let old_head = heads[slot];
            heads.set(slot, p as i32);
            let rec = PatternRec { key, id, bytes: slice_to_vec(b), next: old_head };
            let ghost before = patterns@;
            patterns.push(rec);
            proof {
                assert(record_keys(patterns@) =~= pk.push(key));
                assert(heads@ =~= heads0.update(slot as int, pk.len() as i32));
                assert(patterns@ == before.push(rec));
                assert(record_keys(patterns@).subrange(0, p as int) =~= pk);
                assert(record_ok(PREFIX, pats, ord, patterns@, p as int));
                lemma_records_push(PREFIX, pats, ord, before, rec);
            }
            p = p + 1;
        }
        PrefixIndex { mask, keys, heads, used, patterns, pats: Ghost(pats), order: Ghost(ord) }
    }

    /// The index of the last pattern record with `key`, or -1.
    pub fn lookup_head(&self, key: u32) -> (r: i32)
        requires
            self.wf(),
        ensures
            crate::tokenizer::slots::last_with_key(self.chain_keys(), key, r as int),
    {
        if self.keys.len() == 0 {
            return -1;
        }
        crate::tokenizer::slots::slot_lookup(self.mask, &self.keys, &self.heads, &self.used, key, Ghost(record_keys(self.patterns@)))
    }
}

/// At most one vocabulary entry is chosen at a position.
pub proof fn lemma_vocab_chosen_unique(prefix: usize, pats: Seq<Seq<u8>>, buf: Seq<u8>, i: int, key: u32, j1: int, j2: int)
    requires
        vocab_chosen(prefix, pats, buf, i, key, j1),
        vocab_chosen(prefix, pats, buf, i, key, j2),
    ensures
        j1 == j2,
{
    assert(vocab_candidate(prefix, pats, buf, i, key, j1));
    assert(vocab_candidate(prefix, pats, buf, i, key, j2));
}

impl<const PREFIX: usize> PrefixIndex<PREFIX> {
    /// Every candidate entry is some record with the same key.
    proof fn lemma_candidate_rec(&self, buf: Seq<u8>, i: int, key: u32, k: int) -> (q: int)
        requires
            self.wf(),
            vocab_candidate(PREFIX, self.pats@, buf, i, key, k),
        ensures
            0 <= q < self.patterns@.len(),
            self.order@[q] == k,
            record_keys(self.patterns@)[q] == key,
            self.patterns@[q].bytes@ == self.pats@[k],
    {
        let q = choose|q: int| 0 <= q < self.order@.len() && #[trigger] self.order@[q] == k;
        assert(record_ok(PREFIX, self.pats@, self.order@, self.patterns@, q));
        q
    }

    /// The chain walk found record `pb` occurring at `i`, after records
    /// `lim..` with the key that do not: its entry is the chosen one.
    proof fn lemma_chain_first(&self, buf: Seq<u8>, i: int, key: u32, lim: int, pb: int)
        requires
            self.wf(),
            0 <= pb < lim <= self.patterns@.len(),
            crate::tokenizer::slots::last_with_key(record_keys(self.patterns@).subrange(0, lim), key, pb),
            occurs_at(buf, self.patterns@[pb].bytes@, i),
            forall|q: int| lim <= q < self.patterns@.len() && #[trigger] record_keys(self.patterns@)[q] == key
                ==> !occurs_at(buf, self.patterns@[q].bytes@, i),
        ensures
            vocab_chosen(PREFIX, self.pats@, buf, i, key, self.order@[pb]),
            self.patterns@[pb].bytes@ == self.pats@[self.order@[pb]],
            self.patterns@[pb].id == vocab_id(self.order@[pb]),
    {
        let pats = self.pats@;
        let ord = self.order@;
        let pk = record_keys(self.patterns@);
        let jb = ord[pb];
        assert(pk.len() == self.patterns@.len());
        assert(record_ok(PREFIX, pats, ord, self.patterns@, pb));
        assert(pk.subrange(0, lim)[pb] == pk[pb]);
        assert(indexed(PREFIX, pats, jb));
        assert(vocab_candidate(PREFIX, pats, buf, i, key, jb));
        assert forall|k: int| #[trigger] vocab_candidate(PREFIX, pats, buf, i, key, k)
            implies pats[k].len() < pats[jb].len() || (pats[k].len() == pats[jb].len() && k <= jb) by {
            let q = self.lemma_candidate_rec(buf, i, key, k);
            if q > pb {
                if q < lim {
                    assert(pk.subrange(0, lim)[q] == pk[q]);
                } else {
                    assert(!occurs_at(buf, self.patterns@[q].bytes@, i));
                }
            } else if q < pb {
                assert(pattern_after(pats, ord[q], ord[pb]));
            }
        }
    }

    /// The longest indexed entry with key `key` that occurs at `buf[i..]`
    /// (the last such entry among equally long ones): its id and length.
    pub fn check_vocab(&self, buf: &[u8], i: usize, key: u32) -> (r: Option<(u16, usize)>)
        requires
            self.wf(),
        ensures
            match r {
                Some((id, len)) => vocab_match(PREFIX, self.entries_view(), buf@, i as int, key) == Some((id, len as nat)),
                None => vocab_match(PREFIX, self.entries_view(), buf@, i as int, key) is None,
            },
    {
        let ghost pats = self.pats@;
        let ghost ord = self.order@;
        let ghost pk = record_keys(self.patterns@);
        let mut p = self.lookup_head(key);
        let ghost mut lim: int = self.patterns@.len() as int;
        proof {
            assert(pk.len() == self.patterns@.len());
            assert(pk.subrange(0, lim) =~= pk);
        }
        while p >= 0
            invariant
                self.wf(),
                pats == self.pats@ && ord == self.order@ && pk == record_keys(self.patterns@),
                pk.len() == self.patterns@.len(),
                -1 <= p < lim <= self.patterns@.len(),
                crate::tokenizer::slots::last_with_key(pk.subrange(0, lim), key, p as int),
                forall|q: int| lim <= q < self.patterns@.len() && #[trigger] pk[q] == key ==> !occurs_at(buf@, self.patterns@[q].bytes@, i as int),
            decreases p + 1,
        {
            let rec = &self.patterns[p as usize];
            proof {
                assert(record_ok(PREFIX, pats, ord, self.patterns@, p as int));
                assert(pk.subrange(0, lim)[p as int] == pk[p as int]);
            }
            if rec.key == key && crate::tokenizer::codon::occurs(buf, i, rec.bytes.as_slice()) {
                proof {
                    self.lemma_chain_first(buf@, i as int, key, lim, p as int);
                    let bv = buf@;
                    let ii = i as int;
                    let j = choose|j: int| #[trigger] vocab_chosen(PREFIX, pats, bv, ii, key, j);
                    lemma_vocab_chosen_unique(PREFIX, pats, bv, ii, key, j, ord[p as int]);
                }
                return Some((rec.id, rec.bytes.len()));
            }
            let next = rec.next;
            proof {
                assert(pk.subrange(0, p as int) =~= pk.subrange(0, lim).subrange(0, p as int));
                assert forall|q: int| p <= q < self.patterns@.len() && #[trigger] pk[q] == key implies !occurs_at(buf@, self.patterns@[q].bytes@, i as int) by {
                    if q > p && q < lim {
                        assert(pk.subrange(0, lim)[q] == pk[q]);
                    }
                }
                lim = p as int;
            }
            p = next;
        }
        proof {
            assert forall|k: int| !#[trigger] vocab_chosen(PREFIX, pats, buf@, i as int, key, k) by {
                if vocab_chosen(PREFIX, pats, buf@, i as int, key, k) {
                    let q = self.lemma_candidate_rec(buf@, i as int, key, k);
                    if q < lim {
                        assert(pk.subrange(0, lim)[q] == pk[q]);
                    }
                }
            }
        }
        None
    }
}

impl<const PREFIX: usize> Default for PrefixIndex<PREFIX> {
    fn default() -> (idx: Self)
        ensures
            idx.wf(),
            idx.entries_view() == Seq::<Seq<u8>>::empty(),
    {
        Self::new()
    }
}

// ---------------------------------------------------------------------------
// Greedy scans
// ---------------------------------------------------------------------------

/// Positions too close to the end of the buffer for a prefix key.
pub open spec fn near_end(prefix: usize, n: int, i: int) -> bool {
    i + prefix > n || i + MIN_MATCH > n
}

/// The vocabulary match at `buf[i..]`, under the key of the bytes there.
pub open spec fn match_here(prefix: usize, pats: Seq<Seq<u8>>, buf: Seq<u8>, i: int) -> Option<(u16, nat)> {
    vocab_match(prefix, pats, buf, i, key_at(prefix, buf, i))
}

/// The token for vocabulary id `id` matching `l` bytes.
pub open spec fn dict_token(id: u16, l: nat) -> Token {
    if id <= 255 {
        Token::DictU8 { id: id as u8, len: l as u8 }
    } else {
        Token::DictU16 { id, len: l as u8 }
    }
}

/// The greedy token stream of `buf[pos..]`.
pub open spec fn tokens_from(prefix: usize, pats: Seq<Seq<u8>>, buf: Seq<u8>, pos: int) -> Seq<Token>
    decreases buf.len() - pos,
{
    if pos < 0 || pos >= buf.len() {
        Seq::empty()
    } else if buf[pos] == ESCAPE {
        seq![Token::Literal(ESCAPE)] + tokens_from(prefix, pats, buf, pos + 1)
    } else if near_end(prefix, buf.len() as int, pos) {
        seq![Token::Literal(buf[pos])] + tokens_from(prefix, pats, buf, pos + 1)
    } else {
        match match_here(prefix, pats, buf, pos) {
            Some((id, l)) => {
                proof {
                    lemma_vocab_match_len(prefix, pats, buf, pos, key_at(prefix, buf, pos));
                }
                seq![dict_token(id, l)] + tokens_from(prefix, pats, buf, pos + l)
            },
            None => seq![Token::Literal(buf[pos])] + tokens_from(prefix, pats, buf, pos + 1),
        }
    }
}

/// A dictionary token names an entry of `pats` and records its length.
pub open spec fn token_names_entry(pats: Seq<Seq<u8>>, t: Token) -> bool {
    match t {
        Token::Literal(_) => true,
        Token::DictU8 { id, len } => 1 <= id <= pats.len() && len == pats[id as int - 1].len(),
        Token::DictU16 { id, len } => 1 <= id <= pats.len() && len == pats[id as int - 1].len(),
    }
}

/// The greedy token stream spells the input: the texts of the tokens of
/// `buf[pos..]`, a literal's byte or a dictionary token's entry bytes for
/// its id, give `buf[pos..]` back, and every dictionary token names an
/// entry of the vocabulary and records that entry's length.
pub proof fn lemma_tokens_spell(prefix: usize, pats: Seq<Seq<u8>>, buf: Seq<u8>, pos: int)
    requires
        pats.len() < 0x10000,
        0 <= pos <= buf.len(),
    ensures
        tokens_text(tokens_from(prefix, pats, buf, pos), pats) == buf.subrange(pos, buf.len() as int),
        forall|k: int| 0 <= k < tokens_from(prefix, pats, buf, pos).len()
            ==> token_names_entry(pats, #[trigger] tokens_from(prefix, pats, buf, pos)[k]),
    decreases buf.len() - pos,
{
    let ts = tokens_from(prefix, pats, buf, pos);
    if pos == buf.len() {
        assert(buf.subrange(pos, buf.len() as int) =~= Seq::<u8>::empty());
    } else {
        let single = buf[pos] == ESCAPE || near_end(prefix, buf.len() as int, pos) || match_here(prefix, pats, buf, pos) is None;
        let (t, adv): (Token, int) = if single {
            (Token::Literal(buf[pos]), 1)
        } else {
            let m = match_here(prefix, pats, buf, pos)->0;
            (dict_token(m.0, m.1), m.1 as int)
        };
        if !single {
            lemma_vocab_match_len(prefix, pats, buf, pos, key_at(prefix, buf, pos));
        }
        assert(1 <= adv && pos + adv <= buf.len());
        let rest = tokens_from(prefix, pats, buf, pos + adv);
        assert(ts == seq![t] + rest);
        lemma_tokens_spell(prefix, pats, buf, pos + adv);
        assert((seq![t] + rest)[0] == t);
        assert((seq![t] + rest).drop_first() =~= rest);
        lemma_tokens_front(ts, pats);
        assert(token_text(t, pats) == buf.subrange(pos, pos + adv) && token_names_entry(pats, t)) by {
            if single {
                assert(buf.subrange(pos, pos + 1) =~= seq![buf[pos]]);
            } else {
                let key = key_at(prefix, buf, pos);
                let j = choose|j: int| vocab_chosen(prefix, pats, buf, pos, key, j);
                assert(vocab_chosen(prefix, pats, buf, pos, key, j));
                assert(0 <= j < pats.len());
                assert(vocab_id(j) as int == j + 1);
                assert(occurs_at(buf, pats[j], pos));
            }
        }
        assert(buf.subrange(pos, buf.len() as int) =~= buf.subrange(pos, pos + adv) + buf.subrange(pos + adv, buf.len() as int));
        assert forall|k: int| 0 <= k < ts.len() implies token_names_entry(pats, #[trigger] ts[k]) by {
            if k > 0 {
                assert(ts[k] == rest[k - 1]);
            }
        }
    }
}

/// The bytes written for the vocabulary match `(id, l)` at `pos`, and how
/// far the scan advances: `ESCAPE id` for ids up to 254, `ESCAPE 0xFF lo hi`
/// for larger ids unless only one-byte ids are allowed, else the byte at
/// `pos` as a literal.
pub open spec fn vocab_emit(buf: Seq<u8>, pos: int, id: u16, l: nat, u8_only: bool) -> (Seq<u8>, nat) {
    if id <= 254 {
        (seq![ESCAPE, id as u8], l)
    } else if !u8_only {
        (seq![ESCAPE, 0xFFu8] + crate::bytes::le16_bytes(id), l)
    } else {
        (seq![buf[pos]], 1nat)
    }
}

/// One step of the byte-level scan at `pos`: the bytes written and the
/// number of input bytes consumed.
pub open spec fn gn_step(prefix: usize, pats: Seq<Seq<u8>>, buf: Seq<u8>, pos: int, u8_only: bool) -> (Seq<u8>, nat) {
    if buf[pos] == ESCAPE {
        (seq![ESCAPE, 0x00u8], 1nat)
    } else if near_end(prefix, buf.len() as int, pos) {
        (seq![buf[pos]], 1nat)
    } else {
        match match_here(prefix, pats, buf, pos) {
            Some((id, l)) => vocab_emit(buf, pos, id, l, u8_only),
            None => (seq![buf[pos]], 1nat),
        }
    }
}

/// A scan step consumes at least one byte and stays within the buffer.
pub proof fn lemma_gn_step_adv(prefix: usize, pats: Seq<Seq<u8>>, buf: Seq<u8>, pos: int, u8_only: bool)
    requires
        0 <= pos < buf.len(),
    ensures
        1 <= gn_step(prefix, pats, buf, pos, u8_only).1,
        pos + gn_step(prefix, pats, buf, pos, u8_only).1 <= buf.len(),
{
    lemma_vocab_match_len(prefix, pats, buf, pos, key_at(prefix, buf, pos));
}

/// The greedy token bytes of `buf[pos..]`.
pub open spec fn gn_from(prefix: usize, pats: Seq<Seq<u8>>, buf: Seq<u8>, pos: int, u8_only: bool) -> Seq<u8>
    decreases buf.len() - pos,
{
    if pos < 0 || pos >= buf.len() {
        Seq::empty()
    } else {
        let st = gn_step(prefix, pats, buf, pos, u8_only);
        proof {
            lemma_gn_step_adv(prefix, pats, buf, pos, u8_only);
        }
        st.0 + gn_from(prefix, pats, buf, pos + st.1, u8_only)
    }
}

/// The vocabulary match at `i`, for a position holding no ESCAPE and
/// with room for a prefix key.
fn vocab_at<const PREFIX: usize>(index: &PrefixIndex<PREFIX>, buf: &[u8], i: usize) -> (r: Option<(u16, usize)>)
    requires
        index.wf(),
        i < buf@.len(),
        !near_end(PREFIX, buf@.len() as int, i as int),
    ensures
        match r {
            Some((id, len)) => match_here(PREFIX, index.entries_view(), buf@, i as int) == Some((id, len as nat)),
            None => match_here(PREFIX, index.entries_view(), buf@, i as int) is None,
        },
{
    let key = prefix_key_at(buf, i, PREFIX);
    index.check_vocab(buf, i, key)
}

/// The byte-level greedy scan of `buf` over `index`.
fn scan_gn<const PREFIX: usize>(buf: &[u8], index: &PrefixIndex<PREFIX>, u8_only: bool) -> (out: Vec<u8>)
    requires
        index.wf(),
    ensures
        out@ == gn_from(PREFIX, index.entries_view(), buf@, 0, u8_only),
{
    let ghost pats = index.entries_view();
    let n = buf.len();
    let mut out: Vec<u8> = Vec::new();
    let mut i: usize = 0;
    while i < n
        invariant
            n == buf@.len(),
            i <= n,
            index.wf(),
            pats == index.entries_view(),
            gn_from(PREFIX, pats, buf@, 0, u8_only) == out@ + gn_from(PREFIX, pats, buf@, i as int, u8_only),
        decreases n - i,
    {
        let ghost st = gn_step(PREFIX, pats, buf@, i as int, u8_only);
        let ghost before = out@;
        let step: usize;
        if buf[i] == ESCAPE {
            out.push(ESCAPE);
            out.push(0x00);
            step = 1;
        } else if PREFIX > n - i || MIN_MATCH > n - i {
            out.push(buf[i]);
            step = 1;
        } else {
            match vocab_at(index, buf, i) {
                Some((id, len)) => {
                    if id <= 254 {
                        out.push(ESCAPE);
                        out.push(id as u8);
                        step = len;
                    } else if !u8_only {
                        out.push(ESCAPE);
                        out.push(0xFF);
                        crate::bytes::push_le16(&mut out, id);
                        step = len;
                    } else {
                        out.push(buf[i]);
                        step = 1;
                    }
                },
                None => {
                    out.push(buf[i]);
                    step = 1;
                },
            }
        }
        proof {
            lemma_gn_step_adv(PREFIX, pats, buf@, i as int, u8_only);
            assert(out@ == before + st.0);
            assert(step == st.1);
        }
        i = i + step;
    }
    proof {
        assert(out@ + Seq::<u8>::empty() =~= out@);
    }
    out
}

// ---------------------------------------------------------------------------
// Local repeats
// ---------------------------------------------------------------------------

/// The number of equal bytes at `buf[i..]` and `buf[j..]`, at most `cap`.
pub open spec fn run_len(buf: Seq<u8>, i: int, j: int, cap: int) -> nat
    decreases cap,
{
    if cap <= 0 || i < 0 || j < 0 || i >= buf.len() || j >= buf.len() || buf[i] != buf[j] {
        0
    } else {
        1 + run_len(buf, i + 1, j + 1, cap - 1)
    }
}

/// How far a repeat at distance `d` may run from `i`: to the end of the
/// buffer, no further than `d` bytes, and at most MAX_MATCH.
pub open spec fn run_cap(n: int, i: int, d: int) -> int {
    let a = if n - i < d { n - i } else { d };
    if a < MAX_MATCH { a } else { MAX_MATCH as int }
}

/// The best repeat among distances `1..=dmax` back from `i`: the longest
/// of at least MIN_MATCH bytes, the nearest among equally long ones, as
/// (length, distance); (0, 0) when there is none.
pub open spec fn local_scan(buf: Seq<u8>, i: int, dmax: int) -> (nat, nat)
    decreases dmax,
{
    if dmax <= 0 {
        (0nat, 0nat)
    } else {
        let prev = local_scan(buf, i, dmax - 1);
        let l = run_len(buf, i, i - dmax, run_cap(buf.len() as int, i, dmax));
        if l >= MIN_MATCH && l > prev.0 {
            (l, dmax as nat)
        } else {
            prev
        }
    }
}

/// The best repeat within 64 bytes back from `i`.
pub open spec fn local_best(buf: Seq<u8>, i: int) -> (nat, nat) {
    local_scan(buf, i, if i < 64 { i } else { 64 })
}

proof fn lemma_run_len_bound(buf: Seq<u8>, i: int, j: int, cap: int)
    ensures
        run_len(buf, i, j, cap) <= if cap < 0 { 0 } else { cap },
    decreases cap,
{
    if cap > 0 {
        lemma_run_len_bound(buf, i + 1, j + 1, cap - 1);
    }
}

proof fn lemma_local_scan_bound(buf: Seq<u8>, i: int, dmax: int)
    requires
        0 <= i < buf.len(),
    ensures
        local_scan(buf, i, dmax).0 <= buf.len() - i,
        local_scan(buf, i, dmax).0 <= MAX_MATCH,
        local_scan(buf, i, dmax).1 <= if dmax < 0 { 0 } else { dmax },
        local_scan(buf, i, dmax).0 == 0 || local_scan(buf, i, dmax).0 >= MIN_MATCH,
    decreases dmax,
{
    if dmax > 0 {
        lemma_local_scan_bound(buf, i, dmax - 1);
        lemma_run_len_bound(buf, i, i - dmax, run_cap(buf.len() as int, i, dmax));
    }
}

/// A counted run of equal bytes is the spec's run.
proof fn lemma_run_len_count(buf: Seq<u8>, i: int, j: int, cap: int, len: int)
    requires
        0 <= len <= cap,
        0 <= j,
        0 <= i,
        i + cap <= buf.len(),
        j + cap <= buf.len(),
        forall|t: int| 0 <= t < len ==> #[trigger] buf[i + t] == buf[j + t],
        len == cap || buf[i + len] != buf[j + len],
    ensures
        run_len(buf, i, j, cap) == len,
    decreases len,
{
    if len > 0 {
        assert(buf[i + 0] == buf[j + 0]);
        assert forall|t: int| 0 <= t < len - 1 implies #[trigger] buf[(i + 1) + t] == buf[(j + 1) + t] by {
            assert(buf[i + (t + 1)] == buf[j + (t + 1)]);
        }
        lemma_run_len_count(buf, i + 1, j + 1, cap - 1, len - 1);
    }
}

/// The local repeat taken at `pos` when no vocabulary token is written:
/// `ESCAPE 0xFD distance length`, or the byte as a literal.
pub open spec fn local_fallback(buf: Seq<u8>, pos: int) -> (Seq<u8>, nat) {
    let best = local_best(buf, pos);
    if pos >= MIN_MATCH && best.0 >= MIN_MATCH && best.1 <= 255 {
        (seq![ESCAPE, 0xFDu8, best.1 as u8, best.0 as u8], best.0)
    } else {
        (seq![buf[pos]], 1nat)
    }
}

/// One step of the scan with local repeats.
pub open spec fn local_step(prefix: usize, pats: Seq<Seq<u8>>, buf: Seq<u8>, pos: int, u8_only: bool) -> (Seq<u8>, nat) {
    if buf[pos] == ESCAPE {
        (seq![ESCAPE, 0x00u8], 1nat)
    } else if near_end(prefix, buf.len() as int, pos) {
        (seq![buf[pos]], 1nat)
    } else {
        match match_here(prefix, pats, buf, pos) {
            Some((id, l)) => if id <= 254 || !u8_only {
                vocab_emit(buf, pos, id, l, u8_only)
            } else {
                local_fallback(buf, pos)
            },
            None => local_fallback(buf, pos),
        }
    }
}

/// A scan step with local repeats consumes at least one byte and stays within the buffer.
pub proof fn lemma_local_step_adv(prefix: usize, pats: Seq<Seq<u8>>, buf: Seq<u8>, pos: int, u8_only: bool)
    requires
        0 <= pos < buf.len(),
    ensures
        1 <= local_step(prefix, pats, buf, pos, u8_only).1,
        pos + local_step(prefix, pats, buf, pos, u8_only).1 <= buf.len(),
{
    lemma_vocab_match_len(prefix, pats, buf, pos, key_at(prefix, buf, pos));
    lemma_local_scan_bound(buf, pos, if pos < 64 { pos } else { 64 });
}

/// The token bytes of `buf[pos..]` with local repeats.
pub open spec fn local_from(prefix: usize, pats: Seq<Seq<u8>>, buf: Seq<u8>, pos: int, u8_only: bool) -> Seq<u8>
    decreases buf.len() - pos,
{
    if pos < 0 || pos >= buf.len() {
        Seq::empty()
    } else {
        let st = local_step(prefix, pats, buf, pos, u8_only);
        proof {
            lemma_local_step_adv(prefix, pats, buf, pos, u8_only);
        }
        st.0 + local_from(prefix, pats, buf, pos + st.1, u8_only)
    }
}

/// The best repeat within 64 bytes back from `i`, as (length, distance).
fn find_local(buf: &[u8], i: usize) -> (r: (usize, usize))
    requires
        i < buf@.len(),
    ensures
        r.0 as nat == local_best(buf@, i as int).0,
        r.1 as nat == local_best(buf@, i as int).1,
{
    let n = buf.len();
    let lookback = if i < 64 { i } else { 64 };
    let mut best_len: usize = 0;
    let mut best_dist: usize = 0;
    let mut d: usize = 1;
    while d <= lookback
        invariant
            n == buf@.len(),
            i < n,
            lookback <= i,
            lookback <= 64,
            1 <= d <= lookback + 1,
            best_len as nat == local_scan(buf@, i as int, d - 1).0,
            best_dist as nat == local_scan(buf@, i as int, d - 1).1,
        decreases lookback + 1 - d,
    {
        let j = i - d;
        if buf[j] == buf[i] {
            let mut len: usize = 0;
            while i + len < n && j + len < i && buf[i + len] == buf[j + len] && len < MAX_MATCH
                invariant
                    n == buf@.len(),
                    j + d == i,
                    i < n,
                    len <= run_cap(n as int, i as int, d as int),
                    forall|t: int| 0 <= t < len ==> #[trigger] buf@[i + t] == buf@[j + t],
                decreases MAX_MATCH - len,
            {
                len = len + 1;
            }
            proof {
                lemma_run_len_count(buf@, i as int, j as int, run_cap(n as int, i as int, d as int), len as int);
            }
            if len >= MIN_MATCH && len > best_len {
                best_len = len;
                best_dist = d;
            }
        } else {
            proof {
                assert(run_len(buf@, i as int, j as int, run_cap(n as int, i as int, d as int)) == 0);
            }
        }
        d = d + 1;
    }
    (best_len, best_dist)
}

pub struct GNPrefixTokenizer<const PREFIX: usize> {
    pub index: PrefixIndex<PREFIX>,
}

impl<const PREFIX: usize> GNPrefixTokenizer<PREFIX> {
    /// A tokenizer with an empty vocabulary.
    pub fn new() -> (t: Self)
        ensures
            t.index.wf(),
            t.index.entries_view() == Seq::<Seq<u8>>::empty(),
    {
        GNPrefixTokenizer { index: PrefixIndex::new() }
    }

    /// Replace the vocabulary by `entries`.
    pub fn seed_from_vocab(&mut self, entries: &[DictEntry])
        requires
            entries@.len() <= 0x2000_0000,
        ensures
            final(self).index.wf(),
            final(self).index.entries_view() == entry_bytes(entries@),
    {
        self.index = PrefixIndex::<PREFIX>::build(entries);
    }

    /// The greedy token stream of `buf`.
    pub fn tokenize(&self, buf: &[u8]) -> (out: Vec<Token>)
        requires
            self.index.wf(),
        ensures
            out@ == tokens_from(PREFIX, self.index.entries_view(), buf@, 0),
            self.index.entries_view().len() < 0x10000 ==> tokens_text(out@, self.index.entries_view()) == buf@,
            self.index.entries_view().len() < 0x10000 ==> forall|k: int| 0 <= k < out@.len()
                ==> token_names_entry(self.index.entries_view(), #[trigger] out@[k]),
    {
        let ghost pats = self.index.entries_view();
        let n = buf.len();
        let mut out: Vec<Token> = Vec::new();
        let mut i: usize = 0;
        while i < n
            invariant
                n == buf@.len(),
                i <= n,
                self.index.wf(),
                pats == self.index.entries_view(),
                tokens_from(PREFIX, pats, buf@, 0) == out@ + tokens_from(PREFIX, pats, buf@, i as int),
            decreases n - i,
        {
            if buf[i] == ESCAPE {
                out.push(Token::Literal(ESCAPE));
                i = i + 1;
            } else if PREFIX > n - i || MIN_MATCH > n - i {
                out.push(Token::Literal(buf[i]));
                i = i + 1;
            } else {
                match vocab_at(&self.index, buf, i) {
                    Some((id, len)) => {
                        proof {
                            lemma_vocab_match_len(PREFIX, pats, buf@, i as int, key_at(PREFIX, buf@, i as int));
                        }
                        let len_u8 = len as u8;
                        if id <= 255 {
                            out.push(Token::DictU8 { id: id as u8, len: len_u8 });
                        } else {
                            out.push(Token::DictU16 { id, len: len_u8 });
                        }
                        i = i + len;
                    },
                    None => {
                        out.push(Token::Literal(buf[i]));
                        i = i + 1;
                    },
                }
            }
        }
        proof {
            assert(out@ + Seq::<Token>::empty() =~= out@);
            if pats.len() < 0x10000 {
                lemma_tokens_spell(PREFIX, pats, buf@, 0);
                assert(buf@.subrange(0, buf@.len() as int) =~= buf@);
            }
        }
        out
    }

    /// The greedy token bytes of `buf` over an index held elsewhere.
    pub fn tokenize_with_index(buf: &[u8], index: &PrefixIndex<PREFIX>, u8_only: bool) -> (out: Vec<u8>)
        requires
            index.wf(),
        ensures
            out@ == gn_from(PREFIX, index.entries_view(), buf@, 0, u8_only),
    {
        scan_gn(buf, index, u8_only)
    }

    /// The token bytes of `buf` over an index held elsewhere, with local
    /// repeats of up to 64 bytes back where no vocabulary token is written.
    pub fn tokenize_with_local(buf: &[u8], index: &PrefixIndex<PREFIX>, u8_only: bool) -> (out: Vec<u8>)
        requires
            index.wf(),
        ensures
            out@ == local_from(PREFIX, index.entries_view(), buf@, 0, u8_only),
    {
        let ghost pats = index.entries_view();
        let n = buf.len();
        let mut out: Vec<u8> = Vec::new();
        let mut i: usize = 0;
        while i < n
            invariant
                n == buf@.len(),
                i <= n,
                index.wf(),
                pats == index.entries_view(),
                local_from(PREFIX, pats, buf@, 0, u8_only) == out@ + local_from(PREFIX, pats, buf@, i as int, u8_only),
            decreases n - i,
        {
            let ghost st = local_step(PREFIX, pats, buf@, i as int, u8_only);
            let ghost before = out@;
            let mut step: usize = 0;
            if buf[i] == ESCAPE {
                out.push(ESCAPE);
                out.push(0x00);
                step = 1;
            } else if PREFIX > n - i || MIN_MATCH > n - i {
                out.push(buf[i]);
                step = 1;
            } else {
                let vm = vocab_at(index, buf, i);
                match vm {
                    Some((id, len)) => {
                        if id <= 254 {
                            out.push(ESCAPE);
                            out.push(id as u8);
                            step = len;
                        } else if !u8_only {
                            out.push(ESCAPE);
                            out.push(0xFF);
                            crate::bytes::push_le16(&mut out, id);
                            step = len;
                        }
                    },
                    None => {},
                }
                if step == 0 {
                    let mut taken = false;
                    if i >= MIN_MATCH {
                        let (best_len, best_dist) = find_local(buf, i);
                        proof {
                            lemma_local_scan_bound(buf@, i as int, if i < 64 { i as int } else { 64 });
                        }
                        if best_len >= MIN_MATCH && best_dist <= 255 {
                            out.push(ESCAPE);
                            out.push(0xFD);
                            out.push(best_dist as u8);
                            out.push(best_len as u8);
                            step = best_len;
                            taken = true;
                        }
                    }
                    if !taken {
                        out.push(buf[i]);
                        step = 1;
                    }
                }
            }
            proof {
                lemma_local_step_adv(PREFIX, pats, buf@, i as int, u8_only);
                lemma_vocab_match_len(PREFIX, pats, buf@, i as int, key_at(PREFIX, buf@, i as int));
                assert(out@ == before + st.0);
                assert(step == st.1);
            }
            i = i + step;
        }
        proof {
            assert(out@ + Seq::<u8>::empty() =~= out@);
        }
        out
    }

    /// The greedy token bytes of `buf`.
    pub fn tokenize_to_gn_bytes(&self, buf: &[u8], u8_only: bool) -> (out: Vec<u8>)
        requires
            self.index.wf(),
        ensures
            out@ == gn_from(PREFIX, self.index.entries_view(), buf@, 0, u8_only),
    {
        scan_gn(buf, &self.index, u8_only)
    }
}

impl<const PREFIX: usize> Default for GNPrefixTokenizer<PREFIX> {
    fn default() -> (t: Self)
        ensures
            t.index.wf(),
            t.index.entries_view() == Seq::<Seq<u8>>::empty(),
    {
        Self::new()
    }
}

// ---------------------------------------------------------------------------
// The hybrid encoder
// ---------------------------------------------------------------------------

/// The key width the hybrid encoder looks up with: four bytes for 4-byte
/// prefixes, three otherwise.
pub open spec fn hybrid_key_width(prefix: usize) -> usize {
    if prefix == 4 { 4 } else { 3 }
}

/// One step of the hybrid encoder at `pos`.
pub open spec fn hybrid_step(prefix: usize, pats: Seq<Seq<u8>>, buf: Seq<u8>, pos: int) -> (Seq<u8>, nat) {
    if buf[pos] == ESCAPE {
        (seq![ESCAPE, 0x00u8], 1nat)
    } else if near_end(prefix, buf.len() as int, pos) {
        (seq![buf[pos]], 1nat)
    } else {
        match vocab_match(prefix, pats, buf, pos, key_at(hybrid_key_width(prefix), buf, pos)) {
            Some((id, l)) => vocab_emit(buf, pos, id, l, false),
            None => (seq![buf[pos]], 1nat),
        }
    }
}

/// A hybrid encoder step consumes at least one byte and stays within the buffer.
pub proof fn lemma_hybrid_step_adv(prefix: usize, pats: Seq<Seq<u8>>, buf: Seq<u8>, pos: int)
    requires
        0 <= pos < buf.len(),
    ensures
        1 <= hybrid_step(prefix, pats, buf, pos).1,
        pos + hybrid_step(prefix, pats, buf, pos).1 <= buf.len(),
{
    lemma_vocab_match_len(prefix, pats, buf, pos, key_at(hybrid_key_width(prefix), buf, pos));
}

/// The hybrid encoding of `buf[pos..]`.
pub open spec fn hybrid_from(prefix: usize, pats: Seq<Seq<u8>>, buf: Seq<u8>, pos: int) -> Seq<u8>
    decreases buf.len() - pos,
{
    if pos < 0 || pos >= buf.len() {
        Seq::empty()
    } else {
        let st = hybrid_step(prefix, pats, buf, pos);
        proof {
            lemma_hybrid_step_adv(prefix, pats, buf, pos);
        }
        st.0 + hybrid_from(prefix, pats, buf, pos + st.1)
    }
}

/// For 3- and 4-byte prefixes the hybrid encoder writes the greedy token
/// bytes with extended ids.
pub proof fn lemma_hybrid_is_gn(prefix: usize, pats: Seq<Seq<u8>>, buf: Seq<u8>, pos: int)
    requires
        prefix == 3 || prefix == 4,
        0 <= pos,
    ensures
        hybrid_from(prefix, pats, buf, pos) == gn_from(prefix, pats, buf, pos, false),
    decreases buf.len() - pos,
{
    if pos < buf.len() {
        assert(hybrid_step(prefix, pats, buf, pos) == gn_step(prefix, pats, buf, pos, false));
        lemma_hybrid_step_adv(prefix, pats, buf, pos);
        lemma_hybrid_is_gn(prefix, pats, buf, pos + hybrid_step(prefix, pats, buf, pos).1);
    }
}

/// Vocabulary encoder for independent chunks: vocabulary tokens with
/// extended ids, every other byte as a literal.
pub struct GNHybridEncoder<const PREFIX: usize> {
    pub vocab: GNPrefixTokenizer<PREFIX>,
}

impl<const PREFIX: usize> GNHybridEncoder<PREFIX> {
    pub fn new() -> (e: Self)
        ensures
            e.vocab.index.wf(),
            e.vocab.index.entries_view() == Seq::<Seq<u8>>::empty(),
    {
        GNHybridEncoder { vocab: GNPrefixTokenizer::new() }
    }

    /// Replace the vocabulary by `entries`.
    pub fn seed_vocab(&mut self, entries: &[DictEntry])
        requires
            entries@.len() <= 0x2000_0000,
        ensures
            final(self).vocab.index.wf(),
            final(self).vocab.index.entries_view() == entry_bytes(entries@),
    {
        self.vocab.seed_from_vocab(entries);
    }

    /// Encode one chunk.
    pub fn encode(&mut self, buf: &[u8]) -> (out: Vec<u8>)
        requires
            old(self).vocab.index.wf(),
        ensures
            *final(self) == *old(self),
            out@ == hybrid_from(PREFIX, old(self).vocab.index.entries_view(), buf@, 0),
            PREFIX == 3 || PREFIX == 4 ==> out@ == gn_from(PREFIX, old(self).vocab.index.entries_view(), buf@, 0, false),
    {
        let ghost pats = self.vocab.index.entries_view();
        let n = buf.len();
        let width: usize = if PREFIX == 4 { 4 } else { 3 };
        let mut out: Vec<u8> = Vec::new();
        let mut i: usize = 0;
        while i < n
            invariant
                n == buf@.len(),
                i <= n,
                self.vocab.index.wf(),
                pats == self.vocab.index.entries_view(),
                width == hybrid_key_width(PREFIX),
                hybrid_from(PREFIX, pats, buf@, 0) == out@ + hybrid_from(PREFIX, pats, buf@, i as int),
            decreases n - i,
        {
            let ghost st = hybrid_step(PREFIX, pats, buf@, i as int);
            let ghost before = out@;
            let step: usize;
            if buf[i] == ESCAPE {
                out.push(ESCAPE);
                out.push(0x00);
                step = 1;
            } else if PREFIX > n - i || MIN_MATCH > n - i {
                out.push(buf[i]);
                step = 1;
            } else {
                let key = prefix_key_at(buf, i, width);
                match self.vocab.index.check_vocab(buf, i, key) {
                    Some((id, vlen)) => {
                        if id <= 254 {
                            out.push(ESCAPE);
                            out.push(id as u8);
                        } else {
                            out.push(ESCAPE);
                            out.push(0xFF);
                            crate::bytes::push_le16(&mut out, id);
                        }
                        step = vlen;
                    },
                    None => {
                        out.push(buf[i]);
                        step = 1;
                    },
                }
            }
            proof {
                lemma_hybrid_step_adv(PREFIX, pats, buf@, i as int);
                assert(out@ == before + st.0);
                assert(step == st.1);
            }
            i = i + step;
        }
        proof {
            assert(out@ + Seq::<u8>::empty() =~= out@);
            if PREFIX == 3 || PREFIX == 4 {
                lemma_hybrid_is_gn(PREFIX, pats, buf@, 0);
            }
        }
        out
    }
}

impl<const PREFIX: usize> Default for GNHybridEncoder<PREFIX> {
    fn default() -> (e: Self)
        ensures
            e.vocab.index.wf(),
            e.vocab.index.entries_view() == Seq::<Seq<u8>>::empty(),
    {
        Self::new()
    }
}

// ---------------------------------------------------------------------------
// libdeflate
// ---------------------------------------------------------------------------

#[verifier::external_type_specification]
#[verifier::external_body]
pub struct ExCompressor(libdeflater::Compressor);

#[verifier::external_type_specification]
#[verifier::external_body]
pub struct ExCompressionError(libdeflater::CompressionError);

/// libdeflate's hard upper bound on the deflate output for `n` input
/// bytes: five bytes of block overhead for every started 5000 bytes (at
/// least one block), plus the bytes themselves.
pub open spec fn deflate_bound(n: int) -> int {
    5 * (if n <= 0 { 1 } else { (n + 4999) / 5000 }) + n
}

/// `libdeflater::Compressor::deflate_compress_bound`: libdeflate computes
/// the bound from the length alone, by the formula of `deflate_bound`.
#[verifier::external_body]
fn compress_bound(compressor: &mut libdeflater::Compressor, n: usize) -> (r: usize)
    requires
        n <= usize::MAX / 2,
    ensures
        r == deflate_bound(n as int),
{
    compressor.deflate_compress_bound(n)
}

/// `libdeflater::Compressor::deflate_compress` into all of `out`: on
/// success the number of bytes written, at least one and at most the
/// buffer's length, and those bytes are a DEFLATE stream of `data` (so a
/// DEFLATE decoder reads `data` back from them); it fails only when the
/// buffer is shorter than the bound. The buffer keeps its length. Which
/// of the many DEFLATE streams of `data` is written depends on the
/// compressor's level, held inside the compressor, and is not stated.
#[verifier::external_body]
fn compress_into(compressor: &mut libdeflater::Compressor, data: &[u8], out: &mut Vec<u8>) -> (r: Result<usize, libdeflater::CompressionError>)
    ensures
        final(out)@.len() == old(out)@.len(),
        match r {
            Ok(sz) => 0 < sz <= old(out)@.len() && inflate_spec(final(out)@.take(sz as int)) == Some(data@),
            Err(_) => old(out)@.len() < deflate_bound(data@.len() as int),
        },
{
    compressor.deflate_compress(data, out.as_mut_slice())
}

/// `libdeflater::Compressor::new` at the default level (6).
#[verifier::external_body]
pub(crate) fn default_compressor() -> libdeflater::Compressor {
    libdeflater::Compressor::new(libdeflater::CompressionLvl::default())
}

/// The deflated bytes of `data` when libdeflate makes them shorter, else
/// `data` itself.
pub(crate) fn deflate_if_smaller(compressor: &mut libdeflater::Compressor, data: Vec<u8>) -> (out: Vec<u8>)
    ensures
        out@ == data@ || (out@.len() < data@.len() && inflate_spec(out@) == Some(data@)),
{
    if data.len() > usize::MAX / 2 {
        return data;
    }
    let mut deflated: Vec<u8> = Vec::new();
    match deflate_with_libdeflater(compressor, data.as_slice(), &mut deflated) {
        Ok(n) => {
            deflated.truncate(n);
            if deflated.len() < data.len() { deflated } else { data }
        },
        Err(_) => data,
    }
}

/// Deflate `data` into `out_buf`, first growing the buffer with zeros to
/// libdeflate's bound: the number of bytes written.
pub fn deflate_with_libdeflater(
    compressor: &mut libdeflater::Compressor,
    data: &[u8],
    out_buf: &mut Vec<u8>,
) -> (r: Result<usize, libdeflater::CompressionError>)
    requires
        data@.len() <= usize::MAX / 2,
    ensures
        final(out_buf)@.len() == if old(out_buf)@.len() < deflate_bound(data@.len() as int) {
            deflate_bound(data@.len() as int)
        } else {
            old(out_buf)@.len() as int
        },
        r matches Ok(sz) && 0 < sz <= final(out_buf)@.len() && inflate_spec(final(out_buf)@.take(sz as int)) == Some(data@),
{
    let bound = compress_bound(compressor, data.len());
    if out_buf.len() < bound {
        out_buf.resize(bound, 0);
    }
    compress_into(compressor, data, out_buf)
}

// ---------------------------------------------------------------------------
// Round trip
// ---------------------------------------------------------------------------

/// Decoding past a prefix `a` is decoding the rest.
proof fn lemma_gn_decode_shift(a: Seq<u8>, r: Seq<u8>, pats: Seq<Seq<u8>>, m: int)
    requires
        0 <= m,
    ensures
        gn_decode_from(a + r, pats, a.len() + m) == gn_decode_from(r, pats, m),
    decreases r.len() - m,
{
    let e = a + r;
    let k = a.len() + m;
    if m < r.len() {
        assert(e[k] == r[m]);
        if m + 1 < r.len() {
            assert(e[k + 1] == r[m + 1]);
        }
        if m + 2 < r.len() {
            assert(e[k + 2] == r[m + 2]);
        }
        lemma_gn_decode_shift(a, r, pats, m + 1);
        if m + 2 <= r.len() {
            lemma_gn_decode_shift(a, r, pats, m + 2);
        }
        if m + 3 < r.len() {
            assert(e[k + 3] == r[m + 3]);
        }
        if m + 4 <= r.len() {
            lemma_gn_decode_shift(a, r, pats, m + 4);
        }
        assert(k + 1 == a.len() + (m + 1));
        assert(k + 2 == a.len() + (m + 2));
        assert(k + 4 == a.len() + (m + 4));
    }
}

/// A vocabulary match names the entry whose bytes it covers.
proof fn lemma_match_here_piece(prefix: usize, pats: Seq<Seq<u8>>, buf: Seq<u8>, pos: int)
    requires
        pats.len() <= 65535,
        match_here(prefix, pats, buf, pos) is Some,
    ensures
        match_here(prefix, pats, buf, pos) matches Some((id, l)) && 1 <= id <= pats.len()
            && vocab_piece(pats, id as int) == buf.subrange(pos, pos + l),
{
    let key = key_at(prefix, buf, pos);
    let j = choose|j: int| #[trigger] vocab_chosen(prefix, pats, buf, pos, key, j);
    assert(vocab_chosen(prefix, pats, buf, pos, key, j));
    assert(vocab_id(j) == j + 1);
}

/// Decoding the bytes of one scan step, then anything, gives the step's
/// input bytes, then the decoding of the rest.
proof fn lemma_gn_step_decode(prefix: usize, pats: Seq<Seq<u8>>, buf: Seq<u8>, pos: int, u8_only: bool, rest: Seq<u8>)
    requires
        0 <= pos < buf.len(),
        pats.len() <= 65535,
    ensures
        gn_decode_from(gn_step(prefix, pats, buf, pos, u8_only).0 + rest, pats, 0)
            == buf.subrange(pos, pos + gn_step(prefix, pats, buf, pos, u8_only).1) + gn_decode_from(rest, pats, 0),
{
    let st = gn_step(prefix, pats, buf, pos, u8_only);
    let e = st.0 + rest;
    lemma_gn_step_adv(prefix, pats, buf, pos, u8_only);
    lemma_gn_decode_shift(st.0, rest, pats, 0);
    assert(e[0] == st.0[0]);
    if st.0.len() >= 2 {
        assert(e[1] == st.0[1]);
    }
    if st.0.len() >= 3 {
        assert(e[2] == st.0[2]);
    }
    if st.0.len() >= 4 {
        assert(e[3] == st.0[3]);
    }
    if st.0.len() == 1 {
        assert(buf[pos] != ESCAPE);
        assert(st.1 == 1);
        assert(buf.subrange(pos, pos + 1) =~= seq![buf[pos]]);
    } else if buf[pos] == ESCAPE {
        assert(buf.subrange(pos, pos + 1) =~= seq![ESCAPE]);
    } else {
        lemma_match_here_piece(prefix, pats, buf, pos);
        let (id, l) = match_here(prefix, pats, buf, pos)->0;
        if id <= 254 {
            assert(st.0[1] == id as u8);
        } else {
            assert(!u8_only);
            assert(st.0[1] == 0xFFu8);
            assert((id as u8) as int + 256 * ((id >> 8u16) as u8) as int == id as int) by (bit_vector);
        }
    }
}

proof fn lemma_gn_decode_from(prefix: usize, pats: Seq<Seq<u8>>, buf: Seq<u8>, pos: int, u8_only: bool)
    requires
        0 <= pos <= buf.len(),
        pats.len() <= 65535,
    ensures
        gn_decode_from(gn_from(prefix, pats, buf, pos, u8_only), pats, 0) == buf.subrange(pos, buf.len() as int),
    decreases buf.len() - pos,
{
    if pos == buf.len() {
        assert(buf.subrange(pos, pos) =~= Seq::<u8>::empty());
    } else {
        let st = gn_step(prefix, pats, buf, pos, u8_only);
        lemma_gn_step_adv(prefix, pats, buf, pos, u8_only);
        lemma_gn_decode_from(prefix, pats, buf, pos + st.1, u8_only);
        lemma_gn_step_decode(prefix, pats, buf, pos, u8_only, gn_from(prefix, pats, buf, pos + st.1, u8_only));
        assert(buf.subrange(pos, pos + st.1) + buf.subrange(pos + st.1, buf.len() as int) =~= buf.subrange(pos, buf.len() as int));
    }
}

/// Decoding the greedy token bytes of a buffer with the same vocabulary
/// gives the buffer back, whenever every id the scan can write decodes to
/// its entry: vocabularies of at most 65535 entries.
pub proof fn lemma_gn_roundtrip(prefix: usize, pats: Seq<Seq<u8>>, buf: Seq<u8>, u8_only: bool)
    requires
        pats.len() <= 65535,
    ensures
        gn_decode_from(gn_from(prefix, pats, buf, 0, u8_only), pats, 0) == buf,
{
    lemma_gn_decode_from(prefix, pats, buf, 0, u8_only);
    assert(buf.subrange(0, buf.len() as int) =~= buf);
}

} // verus!
