//! Byte-level LZ77 back-references over codon token streams.
//!
//! A back-reference is `BACKREF_ESCAPE, len - 3, offset low, offset high`:
//! copy `len` bytes starting `offset` bytes back in the output. The
//! compressor only starts references where no token pair is split (the
//! byte before is not ESCAPE) and stops a match before it would end inside
//! a token pair. Candidates come from a table of the last position seen
//! with each 4-byte hash.

use vstd::prelude::*;
use vstd::slice::slice_to_vec;

verus! {

pub const ESCAPE: u8 = 0x01;
pub const BACKREF_ESCAPE: u8 = 0x02;
pub const MIN_MATCH: usize = 6;
/// The longest back-reference: its length byte holds the length less 3.
pub const MAX_MATCH: usize = 258;
pub const WINDOW_SIZE: usize = 32768;
pub const HASH_SIZE: usize = 65536;

/// A reference may start at `pos`: it does not follow an ESCAPE.
pub open spec fn boundary(input: Seq<u8>, pos: int) -> bool {
    pos == 0 || input[pos - 1] != ESCAPE
}

/// The hash-table slot of the four bytes `v` (little endian).
pub open spec fn hash4_spec(v: u32) -> int {
    ((((v as int * 2654435761) % 0x1_0000_0000) as u32) >> 16u32) as int
}

/// The key of the four bytes at `input[pos..]`.
pub open spec fn key4(input: Seq<u8>, pos: int) -> u32 {
    crate::bytes::le32_value(input.subrange(pos, pos + 4))
}

/// The table before the scan: every slot empty.
pub open spec fn empty_table() -> Seq<u32> {
    Seq::new(HASH_SIZE as nat, |h: int| u32::MAX)
}

/// The length of the match between `input[prev..]` and `input[pos..]`,
/// counted from `ml`, at most `max_len`, and cut back by one byte when it
/// would end right after an ESCAPE at `pos`'s side.
pub open spec fn br_match(input: Seq<u8>, prev: int, pos: int, max_len: int, ml: int) -> int
    decreases max_len - ml,
{
    if ml >= max_len || input[prev + ml] != input[pos + ml] {
        ml
    } else if ml >= 1 && input[pos + ml - 1] == ESCAPE {
        ml
    } else {
        br_match(input, prev, pos, max_len, ml + 1)
    }
}

/// The bytes of a back-reference.
pub open spec fn backref_bytes(ml: int, offset: int) -> Seq<u8> {
    seq![BACKREF_ESCAPE, ((ml - 3) % 256) as u8, (offset % 256) as u8, (offset / 256) as u8]
}

/// One step of the compressor at `pos` with hash table `table`: the bytes
/// written, the number of input bytes consumed, and the table after.
pub open spec fn br_step(input: Seq<u8>, pos: int, table: Seq<u32>) -> (Seq<u8>, int, Seq<u32>) {
    let n = input.len() as int;
    if !boundary(input, pos) || pos + 4 > n {
        (seq![input[pos]], 1, table)
    } else {
        let h = hash4_spec(key4(input, pos));
        let prev = table[h] as int;
        let t2 = table.update(h, pos as u32);
        if prev != u32::MAX as int && prev < pos && pos - prev <= WINDOW_SIZE && boundary(input, prev) {
            let max_len = if n - pos < MAX_MATCH { n - pos } else { MAX_MATCH as int };
            let ml = br_match(input, prev, pos, max_len, 0);
            if ml >= MIN_MATCH {
                (backref_bytes(ml, pos - prev), ml, t2)
            } else {
                (seq![input[pos]], 1, t2)
            }
        } else {
            (seq![input[pos]], 1, t2)
        }
    }
}

proof fn lemma_br_match_bound(input: Seq<u8>, prev: int, pos: int, max_len: int, ml: int)
    requires
        0 <= ml <= max_len,
    ensures
        ml <= br_match(input, prev, pos, max_len, ml) <= max_len,
    decreases max_len - ml,
{
    if !(ml >= max_len || input[prev + ml] != input[pos + ml]) && !(ml >= 1 && input[pos + ml - 1] == ESCAPE) {
        lemma_br_match_bound(input, prev, pos, max_len, ml + 1);
    }
}

/// A compressor step consumes at least one byte and stays within the input.
pub proof fn lemma_br_step(input: Seq<u8>, pos: int, table: Seq<u32>)
    requires
        0 <= pos < input.len(),
        table.len() == HASH_SIZE,
    ensures
        1 <= br_step(input, pos, table).1,
        pos + br_step(input, pos, table).1 <= input.len(),
        br_step(input, pos, table).2.len() == HASH_SIZE,
        br_step(input, pos, table).1 <= MAX_MATCH,
{
    let n = input.len() as int;
    if boundary(input, pos) && pos + 4 <= n {
        let max_len = if n - pos < MAX_MATCH { n - pos } else { MAX_MATCH as int };
        let prev = table[hash4_spec(key4(input, pos))] as int;
        lemma_br_match_bound(input, prev, pos, max_len, 0);
        assert(hash4_spec(key4(input, pos)) < HASH_SIZE) by {
            let v = key4(input, pos);
            let m = ((v as int * 2654435761) % 0x1_0000_0000) as u32;
            assert(m >> 16u32 <= 0xFFFFu32) by (bit_vector);
        }
    }
}

/// The compressed bytes of `input[pos..]` from table `table` on.
pub open spec fn br_from(input: Seq<u8>, pos: int, table: Seq<u32>) -> Seq<u8>
    decreases input.len() - pos,
{
    if pos < 0 || pos >= input.len() || table.len() != HASH_SIZE {
        Seq::empty()
    } else {
        let st = br_step(input, pos, table);
        proof {
            lemma_br_step(input, pos, table);
        }
        st.0 + br_from(input, pos + st.1, st.2)
    }
}

/// The compressed form of `input`: inputs shorter than MIN_MATCH are kept
/// as they are.
pub open spec fn compress_spec(input: Seq<u8>) -> Seq<u8> {
    if input.len() < MIN_MATCH {
        input
    } else {
        br_from(input, 0, empty_table())
    }
}

fn hash4(input: &[u8], pos: usize) -> (h: usize)
    requires
        pos + 4 <= input@.len(),
    ensures
        h as int == hash4_spec(key4(input@, pos as int)),
        h < HASH_SIZE,
{
    let v = crate::bytes::read_le32(input, pos);
    let m = v.wrapping_mul(2654435761u32);
    let h = ((m >> 16) as usize) & (HASH_SIZE - 1);
    proof {
        assert(((m >> 16u32) as usize) & 0xFFFFusize == (m >> 16u32) as usize) by (bit_vector);
        assert(m >> 16u32 <= 0xFFFFu32) by (bit_vector);
    }
    h
}

fn match_len(input: &[u8], prev: usize, pos: usize, max_len: usize) -> (ml: usize)
    requires
        prev < pos,
        pos + max_len <= input@.len(),
    ensures
        ml as int == br_match(input@, prev as int, pos as int, max_len as int, 0),
{
    let len = input.len();
    let mut ml: usize = 0;
    while ml < max_len
        invariant
            len == input@.len(),
            prev < pos,
            pos + max_len <= input@.len(),
            ml <= max_len,
            br_match(input@, prev as int, pos as int, max_len as int, 0) == br_match(input@, prev as int, pos as int, max_len as int, ml as int),
        decreases max_len - ml,
    {
        if input[prev + ml] != input[pos + ml] {
            return ml;
        }
        ml = ml + 1;
        if ml >= 2 && input[pos + ml - 2] == ESCAPE {
            ml = ml - 1;
            return ml;
        }
    }
    ml
}

/// Append a back-reference of `match_len` bytes, `offset` bytes back.
fn encode_backref(out: &mut Vec<u8>, match_len: usize, offset: usize)
    requires
        3 <= match_len,
        offset < 0x10000,
    ensures
        final(out)@ == old(out)@ + backref_bytes(match_len as int, offset as int),
{
    let ghost start = out@;
    out.push(BACKREF_ESCAPE);
    out.push(((match_len - 3) % 256) as u8);
    out.push((offset % 256) as u8);
    out.push((offset / 256) as u8);
    assert(out@ =~= start + backref_bytes(match_len as int, offset as int));
}

/// Whether a reference may start at `pos`.
fn is_boundary(data: &[u8], pos: usize) -> (b: bool)
    requires
        pos < data@.len(),
    ensures
        b == boundary(data@, pos as int),
{
    if pos == 0 {
        return true;
    }
    data[pos - 1] != ESCAPE
}

/// Replace repeated runs of `input` by back-references.
pub fn compress(input: &[u8]) -> (out: Vec<u8>)
    ensures
        out@ == compress_spec(input@),
{
    let n = input.len();
    if n < MIN_MATCH {
        return slice_to_vec(input);
    }
    let mut out: Vec<u8> = Vec::new();
    let mut table: Vec<u32> = Vec::new();
    let mut t: usize = 0;
    while t < HASH_SIZE
        invariant
            t <= HASH_SIZE,
            table@.len() == t,
            forall|h: int| 0 <= h < t ==> table@[h] == u32::MAX,
        decreases HASH_SIZE - t,
    {
        table.push(u32::MAX);
        t = t + 1;
    }
    proof {
        assert(table@ =~= empty_table());
    }
    let mut pos: usize = 0;
    while pos < n
        invariant
            n == input@.len(),
            n >= MIN_MATCH,
            pos <= n,
            table@.len() == HASH_SIZE,
            br_from(input@, 0, empty_table()) == out@ + br_from(input@, pos as int, table@),
        decreases n - pos,
    {
        let ghost st = br_step(input@, pos as int, table@);
        let ghost before = out@;
        proof {
            lemma_br_step(input@, pos as int, table@);
        }
        if !is_boundary(input, pos) || n - pos < 4 {
            out.push(input[pos]);
            pos = pos + 1;
        } else {
            let h = hash4(input, pos);
            let prev = table[h] as usize;
            table.set(h, pos as u32);
            if prev != u32::MAX as usize && prev < pos && pos - prev <= WINDOW_SIZE && is_boundary(input, prev) {
                let offset = pos - prev;
                let max_len = if n - pos < MAX_MATCH { n - pos } else { MAX_MATCH };
                let ml = match_len(input, prev, pos, max_len);
                if ml >= MIN_MATCH {
                    encode_backref(&mut out, ml, offset);
                    pos = pos + ml;
                } else {
                    out.push(input[pos]);
                    pos = pos + 1;
                }
            } else {
                out.push(input[pos]);
                pos = pos + 1;
            }
        }
        proof {
            assert(out@ == before + st.0);
            assert(table@ == st.2);
        }
    }
    proof {
        assert(out@ + Seq::<u8>::empty() =~= out@);
    }
    out
}

// ---------------------------------------------------------------------------
// Decompression
// ---------------------------------------------------------------------------

/// Append `k` bytes to `acc`, the t-th copied from position `start + t` of
/// the growing output (so a copy may overlap what it writes).
pub open spec fn copy_run(acc: Seq<u8>, start: int, k: int) -> Seq<u8>
    decreases k,
{
    if k <= 0 {
        acc
    } else {
        copy_run(acc.push(acc[start]), start + 1, k - 1)
    }
}

/// The length a back-reference at `pos` copies.
pub open spec fn ref_len(input: Seq<u8>, pos: int) -> int {
    input[pos + 1] + 3
}

/// How far back a back-reference at `pos` copies from.
pub open spec fn ref_offset(input: Seq<u8>, pos: int) -> int {
    input[pos + 2] + input[pos + 3] * 256
}

/// Where a copy of offset `off` starts in an output of length `len`.
pub open spec fn ref_start(len: int, off: int) -> int {
    if off <= len { len - off } else { 0 }
}

/// The decompression of `input[pos..]` appended to the output `acc`. A
/// back-reference marker with fewer than three bytes after it is copied
/// through as it is.
pub open spec fn br_decode(input: Seq<u8>, pos: int, acc: Seq<u8>) -> Seq<u8>
    decreases input.len() - pos,
{
    if pos < 0 || pos >= input.len() {
        acc
    } else if input[pos] == BACKREF_ESCAPE {
        if pos + 3 >= input.len() {
            acc + input.subrange(pos, input.len() as int)
        } else {
            br_decode(input, pos + 4, copy_run(acc, ref_start(acc.len() as int, ref_offset(input, pos)), ref_len(input, pos)))
        }
    } else {
        br_decode(input, pos + 1, acc.push(input[pos]))
    }
}

/// Every back-reference in `input[pos..]` copies from bytes already
/// written: its offset is not zero and the output so far (of length `len`)
/// is not empty.
pub open spec fn br_decode_ok(input: Seq<u8>, pos: int, len: int) -> bool
    decreases input.len() - pos,
{
    if pos < 0 || pos >= input.len() {
        true
    } else if input[pos] == BACKREF_ESCAPE {
        if pos + 3 >= input.len() {
            true
        } else {
            ref_offset(input, pos) > 0 && len > 0 && br_decode_ok(input, pos + 4, len + ref_len(input, pos))
        }
    } else {
        br_decode_ok(input, pos + 1, len + 1)
    }
}

proof fn lemma_copy_run_len(acc: Seq<u8>, start: int, k: int)
    ensures
        copy_run(acc, start, k).len() == acc.len() + if k < 0 { 0 } else { k },
    decreases k,
{
    if k > 0 {
        lemma_copy_run_len(acc.push(acc[start]), start + 1, k - 1);
    }
}

/// Expand back-references.
pub fn decompress(input: &[u8]) -> (out: Vec<u8>)
    requires
        br_decode_ok(input@, 0, 0),
    ensures
        out@ == br_decode(input@, 0, Seq::empty()),
{
    let n = input.len();
    let mut out: Vec<u8> = Vec::new();
    let mut pos: usize = 0;
    while pos < n
        invariant_except_break
            br_decode(input@, 0, Seq::empty()) == br_decode(input@, pos as int, out@),
            br_decode_ok(input@, pos as int, out@.len() as int),
        invariant
            n == input@.len(),
            pos <= n,
        ensures
            br_decode(input@, 0, Seq::empty()) == out@,
        decreases n - pos,
    {
        if input[pos] == BACKREF_ESCAPE {
            if n - pos <= 3 {
                let ghost acc = out@;
                let mut t: usize = pos;
                while t < n
                    invariant
                        n == input@.len(),
                        pos <= t <= n,
                        out@ == acc + input@.subrange(pos as int, t as int),
                    decreases n - t,
                {
                    out.push(input[t]);
                    proof {
                        assert(input@.subrange(pos as int, t + 1) =~= input@.subrange(pos as int, t as int).push(input@[t as int]));
                    }
                    t = t + 1;
                }
                break;
            }
            let ml = input[pos + 1] as usize + 3;
            let offset = input[pos + 2] as usize + (input[pos + 3] as usize) * 256;
            let start = if offset <= out.len() { out.len() - offset } else { 0 };
            let ghost acc0 = out@;
            let mut i: usize = 0;
            while i < ml
                invariant
                    ml as int == ref_len(input@, pos as int),
                    start < acc0.len(),
                    out@.len() == acc0.len() + i,
                    i <= ml,
                    copy_run(acc0, start as int, ml as int) == copy_run(out@, start + i, ml - i),
                decreases ml - i,
            {
                let cur = out.len();
                assert(start + i < cur);
                let b = out[start + i];
                out.push(b);
                i = i + 1;
            }
            pos = pos + 4;
        } else {
            out.push(input[pos]);
            pos = pos + 1;
        }
    }
    out
}

// ---------------------------------------------------------------------------
// Round trip
// ---------------------------------------------------------------------------

proof fn lemma_br_match_eq(input: Seq<u8>, prev: int, pos: int, max_len: int, ml: int)
    requires
        0 <= ml <= max_len,
    ensures
        forall|t: int| ml <= t < br_match(input, prev, pos, max_len, ml) ==> #[trigger] input[prev + t] == input[pos + t],
    decreases max_len - ml,
{
    if !(ml >= max_len || input[prev + ml] != input[pos + ml]) && !(ml >= 1 && input[pos + ml - 1] == ESCAPE) {
        lemma_br_match_eq(input, prev, pos, max_len, ml + 1);
    }
}

proof fn lemma_copy_run_repeat(input: Seq<u8>, p: int, s: int, k: int)
    requires
        0 <= s < p,
        0 <= k,
        p + k <= input.len(),
        forall|t: int| 0 <= t < k ==> #[trigger] input[s + t] == input[p + t],
    ensures
        copy_run(input.take(p), s, k) == input.take(p + k),
    decreases k,
{
    if k > 0 {
        assert(input[s + 0] == input[p + 0]);
        assert(input.take(p).push(input.take(p)[s]) =~= input.take(p + 1));
        assert forall|t: int| 0 <= t < k - 1 implies #[trigger] input[(s + 1) + t] == input[(p + 1) + t] by {
            assert(input[s + (t + 1)] == input[p + (t + 1)]);
        }
        lemma_copy_run_repeat(input, p + 1, s + 1, k - 1);
    }
}

/// Decoding past a prefix `a` is decoding the rest.
proof fn lemma_br_decode_shift(a: Seq<u8>, r: Seq<u8>, m: int, acc: Seq<u8>, len: int)
    requires
        0 <= m,
    ensures
        br_decode(a + r, a.len() + m, acc) == br_decode(r, m, acc),
        br_decode_ok(a + r, a.len() + m, len) == br_decode_ok(r, m, len),
    decreases r.len() - m,
{
    let e = a + r;
    let k = a.len() + m;
    if m < r.len() {
        assert(e[k] == r[m]);
        if m + 3 < r.len() {
            assert(e[k + 1] == r[m + 1] && e[k + 2] == r[m + 2] && e[k + 3] == r[m + 3]);
            assert(k + 4 == a.len() + (m + 4));
            let acc2 = copy_run(acc, ref_start(acc.len() as int, ref_offset(r, m)), ref_len(r, m));
            lemma_br_decode_shift(a, r, m + 4, acc2, len + ref_len(r, m));
        } else {
            assert(e.subrange(k, e.len() as int) =~= r.subrange(m, r.len() as int));
        }
        assert(k + 1 == a.len() + (m + 1));
        lemma_br_decode_shift(a, r, m + 1, acc.push(r[m]), len + 1);
    }
}

/// Decoding one compressor step, then anything, extends the decoded
/// prefix of the input by the bytes the step consumed.
proof fn lemma_br_step_decode(input: Seq<u8>, pos: int, table: Seq<u32>, rest: Seq<u8>)
    requires
        0 <= pos < input.len(),
        table.len() == HASH_SIZE,
        !input.contains(BACKREF_ESCAPE),
        br_step(input, pos, table).1 <= 258,
    ensures
        br_decode(br_step(input, pos, table).0 + rest, 0, input.take(pos))
            == br_decode(rest, 0, input.take(pos + br_step(input, pos, table).1)),
        br_decode_ok(br_step(input, pos, table).0 + rest, 0, pos)
            == br_decode_ok(rest, 0, pos + br_step(input, pos, table).1),
{
    let st = br_step(input, pos, table);
    let e = st.0 + rest;
    lemma_br_step(input, pos, table);
    lemma_br_decode_shift(st.0, rest, 0, input.take(pos + st.1), pos + st.1);
    assert(e[0] == st.0[0]);
    if st.0.len() == 1 {
        assert(st.0[0] == input[pos]);
        assert(input[pos] != BACKREF_ESCAPE) by {
            if input[pos] == BACKREF_ESCAPE {
                assert(input.contains(BACKREF_ESCAPE));
            }
        }
        assert(input.take(pos).push(input[pos]) =~= input.take(pos + 1));
    } else {
        let n = input.len() as int;
        let h = hash4_spec(key4(input, pos));
        let prev = table[h] as int;
        let max_len = if n - pos < MAX_MATCH { n - pos } else { MAX_MATCH as int };
        let ml = br_match(input, prev, pos, max_len, 0);
        let off = pos - prev;
        assert(st.0 == backref_bytes(ml, off));
        assert(e[1] == st.0[1] && e[2] == st.0[2] && e[3] == st.0[3]);
        assert(ref_len(e, 0) == ml);
        assert(ref_offset(e, 0) == off);
        assert(ref_start(pos, off) == prev);
        lemma_br_match_bound(input, prev, pos, max_len, 0);
        lemma_br_match_eq(input, prev, pos, max_len, 0);
        lemma_copy_run_repeat(input, pos, prev, ml);
    }
}

proof fn lemma_br_roundtrip_from(input: Seq<u8>, pos: int, table: Seq<u32>)
    requires
        0 <= pos <= input.len(),
        table.len() == HASH_SIZE,
        !input.contains(BACKREF_ESCAPE),
    ensures
        br_decode(br_from(input, pos, table), 0, input.take(pos)) == input,
        br_decode_ok(br_from(input, pos, table), 0, pos),
    decreases input.len() - pos,
{
    if pos == input.len() {
        assert(input.take(pos) =~= input);
    } else {
        let st = br_step(input, pos, table);
        lemma_br_step(input, pos, table);
        lemma_br_roundtrip_from(input, pos + st.1, st.2);
        lemma_br_step_decode(input, pos, table, br_from(input, pos + st.1, st.2));
    }
}

/// Input without back-reference markers decodes to itself.
proof fn lemma_br_plain(input: Seq<u8>, pos: int)
    requires
        0 <= pos <= input.len(),
        !input.contains(BACKREF_ESCAPE),
    ensures
        br_decode(input, pos, input.take(pos)) == input,
        br_decode_ok(input, pos, pos),
    decreases input.len() - pos,
{
    if pos == input.len() {
        assert(input.take(pos) =~= input);
    } else {
        assert(input[pos] != BACKREF_ESCAPE) by {
            if input[pos] == BACKREF_ESCAPE {
                assert(input.contains(BACKREF_ESCAPE));
            }
        }
        assert(input.take(pos).push(input[pos]) =~= input.take(pos + 1));
        lemma_br_plain(input, pos + 1);
    }
}

proof fn lemma_br_from_len(input: Seq<u8>, pos: int, table: Seq<u32>)
    requires
        0 <= pos <= input.len(),
        table.len() == HASH_SIZE,
    ensures
        br_from(input, pos, table).len() <= input.len() - pos,
    decreases input.len() - pos,
{
    if pos < input.len() {
        let st = br_step(input, pos, table);
        lemma_br_step(input, pos, table);
        lemma_br_from_len(input, pos + st.1, st.2);
        assert(st.0.len() <= st.1);
    }
}

/// The compressed form is never longer than the input: a back-reference
/// of at least MIN_MATCH bytes is written in four.
pub proof fn lemma_compress_not_longer(input: Seq<u8>)
    ensures
        compress_spec(input).len() <= input.len(),
{
    if input.len() >= MIN_MATCH {
        assert(empty_table().len() == HASH_SIZE);
        lemma_br_from_len(input, 0, empty_table());
    }
}

/// Decompressing the compressed form gives the input back, for inputs
/// without back-reference markers; the compressed form is always safe to
/// decompress then.
pub proof fn lemma_backref_roundtrip(input: Seq<u8>)
    requires
        !input.contains(BACKREF_ESCAPE),
    ensures
        br_decode_ok(compress_spec(input), 0, 0),
        br_decode(compress_spec(input), 0, Seq::empty()) == input,
{
    assert(input.take(0) =~= Seq::<u8>::empty());
    if input.len() < MIN_MATCH {
        lemma_br_plain(input, 0);
    } else {
        assert(empty_table().len() == HASH_SIZE);
        lemma_br_roundtrip_from(input, 0, empty_table());
    }
}

} // verus!
