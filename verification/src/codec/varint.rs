//! Variable-length integer encoding.
//!
//! Encodes unsigned integers using 7 bits per byte, least significant
//! group first. The high bit (0x80) signals "more bytes follow".
//! For example 300 encodes as `[0xAC, 0x02]`.

use vstd::prelude::*;
use vstd::slice::slice_subrange;

verus! {

/// Maximum bytes a u64 varint can occupy (ceil(64/7) = 10).
pub const MAX_VARINT_LEN: usize = 10;

/// The varint encoding of `v`: low 7-bit groups first, every byte but the
/// last carrying the continuation bit.
pub open spec fn varint_bytes(v: u64) -> Seq<u8>
    decreases v,
{
    if v >> 7u64 == 0 {
        seq![(v & 0x7f) as u8]
    } else {
        proof { lemma_shr7_decreases(v); }
        seq![((v & 0x7f) | 0x80) as u8] + varint_bytes(v >> 7u64)
    }
}

/// Shifting out a 7-bit group makes a nonzero remainder smaller.
pub proof fn lemma_shr7_decreases(v: u64)
    ensures
        v >> 7u64 != 0 ==> v >> 7u64 < v,
        v >> 7u64 <= v,
{
    assert(v >> 7u64 != 0 ==> v >> 7u64 < v) by (bit_vector);
    assert(v >> 7u64 <= v) by (bit_vector);
}

/// Value of a little-endian sequence of 7-bit groups (continuation bits
/// ignored), reduced modulo 2^64 as a `u64` holds it.
pub open spec fn groups_value(s: Seq<u8>) -> u64
    decreases s.len(),
{
    if s.len() == 0 {
        0
    } else {
        (groups_value(s.drop_first()) << 7u64) | ((s[0] & 0x7f) as u64)
    }
}

/// `k` ends a varint that starts at `pos`: bytes `pos..k` carry the
/// continuation bit and byte `k` does not.
pub open spec fn varint_end(data: Seq<u8>, pos: int, k: int) -> bool {
    &&& 0 <= pos <= k < data.len()
    &&& data[k] < 0x80
    &&& forall|j: int| pos <= j < k ==> data[j] >= 0x80
}

/// What `decode(data, pos)` yields: `Some((value, next_pos))` when a varint of
/// at most ten bytes starts at `pos`, `None` when the data ends first or the
/// continuation bits run past ten bytes.
pub open spec fn decode_spec(data: Seq<u8>, pos: int) -> Option<(u64, int)> {
    if exists|k: int| varint_end(data, pos, k) && k - pos < 10 {
        let k = choose|k: int| varint_end(data, pos, k) && k - pos < 10;
        Some((groups_value(data.subrange(pos, k + 1)), k + 1))
    } else {
        None
    }
}

/// A varint starting at `pos` ends at one place only.
pub proof fn lemma_varint_end_unique(data: Seq<u8>, pos: int, k1: int, k2: int)
    requires
        varint_end(data, pos, k1),
        varint_end(data, pos, k2),
    ensures
        k1 == k2,
{
    if k1 < k2 {
        assert(data[k1] >= 0x80);
    } else if k2 < k1 {
        assert(data[k2] >= 0x80);
    }
}

/// Appending one group to a sequence of at most nine groups ORs it in at
/// the next 7-bit position.
pub proof fn lemma_groups_value_push(s: Seq<u8>, b: u8)
    requires
        s.len() <= 9,
    ensures
        groups_value(s.push(b)) == groups_value(s) | (((b & 0x7f) as u64) << ((7 * s.len()) as u64)),
    decreases s.len(),
{
    let g = (b & 0x7f) as u64;
    if s.len() == 0 {
        assert(s.push(b).drop_first() =~= Seq::<u8>::empty());
        assert(groups_value(Seq::<u8>::empty()) == 0);
        assert(groups_value(s) == 0);
        assert(s.push(b)[0] == b);
        assert(((7 * s.len()) as u64) == 0u64);
        assert(((0u64 << 7u64) | g) == (0u64 | (g << 0u64))) by (bit_vector);
    } else {
        let t = s.drop_first();
        assert(s.push(b).drop_first() =~= t.push(b));
        lemma_groups_value_push(t, b);
        let a = groups_value(t);
        let k = (7 * t.len()) as u64;
        let g0 = (s[0] & 0x7f) as u64;
        assert(s.push(b)[0] == s[0]);
        assert(((7 * s.len()) as u64) == ((k + 7) as u64));
        assert((((a | (g << k)) << 7u64) | g0) == (((a << 7u64) | g0) | (g << ((k + 7) as u64))))
            by (bit_vector)
            requires
                k <= 56,
        ;
    }
}

/// Every byte of `varint_bytes(v)` but the last carries the continuation
/// bit, the last does not, there are at most ten, and their groups give `v`.
pub proof fn lemma_varint_bytes_shape(v: u64)
    ensures
        1 <= varint_bytes(v).len() <= 10,
        varint_bytes(v).last() < 0x80,
        forall|j: int| 0 <= j < varint_bytes(v).len() - 1 ==> varint_bytes(v)[j] >= 0x80,
        groups_value(varint_bytes(v)) == v,
        v >> 63u64 != 0 ==> varint_bytes(v).len() == 10,
        varint_bytes(v).len() <= 9 ==> v >> ((7 * varint_bytes(v).len()) as u64) == 0,
    decreases v,
{
    let s = varint_bytes(v);
    assert(v & 0x7f <= 0x7f) by (bit_vector);
    assert(((v & 0x7f) as u8) < 0x80) by (bit_vector);
    assert((((v & 0x7f) | 0x80) as u8) >= 0x80) by (bit_vector);
    assert(((((v & 0x7f) | 0x80) as u8) & 0x7f) as u64 == v & 0x7f) by (bit_vector);
    assert(((((v & 0x7f) as u8) & 0x7f) as u64) == v & 0x7f) by (bit_vector);
    if v >> 7u64 == 0 {
        assert(s.drop_first() =~= Seq::<u8>::empty());
        assert(groups_value(Seq::<u8>::empty()) == 0);
        assert(s[0] == (v & 0x7f) as u8);
        assert(v >> 7u64 == 0 ==> ((0u64 << 7u64) | (v & 0x7f)) == v) by (bit_vector);
        assert(v >> 7u64 == 0 ==> v >> 63u64 == 0) by (bit_vector);
    } else {
        lemma_shr7_decreases(v);
        let w = v >> 7u64;
        lemma_varint_bytes_shape(w);
        let t = varint_bytes(w);
        assert(s.drop_first() =~= t);
        assert(((w << 7u64) | (v & 0x7f)) == v) by (bit_vector)
            requires
                w == v >> 7u64,
        ;
        assert(v >> 63u64 != 0 ==> w >> 56u64 != 0) by (bit_vector)
            requires
                w == v >> 7u64,
        ;
        // length bookkeeping: w needs at most nine groups
        assert(w >> 57u64 == 0) by (bit_vector)
            requires
                w == v >> 7u64,
        ;
        assert(w >> 63u64 == 0) by (bit_vector)
            requires
                w >> 57u64 == 0,
        ;
        assert(((7 * 9nat) as u64) == 63u64);
        lemma_len_at_most(w, 9);
        if t.len() <= 8 {
            let k = (7 * t.len()) as u64;
            assert(w >> k == 0 ==> v >> ((k + 7) as u64) == 0) by (bit_vector)
                requires
                    w == v >> 7u64,
                    k <= 56,
            ;
        }
        if v >> 63u64 != 0 {
            lemma_len_lower(w);
        }
    }
}

/// A value below 2^(7k) needs at most k groups.
proof fn lemma_len_at_most(v: u64, k: nat)
    requires
        1 <= k <= 9,
        v >> ((7 * k) as u64) == 0,
    ensures
        varint_bytes(v).len() <= k,
    decreases k,
{
    if v >> 7u64 != 0 {
        lemma_shr7_decreases(v);
        let w = v >> 7u64;
        assert(varint_bytes(v).drop_first() =~= varint_bytes(w));
        if k == 1 {
            assert(false);
        } else {
            let kk = (7 * k) as u64;
            assert(w >> ((kk - 7) as u64) == 0) by (bit_vector)
                requires
                    w == v >> 7u64,
                    v >> kk == 0,
                    7 <= kk <= 63,
            ;
            lemma_len_at_most(w, (k - 1) as nat);
        }
    }
}

/// A value of at least 2^56 needs at least nine groups.
proof fn lemma_len_lower(w: u64)
    requires
        w >> 56u64 != 0,
    ensures
        varint_bytes(w).len() >= 9,
{
    lemma_len_at_least(w, 8);
}

/// A value of at least 2^(7k) needs more than k groups.
proof fn lemma_len_at_least(v: u64, k: nat)
    requires
        k <= 8,
        v >> ((7 * k) as u64) != 0,
    ensures
        varint_bytes(v).len() >= k + 1,
    decreases k,
{
    if k > 0 {
        let kk = (7 * k) as u64;
        assert(v >> 7u64 != 0) by (bit_vector)
            requires
                v >> kk != 0,
                7 <= kk <= 56,
        ;
        lemma_shr7_decreases(v);
        let w = v >> 7u64;
        assert(varint_bytes(v).drop_first() =~= varint_bytes(w));
        assert(w >> ((kk - 7) as u64) != 0) by (bit_vector)
            requires
                w == v >> 7u64,
                v >> kk != 0,
                7 <= kk <= 56,
        ;
        lemma_len_at_least(w, (k - 1) as nat);
    }
}

/// Stack-allocated varint output. Zero heap allocation.
pub struct VarintBuf {
    data: [u8; MAX_VARINT_LEN],
    len: usize,
}

impl View for VarintBuf {
    type V = Seq<u8>;

    closed spec fn view(&self) -> Seq<u8> {
        self.data@.subrange(0, self.len as int)
    }
}

impl VarintBuf {
    pub closed spec fn wf(&self) -> bool {
        self.len <= MAX_VARINT_LEN
    }

    /// The encoded bytes.
    pub fn as_slice(&self) -> (r: &[u8])
        requires
            self.wf(),
        ensures
            r@ == self@,
    {
        slice_subrange(self.data.as_slice(), 0, self.len)
    }

    /// Number of encoded bytes.
    pub fn len(&self) -> (r: usize)
        requires
            self.wf(),
        ensures
            r == self@.len(),
    {
        self.len
    }
}

/// Encode a u64 into a stack-allocated VarintBuf. Zero allocation.
pub fn encode_stack(value: u64) -> (buf: VarintBuf)
    ensures
        buf.wf(),
        buf@ == varint_bytes(value),
{
    let mut buf = VarintBuf { data: [0u8; MAX_VARINT_LEN], len: 0 };
    let mut value = value;
    let ghost orig = value;
    assert(orig >> 0u64 == orig) by (bit_vector);
    loop
        invariant_except_break
            buf.len <= 9,
            value == orig >> ((7 * buf.len) as u64),
            buf.len == 9 ==> value <= 1,
            buf@ + varint_bytes(value) == varint_bytes(orig),
        ensures
            buf.len <= MAX_VARINT_LEN,
            buf@ == varint_bytes(orig),
        decreases value,
    {
        let byte = (value & 0x7F) as u8;
        let ghost old_value = value;
        let ghost old_len = buf.len;
        let ghost old_view = buf@;
        proof {
            lemma_shr7_decreases(value);
            let k = (7 * buf.len) as u64;
            if buf.len < 9 {
                assert((orig >> k) >> 7u64 == orig >> ((k + 7) as u64)) by (bit_vector)
                    requires k <= 56;
                assert(k == 56 ==> orig >> ((k + 7) as u64) <= 1) by (bit_vector);
            }
            assert(value & 0x7f <= 0x7f) by (bit_vector);
            assert(value <= 1 ==> value >> 7u64 == 0) by (bit_vector);
        }
        value = value >> 7;
        if value == 0 {
            buf.data[buf.len] = byte;
            buf.len = buf.len + 1;
            assert(buf@ =~= old_view + seq![byte]);
            assert(varint_bytes(old_value) == seq![byte]);
            break;
        } else {
            let b = byte | 0x80;
            assert(b == ((old_value & 0x7f) | 0x80) as u8) by (bit_vector)
                requires byte == (old_value & 0x7f) as u8, b == byte | 0x80;
            buf.data[buf.len] = b;
            buf.len = buf.len + 1;
            assert(buf@ =~= old_view + seq![b]);
            assert(varint_bytes(old_value) == seq![b] + varint_bytes(value));
            assert(buf@ + varint_bytes(value) =~= old_view + varint_bytes(old_value));
        }
    }
    buf
}

/// Encode a u64 varint, appending to an existing Vec<u8>.
pub fn encode(value: u64, out: &mut Vec<u8>)
    ensures
        final(out)@ == old(out)@ + varint_bytes(value),
{
    let buf = encode_stack(value);
    let bytes = buf.as_slice();
    let ghost start = out@;
    let mut i: usize = 0;
    while i < bytes.len()
        invariant
            i <= bytes@.len(),
            bytes@ == varint_bytes(value),
            out@ == start + bytes@.subrange(0, i as int),
        decreases bytes@.len() - i,
    {
        out.push(bytes[i]);
        i = i + 1;
        assert(out@ =~= start + bytes@.subrange(0, i as int));
    }
    assert(bytes@.subrange(0, i as int) =~= bytes@);
}

/// `format!` of the position in decimal.
#[verifier::external_body]
fn end_of_data_message(cur: usize) -> (m: String)
    ensures
        m@ == "varint: unexpected end of data at pos "@ + crate::text::decimal(cur as nat),
{
    format!("varint: unexpected end of data at pos {cur}")
}

/// Decode a varint from `data` starting at `pos`.
/// Returns `(value, new_pos)`, or an error when the data ends before the
/// varint does or the varint runs past ten bytes.
pub fn decode(data: &[u8], pos: usize) -> (r: Result<(u64, usize), String>)
    ensures
        match decode_spec(data@, pos as int) {
            Some((v, e)) => r == Ok::<(u64, usize), String>((v, e as usize)),
            None => r is Err,
        },
{
    let mut value: u64 = 0;
    let mut shift: u32 = 0;
    let mut cur = pos;
    loop
        invariant
            pos <= cur,
            cur - pos <= 10,
            shift == 7 * (cur - pos),
            cur <= pos || cur <= data@.len(),
            forall|j: int| pos <= j < cur ==> data@[j] >= 0x80,
            cur > pos ==> value == groups_value(data@.subrange(pos as int, cur as int)),
            cur == pos ==> value == 0,
        decreases 11 - (cur - pos),
    {
        if cur >= data.len() {
            proof {
                if exists|k: int| varint_end(data@, pos as int, k) && k - pos < 10 {
                    let k = choose|k: int| varint_end(data@, pos as int, k) && k - pos < 10;
                    assert(data@[k] >= 0x80);
                }
            }
            return Err(end_of_data_message(cur));
        }
        if shift >= 64 {
            proof {
                if exists|k: int| varint_end(data@, pos as int, k) && k - pos < 10 {
                    let k = choose|k: int| varint_end(data@, pos as int, k) && k - pos < 10;
                    assert(data@[k] >= 0x80);
                }
            }
            return Err(String::from_str("varint: overflow (>64 bits)"));
        }
        let byte = data[cur] as u64;
        let ghost old_value = value;
        let ghost sub = data@.subrange(pos as int, cur as int);
        proof {
            let b = data@[cur as int];
            lemma_groups_value_push(sub, b);
            assert(data@.subrange(pos as int, cur + 1) =~= sub.push(b));
            if cur == pos {
                assert(sub =~= Seq::<u8>::empty());
            }
            assert(((b & 0x7f) as u64) == (byte & 0x7F)) by (bit_vector)
                requires
                    byte == b as u64,
            ;
            assert((byte & 0x80 == 0) == (b < 0x80)) by (bit_vector)
                requires
                    byte == b as u64,
            ;
        }
        cur = cur + 1;
        value = value | ((byte & 0x7F) << shift);
        shift = shift + 7;
        if byte & 0x80 == 0 {
            proof {
                let k = cur - 1;
                assert(varint_end(data@, pos as int, k as int));
                let kk = choose|k: int| varint_end(data@, pos as int, k) && k - pos < 10;
                lemma_varint_end_unique(data@, pos as int, k as int, kk);
            }
            return Ok((value, cur));
        }
    }
}

/// Decoding the encoding of `v` at its start gives `v` back and stops right
/// after it, whatever bytes surround it.
pub proof fn lemma_encode_decode_roundtrip(prefix: Seq<u8>, v: u64, suffix: Seq<u8>)
    ensures
        decode_spec(prefix + varint_bytes(v) + suffix, prefix.len() as int)
            == Some((v, (prefix.len() + varint_bytes(v).len()) as int)),
{
    let enc = varint_bytes(v);
    let data = prefix + enc + suffix;
    let pos = prefix.len() as int;
    lemma_varint_bytes_shape(v);
    let k = pos + enc.len() - 1;
    assert forall|j: int| pos <= j < k implies data[j] >= 0x80 by {
        assert(data[j] == enc[j - pos]);
    }
    assert(data[k] == enc[enc.len() - 1]);
    assert(varint_end(data, pos, k));
    let kk = choose|k: int| varint_end(data, pos, k) && k - pos < 10;
    lemma_varint_end_unique(data, pos, k, kk);
    assert(data.subrange(pos, k + 1) =~= enc);
}

} // verus!
