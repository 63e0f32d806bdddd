//! Frequency analysis and dictionary selection.

use vstd::prelude::*;
use vstd::slice::{slice_subrange, slice_to_vec};

verus! {

pub const MIN_STR_LEN: usize = 4;
pub const MAX_STR_LEN: usize = 128;
pub const MIN_FREQ: usize = 3;
pub const MAX_ENTRIES: usize = 200;
pub const TOKEN_BYTES: usize = 2;
pub const MAX_LENGTHS: usize = 24;

#[derive(Debug, Clone)]
pub struct DictEntry {
    pub bytes: Vec<u8>,
    pub freq: usize,
    pub saving: usize,
}

impl DictEntry {
    pub fn len(&self) -> (r: usize)
        ensures
            r == self.bytes@.len(),
    {
        self.bytes.len()
    }

    /// A copy of this entry.
    pub fn duplicate(&self) -> (r: DictEntry)
        ensures
            r.bytes@ == self.bytes@,
            r.freq == self.freq,
            r.saving == self.saving,
    {
        DictEntry { bytes: slice_to_vec(self.bytes.as_slice()), freq: self.freq, saving: self.saving }
    }
}

/// An entry as plain values: its bytes, frequency and saving.
pub open spec fn entry_view(e: DictEntry) -> (Seq<u8>, nat, nat) {
    (e.bytes@, e.freq as nat, e.saving as nat)
}

/// The plain values of a list of entries.
pub open spec fn entry_views(entries: Seq<DictEntry>) -> Seq<(Seq<u8>, nat, nat)> {
    entries.map_values(|e: DictEntry| entry_view(e))
}

/// The byte strings of a list of entries.
pub open spec fn entry_bytes(entries: Seq<DictEntry>) -> Seq<Seq<u8>> {
    entries.map_values(|e: DictEntry| e.bytes@)
}

// ---------------------------------------------------------------------------
// Residuals
// ---------------------------------------------------------------------------

/// The bytes of a tokenized buffer outside `ESCAPE x` pairs.
pub open spec fn residual_spec(s: Seq<u8>) -> Seq<u8>
    decreases s.len(),
{
    if s.len() == 0 {
        Seq::empty()
    } else if s[0] == crate::tokenizer::codon::ESCAPE && s.len() >= 2 {
        residual_spec(s.subrange(2, s.len() as int))
    } else {
        seq![s[0]] + residual_spec(s.drop_first())
    }
}

/// Extract non-token regions from a tokenized buffer: every `ESCAPE x`
/// pair is skipped, every other byte kept.
pub fn extract_residual(tokenized: &[u8]) -> (residual: Vec<u8>)
    ensures
        residual@ == residual_spec(tokenized@),
{
    let mut residual: Vec<u8> = Vec::new();
    let mut i: usize = 0;
    proof {
        assert(tokenized@.subrange(0, tokenized@.len() as int) =~= tokenized@);
        assert(residual@ + residual_spec(tokenized@) =~= residual_spec(tokenized@));
    }
    while i < tokenized.len()
        invariant
            i <= tokenized@.len(),
            residual@ + residual_spec(tokenized@.subrange(i as int, tokenized@.len() as int)) == residual_spec(tokenized@),
        decreases tokenized@.len() - i,
    {
        let ghost rest = tokenized@.subrange(i as int, tokenized@.len() as int);
        if tokenized[i] == crate::tokenizer::codon::ESCAPE && i + 1 < tokenized.len() {
            proof {
                assert(rest.subrange(2, rest.len() as int) =~= tokenized@.subrange(i + 2, tokenized@.len() as int));
            }
            i = i + 2;
        } else {
            let ghost r0 = residual@;
            residual.push(tokenized[i]);
            proof {
                assert(rest.drop_first() =~= tokenized@.subrange(i + 1, tokenized@.len() as int));
                assert(residual@ + residual_spec(rest.drop_first()) =~= r0 + residual_spec(rest));
            }
            i = i + 1;
        }
    }
    proof {
        assert(tokenized@.subrange(i as int, tokenized@.len() as int) =~= Seq::<u8>::empty());
        assert(residual@ + Seq::<u8>::empty() =~= residual@);
    }
    residual
}

// ---------------------------------------------------------------------------
// Dictionary header format
// ---------------------------------------------------------------------------

/// One serialized entry: its length byte, then its bytes.
pub open spec fn entry_record(b: Seq<u8>) -> Seq<u8> {
    seq![b.len() as u8] + b
}

/// The records of a list of entries, in order.
pub open spec fn entry_records(pats: Seq<Seq<u8>>) -> Seq<u8>
    decreases pats.len(),
{
    if pats.len() == 0 {
        Seq::empty()
    } else {
        entry_records(pats.drop_last()) + entry_record(pats.last())
    }
}

/// The dictionary header: the entry count (u16 little endian), then one
/// record per entry.
pub open spec fn serialize_spec(pats: Seq<Seq<u8>>) -> Seq<u8> {
    crate::bytes::le16_bytes(pats.len() as u16) + entry_records(pats)
}

/// Parse `count` records starting at `pos`: the entries and the position
/// after them, or `None` when the data ends inside.
pub open spec fn parse_records(data: Seq<u8>, pos: int, count: nat) -> Option<(Seq<Seq<u8>>, int)>
    decreases count,
{
    if count == 0 {
        Some((Seq::empty(), pos))
    } else {
        match parse_records(data, pos, (count - 1) as nat) {
            Some((pats, p)) => {
                if p >= data.len() {
                    None
                } else {
                    let len = data[p] as int;
                    if p + 1 + len > data.len() {
                        None
                    } else {
                        Some((pats.push(data.subrange(p + 1, p + 1 + len)), p + 1 + len))
                    }
                }
            },
            None => None,
        }
    }
}

/// What `deserialize` yields: the entries and the bytes consumed, or `None`
/// when the header or an entry is truncated.
pub open spec fn deserialize_spec(data: Seq<u8>) -> Option<(Seq<Seq<u8>>, int)> {
    if data.len() < 2 {
        None
    } else {
        parse_records(data, 2, crate::bytes::le16_value(data) as nat)
    }
}

pub fn serialize(entries: &[DictEntry]) -> (out: Vec<u8>)
    ensures
        out@ == serialize_spec(entry_bytes(entries@)),
{
    let ghost pats = entry_bytes(entries@);
    let mut out: Vec<u8> = Vec::new();
    crate::bytes::push_le16(&mut out, entries.len() as u16);
    let mut i: usize = 0;
    while i < entries.len()
        invariant
            i <= entries@.len(),
            pats == entry_bytes(entries@),
            out@ == crate::bytes::le16_bytes(entries@.len() as u16) + entry_records(pats.subrange(0, i as int)),
        decreases entries@.len() - i,
    {
        let e = &entries[i];
        let ghost out0 = out@;
        out.push(e.bytes.len() as u8);
        crate::bytes::append_bytes(&mut out, e.bytes.as_slice());
        proof {
            assert(pats.subrange(0, i + 1).drop_last() =~= pats.subrange(0, i as int));
            assert(pats.subrange(0, i + 1).last() == e.bytes@);
            assert(out@ =~= out0 + entry_record(e.bytes@));
        }
        i = i + 1;
    }
    proof {
        assert(pats.subrange(0, i as int) =~= pats);
    }
    out
}

/// `format!` of the entry number in decimal.
#[verifier::external_body]
fn truncated_at_entry_message(i: usize) -> (m: String)
    ensures
        m@ == "dictionary: truncated at entry "@ + crate::text::decimal(i as nat),
{
    format!("dictionary: truncated at entry {i}")
}

/// `format!` of the entry number in decimal.
#[verifier::external_body]
fn entry_truncated_message(i: usize) -> (m: String)
    ensures
        m@ == "dictionary: entry "@ + crate::text::decimal(i as nat) + " truncated"@,
{
    format!("dictionary: entry {i} truncated")
}

pub fn deserialize(data: &[u8]) -> (r: Result<(Vec<DictEntry>, usize), String>)
    ensures
        match deserialize_spec(data@) {
            Some((pats, end)) => r matches Ok((es, e)) && entry_bytes(es@) == pats && e == end
                && forall|k: int| 0 <= k < es@.len() ==> (#[trigger] es@[k]).freq == 0 && es@[k].saving == 0,
            None => r is Err,
        },
{
    if data.len() < 2 {
        return Err(String::from_str("dictionary: truncated header"));
    }
    let count = crate::bytes::read_le16(data, 0) as usize;
    proof {
        assert(data@.subrange(0, 2)[0] == data@[0] && data@.subrange(0, 2)[1] == data@[1]);
    }
    let mut pos: usize = 2;
    let mut entries: Vec<DictEntry> = Vec::new();
    let mut i: usize = 0;
    while i < count
        invariant
            i <= count,
            count == crate::bytes::le16_value(data@),
            parse_records(data@, 2, i as nat) == Some((entry_bytes(entries@), pos as int)),
            pos <= data@.len(),
            forall|k: int| 0 <= k < entries@.len() ==> (#[trigger] entries@[k]).freq == 0 && entries@[k].saving == 0,
        decreases count - i,
    {
        if pos >= data.len() {
            proof {
                lemma_parse_records_fail(data@, (i + 1) as nat, count as nat);
            }
            return Err(truncated_at_entry_message(i));
        }
        let len = data[pos] as usize;
        pos = pos + 1;
        if len > data.len() - pos {
            proof {
                lemma_parse_records_fail(data@, (i + 1) as nat, count as nat);
            }
            return Err(entry_truncated_message(i));
        }
        let bytes = slice_to_vec(slice_subrange(data, pos, pos + len));
        let ghost es0 = entries@;
        entries.push(DictEntry { bytes, freq: 0, saving: 0 });
        proof {
            assert(entry_bytes(entries@) =~= entry_bytes(es0).push(data@.subrange(pos as int, pos + len)));
        }
        pos = pos + len;
        i = i + 1;
    }
    Ok((entries, pos))
}

/// Once `k` records fail to parse, more records fail too.
proof fn lemma_parse_records_fail(data: Seq<u8>, k: nat, count: nat)
    requires
        k <= count,
        parse_records(data, 2, k) is None,
    ensures
        parse_records(data, 2, count) is None,
    decreases count - k,
{
    if k < count {
        lemma_parse_records_fail(data, k + 1, count);
    }
}

proof fn lemma_parse_records_of(pats: Seq<Seq<u8>>, prefix: Seq<u8>, suffix: Seq<u8>)
    requires
        forall|k: int| 0 <= k < pats.len() ==> (#[trigger] pats[k]).len() <= 255,
    ensures
        parse_records(prefix + entry_records(pats) + suffix, prefix.len() as int, pats.len())
            == Some((pats, (prefix.len() + entry_records(pats).len()) as int)),
    decreases pats.len(),
{
    if pats.len() > 0 {
        let init = pats.drop_last();
        let last = pats.last();
        assert forall|k: int| 0 <= k < init.len() implies (#[trigger] init[k]).len() <= 255 by {
            assert(init[k] == pats[k]);
        }
        let data = prefix + entry_records(pats) + suffix;
        assert(data =~= prefix + entry_records(init) + (entry_record(last) + suffix));
        lemma_parse_records_of(init, prefix, entry_record(last) + suffix);
        let p = (prefix.len() + entry_records(init).len()) as int;
        assert(data[p] == last.len() as u8);
        assert((last.len() as u8) as int == last.len());
        assert(data.subrange(p + 1, p + 1 + last.len()) =~= last);
        assert(init.push(last) =~= pats);
    } else {
        assert(entry_records(pats) =~= Seq::<u8>::empty());
    }
}

/// Reading back a serialized dictionary gives its entries and consumes the
/// whole header, when there are at most 65535 entries of at most 255 bytes.
pub proof fn lemma_serialize_roundtrip(pats: Seq<Seq<u8>>, suffix: Seq<u8>)
    requires
        pats.len() <= 0xFFFF,
        forall|k: int| 0 <= k < pats.len() ==> (#[trigger] pats[k]).len() <= 255,
    ensures
        deserialize_spec(serialize_spec(pats) + suffix) == Some((pats, serialize_spec(pats).len() as int)),
{
    let hdr = crate::bytes::le16_bytes(pats.len() as u16);
    crate::bytes::lemma_le16_roundtrip(pats.len() as u16);
    let data = serialize_spec(pats) + suffix;
    assert(data =~= hdr + entry_records(pats) + suffix);
    lemma_parse_records_of(pats, hdr, suffix);
    assert(crate::bytes::le16_value(data) == crate::bytes::le16_value(hdr));
}

// ---------------------------------------------------------------------------
// Rolling hash (Rabin-Karp, Mersenne prime modulus)
// ---------------------------------------------------------------------------

const BASE: u64 = 131;
const MOD: u64 = 0x1FFF_FFFF_FFFF_FFFF;

/// The modulus 2^61 - 1.
pub open spec fn hash_mod() -> int {
    0x1FFF_FFFF_FFFF_FFFF
}

/// Polynomial hash of `s` in base 131, reduced modulo 2^61 - 1 after every
/// byte (Horner's rule).
pub open spec fn poly_hash(s: Seq<u8>) -> int
    decreases s.len(),
{
    if s.len() == 0 {
        0
    } else {
        (poly_hash(s.drop_last()) * 131 + s.last()) % hash_mod()
    }
}

/// The unreduced polynomial value.
pub open spec fn poly_value(s: Seq<u8>) -> int
    decreases s.len(),
{
    if s.len() == 0 {
        0
    } else {
        poly_value(s.drop_last()) * 131 + s.last()
    }
}

pub open spec fn pow131(k: nat) -> int
    decreases k,
{
    if k == 0 {
        1
    } else {
        131 * pow131((k - 1) as nat)
    }
}

proof fn lemma_pow131_pos(k: nat)
    ensures
        pow131(k) >= 1,
    decreases k,
{
    if k > 0 {
        lemma_pow131_pos((k - 1) as nat);
    }
}

proof fn lemma_poly_hash_value(s: Seq<u8>)
    ensures
        poly_hash(s) == poly_value(s) % hash_mod(),
    decreases s.len(),
{
    if s.len() > 0 {
        lemma_poly_hash_value(s.drop_last());
        let v = poly_value(s.drop_last());
        let m = hash_mod() as int;
        vstd::arithmetic::div_mod::lemma_mul_mod_noop_left(v as int, 131, m);
        vstd::arithmetic::div_mod::lemma_add_mod_noop((v % hash_mod()) * 131, s.last() as int, m);
        vstd::arithmetic::div_mod::lemma_add_mod_noop(v as int * 131, s.last() as int, m);
        vstd::arithmetic::div_mod::lemma_mod_twice((v as int * 131) as int, m);
        vstd::arithmetic::div_mod::lemma_mod_twice((v % hash_mod()) * 131, m);
    }
}

proof fn lemma_poly_value_prepend(a: u8, t: Seq<u8>)
    ensures
        poly_value(seq![a] + t) == a * pow131(t.len()) + poly_value(t),
    decreases t.len(),
{
    if t.len() == 0 {
        assert((seq![a] + t).drop_last() =~= Seq::<u8>::empty());
        assert(seq![a] + t =~= seq![a]);
        assert(poly_value(Seq::<u8>::empty()) == 0);
        assert(poly_value(t) == 0);
        assert(pow131(0) == 1);
        assert(poly_value(seq![a]) == a);
    } else {
        let t0 = t.drop_last();
        lemma_poly_value_prepend(a, t0);
        assert((seq![a] + t).drop_last() =~= seq![a] + t0);
        assert((seq![a] + t).last() == t.last());
        assert(pow131(t.len()) == 131 * pow131(t0.len()));
        assert((a * pow131(t0.len()) + poly_value(t0)) * 131 + t.last() == a * (131 * pow131(t0.len())) + (poly_value(t0) * 131 + t.last())) by (nonlinear_arith);
        assert(poly_value(seq![a] + t) == poly_value(seq![a] + t0) * 131 + t.last());
        assert(poly_value(t) == poly_value(t0) * 131 + t.last());
    }
}

/// The window of length `l` at `i`.
pub open spec fn window(buf: Seq<u8>, i: int, l: int) -> Seq<u8> {
    buf.subrange(i, i + l)
}

/// One rolling step: the hash of the window at `i` from that at `i - 1`.
proof fn lemma_rolling_step(buf: Seq<u8>, i: int, l: int, h: int, bp: int)
    requires
        1 <= i,
        1 <= l,
        i + l <= buf.len(),
        h == poly_hash(window(buf, i - 1, l)),
        bp == pow131(l as nat) % hash_mod(),
    ensures
        poly_hash(window(buf, i, l)) == (h * 131 + buf[i + l - 1] + 2 * hash_mod() - (bp * buf[i - 1]) % hash_mod()) % hash_mod(),
{
    let m = hash_mod() as int;
    let w0 = window(buf, i - 1, l);
    let w1 = window(buf, i, l);
    let a = buf[i - 1];
    let c = buf[i + l - 1];
    let big = buf.subrange(i - 1, i + l);
    assert(big.drop_last() =~= w0);
    assert(big.last() == c);
    assert(big =~= seq![a] + w1);
    lemma_poly_value_prepend(a, w1);
    lemma_poly_hash_value(w0);
    lemma_poly_hash_value(w1);
    let x = poly_value(w0) as int;
    let y = poly_value(w1) as int;
    let p = pow131(l as nat) as int;
    // x * 131 + c == a * p + y
    assert(x * 131 + c == a * p + y);
    vstd::arithmetic::div_mod::lemma_fundamental_div_mod(x, m);
    vstd::arithmetic::div_mod::lemma_fundamental_div_mod(p, m);
    vstd::arithmetic::div_mod::lemma_fundamental_div_mod((bp * a) as int, m);
    vstd::arithmetic::div_mod::lemma_mod_bound(x, m);
    vstd::arithmetic::div_mod::lemma_mod_bound((bp * a) as int, m);
    let xq = x / m;
    let pq = p / m;
    let bq = (bp * a) as int / m;
    let r = (bp * a) as int % m;
    let lhs = h * 131 + c + 2 * m - r;
    // y - lhs is a multiple of m
    assert(y == lhs + m * (131 * xq - a * pq - bq - 2)) by (nonlinear_arith)
        requires
            x * 131 + c == a * p + y,
            x == m * xq + h,
            p == m * pq + bp,
            bp * a == m * bq + r,
            lhs == h * 131 + c + 2 * m - r,
    ;
    vstd::arithmetic::div_mod::lemma_mod_multiples_vanish(131 * xq - a * pq - bq - 2, lhs, m);
    assert(lhs >= 0);
}

// ---------------------------------------------------------------------------
// Frequency scan of one substring length
// ---------------------------------------------------------------------------

/// A window may be counted at `i`: its first byte is printable (0x20 or
/// above) or a newline, or a carriage return past the first position.
pub open spec fn valid_start(buf: Seq<u8>, i: int) -> bool {
    buf[i] >= 0x20 || buf[i] == 0x0a || (i > 0 && buf[i] == 0x0d)
}

pub open spec fn counted(buf: Seq<u8>, l: int, i: int) -> bool {
    0 <= i && i + l <= buf.len() && valid_start(buf, i)
}

pub open spec fn hash_at(buf: Seq<u8>, l: int, i: int) -> int {
    poly_hash(window(buf, i, l))
}

/// Counted windows among the first `m` positions whose hash is `h`.
pub open spec fn class_count(buf: Seq<u8>, l: int, h: int, m: int) -> nat
    decreases m,
{
    if m <= 0 {
        0
    } else {
        class_count(buf, l, h, m - 1) + (if counted(buf, l, m - 1) && hash_at(buf, l, m - 1) == h { 1nat } else { 0nat })
    }
}

/// The number of window positions for length `l`.
pub open spec fn positions(buf: Seq<u8>, l: int) -> int {
    buf.len() - l + 1
}

/// Counted windows whose hash is `h`.
pub open spec fn class_size(buf: Seq<u8>, l: int, h: int) -> nat {
    class_count(buf, l, h, positions(buf, l))
}

/// `p` is the first counted window of its hash class.
pub open spec fn is_first(buf: Seq<u8>, l: int, p: int) -> bool {
    counted(buf, l, p) && class_count(buf, l, hash_at(buf, l, p), p) == 0
}

/// The first windows of each hash class among the first `m` positions.
pub open spec fn firsts(buf: Seq<u8>, l: int, m: int) -> Seq<int>
    decreases m,
{
    if m <= 0 {
        Seq::empty()
    } else {
        firsts(buf, l, m - 1) + (if is_first(buf, l, m - 1) { seq![m - 1] } else { Seq::empty() })
    }
}

/// For each hash class seen at `f` in order: the class's first window and
/// its size, when the class has at least `MIN_FREQ` windows.
pub open spec fn scan_entries(buf: Seq<u8>, l: int, f: Seq<int>) -> Seq<(Seq<u8>, nat)>
    decreases f.len(),
{
    if f.len() == 0 {
        Seq::empty()
    } else {
        let p = f.last();
        let c = class_size(buf, l, hash_at(buf, l, p));
        scan_entries(buf, l, f.drop_last()) + (if c >= 3 { seq![(window(buf, p, l), c)] } else { Seq::empty() })
    }
}

/// The frequent substrings of length `l`: one per hash class of counted
/// windows with at least `MIN_FREQ` members, as the class's first window
/// and the class size, in order of first occurrence.
pub open spec fn scan_spec(buf: Seq<u8>, l: int) -> Seq<(Seq<u8>, nat)> {
    if 1 <= l <= buf.len() {
        scan_entries(buf, l, firsts(buf, l, positions(buf, l)))
    } else {
        Seq::empty()
    }
}

pub open spec fn pairs_view(v: Seq<(Vec<u8>, usize)>) -> Seq<(Seq<u8>, nat)> {
    v.map_values(|e: (Vec<u8>, usize)| (e.0@, e.1 as nat))
}

proof fn lemma_class_count_le(buf: Seq<u8>, l: int, h: int, m: int)
    ensures
        class_count(buf, l, h, m) <= if m < 0 { 0 } else { m },
    decreases m,
{
    if m > 0 {
        lemma_class_count_le(buf, l, h, m - 1);
    }
}

proof fn lemma_class_count_pos(buf: Seq<u8>, l: int, h: int, p: int, m: int)
    requires
        0 <= p < m,
        counted(buf, l, p),
        hash_at(buf, l, p) == h,
    ensures
        class_count(buf, l, h, m) >= 1,
    decreases m,
{
    if m - 1 > p {
        lemma_class_count_pos(buf, l, h, p, m - 1);
    }
}

proof fn lemma_first_unique(buf: Seq<u8>, l: int, p1: int, p2: int)
    requires
        is_first(buf, l, p1),
        is_first(buf, l, p2),
        hash_at(buf, l, p1) == hash_at(buf, l, p2),
    ensures
        p1 == p2,
{
    if p1 < p2 {
        lemma_class_count_pos(buf, l, hash_at(buf, l, p1), p1, p2);
    } else if p2 < p1 {
        lemma_class_count_pos(buf, l, hash_at(buf, l, p2), p2, p1);
    }
}

proof fn lemma_firsts_shape(buf: Seq<u8>, l: int, m: int)
    ensures
        forall|k: int| 0 <= k < firsts(buf, l, m).len() ==> is_first(buf, l, #[trigger] firsts(buf, l, m)[k]) && firsts(buf, l, m)[k] < m,
    decreases m,
{
    if m > 0 {
        lemma_firsts_shape(buf, l, m - 1);
        let f0 = firsts(buf, l, m - 1);
        let f = firsts(buf, l, m);
        assert forall|k: int| 0 <= k < f.len() implies is_first(buf, l, #[trigger] f[k]) && f[k] < m by {
            if k < f0.len() {
                assert(f[k] == f0[k]);
            }
        }
    }
}

/// The hashes of the first windows, as stored.
spec fn first_hashes(buf: Seq<u8>, l: int, f: Seq<int>) -> Seq<u64> {
    f.map_values(|p: int| hash_at(buf, l, p) as u64)
}

proof fn lemma_poly_hash_bound(s: Seq<u8>)
    ensures
        0 <= poly_hash(s) < hash_mod(),
{
    if s.len() > 0 {
        vstd::arithmetic::div_mod::lemma_mod_bound(poly_hash(s.drop_last()) * 131 + s.last(), hash_mod());
    }
}


/// The scan map and first-hash list after the first `m` positions: a hash is
/// mapped exactly when some counted window among them has it, to the class
/// count so far and the class's first window.
spec fn scan_state(buf: Seq<u8>, l: int, map: Map<u64, (u32, usize)>, order: Seq<u64>, m: int) -> bool {
    &&& forall|h: u64| #[trigger] map.contains_key(h) <==> class_count(buf, l, h as int, m) > 0
    &&& forall|h: u64|
        #[trigger] map.contains_key(h) ==> {
            &&& map[h].0 as int == class_count(buf, l, h as int, m)
            &&& is_first(buf, l, map[h].1 as int)
            &&& hash_at(buf, l, map[h].1 as int) == h as int
            &&& map[h].1 < m
        }
    &&& order == first_hashes(buf, l, firsts(buf, l, m))
}

proof fn lemma_scan_state_done(buf: Seq<u8>, l: int, map: Map<u64, (u32, usize)>, m: int)
    requires
        forall|h: u64| #[trigger] map.contains_key(h) <==> class_count(buf, l, h as int, m) > 0,
        forall|h: u64|
            #[trigger] map.contains_key(h) ==> {
                &&& map[h].0 as int == class_count(buf, l, h as int, m)
                &&& is_first(buf, l, map[h].1 as int)
                &&& hash_at(buf, l, map[h].1 as int) == h as int
                &&& map[h].1 < m
            },
        m == positions(buf, l),
    ensures
        forall|h: u64|
            #[trigger] map.contains_key(h) ==> {
                &&& map[h].0 as int == class_size(buf, l, h as int)
                &&& is_first(buf, l, map[h].1 as int)
                &&& hash_at(buf, l, map[h].1 as int) == h as int
            },
        forall|h: u64| #[trigger] map.contains_key(h) <==> class_size(buf, l, h as int) > 0,
{
}

/// Record window `pos` (with hash `hash`) in the scan map.
fn note_position(
    buf: &[u8],
    len: usize,
    map: &mut std::collections::HashMap<u64, (u32, usize)>,
    order: &mut Vec<u64>,
    hash: u64,
    pos: usize,
)
    requires
        1 <= len,
        pos + len <= buf@.len(),
        buf@.len() <= u32::MAX,
        hash as int == hash_at(buf@, len as int, pos as int),
        scan_state(buf@, len as int, old(map)@, old(order)@, pos as int),
    ensures
        scan_state(buf@, len as int, final(map)@, final(order)@, pos + 1),
{
    broadcast use vstd::std_specs::hash::group_hash_axioms;
    let ghost l = len as int;
    let b = buf[pos];
    let valid = if pos == 0 {
        b >= 0x20 || b == 0x0a
    } else {
        b >= 0x20 || b == 0x0a || b == 0x0d
    };
    proof {
        lemma_poly_hash_bound(window(buf@, l, pos as int));
        lemma_class_count_le(buf@, l, hash as int, pos as int);
        assert(valid == counted(buf@, l, pos as int));
    }
    if valid {
        match map.get(&hash) {
            Some(v) => {
                let (c, p) = *v;
                map.insert(hash, (c + 1, p));
                proof {
                    assert(!is_first(buf@, l, pos as int));
                }
            },
            None => {
                map.insert(hash, (1, pos));
                order.push(hash);
                proof {
                    assert(is_first(buf@, l, pos as int));
                }
            },
        }
    }
    proof {
        let m = pos as int + 1;
        assert(order@ =~= first_hashes(buf@, l, firsts(buf@, l, m)));
        assert forall|h: u64| #[trigger] map@.contains_key(h) <==> class_count(buf@, l, h as int, m) > 0 by {}
        assert forall|h: u64|
            #[trigger] map@.contains_key(h) implies {
                &&& map@[h].0 as int == class_count(buf@, l, h as int, m)
                &&& is_first(buf@, l, map@[h].1 as int)
                &&& hash_at(buf@, l, map@[h].1 as int) == h as int
                &&& map@[h].1 < m
            } by {}
    }
}

/// Collect the frequent substrings of length `len` into `out`.
fn scan_length(buf: &[u8], len: usize, out: &mut Vec<(Vec<u8>, usize)>)
    requires
        1 <= len,
        buf@.len() <= u32::MAX,
    ensures
        pairs_view(final(out)@) == pairs_view(old(out)@) + scan_spec(buf@, len as int),
{
    broadcast use vstd::std_specs::hash::group_hash_axioms;
    let n = buf.len();
    let ghost l = len as int;
    if n < len {
        assert(pairs_view(out@) =~= pairs_view(out@) + Seq::<(Seq<u8>, nat)>::empty());
        return;
    }
    let mut base_pow: u64 = 1;
    let mut k: usize = 0;
    while k < len
        invariant
            k <= len,
            base_pow as int == pow131(k as nat) % hash_mod(),
        decreases len - k,
    {
        proof {
            lemma_pow131_pos(k as nat);
            vstd::arithmetic::div_mod::lemma_mod_bound(pow131(k as nat), hash_mod());
            vstd::arithmetic::div_mod::lemma_mul_mod_noop_left(pow131(k as nat), 131, hash_mod());
            vstd::arithmetic::div_mod::lemma_mod_bound(base_pow as int * 131, hash_mod());
        }
        base_pow = ((base_pow as u128 * 131u128) % (MOD as u128)) as u64;
        k = k + 1;
    }
    let mut hash: u64 = 0;
    let mut i: usize = 0;
    proof {
        assert(buf@.subrange(0, 0) =~= Seq::<u8>::empty());
    }
    while i < len
        invariant
            i <= len <= n,
            n == buf@.len(),
            hash as int == poly_hash(buf@.subrange(0, i as int)),
        decreases len - i,
    {
        proof {
            lemma_poly_hash_bound(buf@.subrange(0, i as int));
            assert(buf@.subrange(0, i + 1).drop_last() =~= buf@.subrange(0, i as int));
            vstd::arithmetic::div_mod::lemma_mod_bound(hash as int * 131 + buf@[i as int], hash_mod());
        }
        hash = ((hash as u128 * 131u128 + buf[i] as u128) % (MOD as u128)) as u64;
        i = i + 1;
    }
    let mut map: std::collections::HashMap<u64, (u32, usize)> = std::collections::HashMap::new();
    let mut order: Vec<u64> = Vec::new();
    let last = n - len;
    let mut pos: usize = 0;
    proof {
        assert(order@ =~= first_hashes(buf@, l, firsts(buf@, l, 0)));
    }
    note_position(buf, len, &mut map, &mut order, hash, 0);
    while pos < last
        invariant
            n == buf@.len(),
            n <= u32::MAX,
            l == len as int,
            1 <= len <= n,
            last == n - len,
            pos <= last,
            base_pow as int == pow131(len as nat) % hash_mod(),
            hash as int == hash_at(buf@, l, pos as int),
            scan_state(buf@, l, map@, order@, pos + 1),
        decreases last - pos,
    {
        proof {
            lemma_poly_hash_bound(window(buf@, l, pos as int));
            lemma_rolling_step(buf@, pos + 1, l, hash as int, base_pow as int);
            vstd::arithmetic::div_mod::lemma_mod_bound(base_pow as int * buf@[pos as int], hash_mod());
        }
        proof {
            lemma_pow131_pos(len as nat);
            vstd::arithmetic::div_mod::lemma_mod_bound(pow131(len as nat), hash_mod());
        }
        let bb = buf[pos];
        assert(base_pow as u128 * bb as u128 <= 0x1FFF_FFFF_FFFF_FFFFu128 * 255) by (nonlinear_arith)
            requires
                base_pow < 0x1FFF_FFFF_FFFF_FFFFu64,
        ;
        let t = (base_pow as u128 * bb as u128) % (MOD as u128);
        let h = (hash as u128 * 131u128 + buf[pos + len] as u128 + (MOD as u128) * 2 - t) % (MOD as u128);
        hash = h as u64;
        pos = pos + 1;
        note_position(buf, len, &mut map, &mut order, hash, pos);
    }
    // emit the frequent classes in order of first occurrence
    let ghost f = firsts(buf@, l, positions(buf@, l));
    let ghost out0 = pairs_view(out@);
    proof {
        assert(positions(buf@, l) == pos + 1);
        lemma_scan_state_done(buf@, l, map@, pos + 1);
        lemma_firsts_shape(buf@, l, pos + 1);
        assert(f.subrange(0, 0) =~= Seq::<int>::empty());
        assert(out0 + scan_entries(buf@, l, Seq::<int>::empty()) =~= out0);
    }
    let mut k: usize = 0;
    while k < order.len()
        invariant
            n == buf@.len(),
            l == len as int,
            1 <= len <= n,
            f == firsts(buf@, l, positions(buf@, l)),
            order@ == first_hashes(buf@, l, f),
            forall|q: int| 0 <= q < f.len() ==> is_first(buf@, l, #[trigger] f[q]) && f[q] < positions(buf@, l),
            forall|h: u64|
                #[trigger] map@.contains_key(h) ==> {
                    &&& map@[h].0 as int == class_size(buf@, l, h as int)
                    &&& is_first(buf@, l, map@[h].1 as int)
                    &&& hash_at(buf@, l, map@[h].1 as int) == h as int
                },
            forall|h: u64| #[trigger] map@.contains_key(h) <==> class_size(buf@, l, h as int) > 0,
            k <= order@.len(),
            pairs_view(out@) == out0 + scan_entries(buf@, l, f.subrange(0, k as int)),
        decreases order@.len() - k,
    {
        let h = order[k];
        let ghost p = f[k as int];
        proof {
            lemma_poly_hash_bound(window(buf@, l, p));
            lemma_class_count_pos(buf@, l, hash_at(buf@, l, p), p, positions(buf@, l));
            assert(h as int == hash_at(buf@, l, p));
            assert(map@.contains_key(h));
            lemma_first_unique(buf@, l, p, map@[h].1 as int);
            assert(f.subrange(0, k + 1).drop_last() =~= f.subrange(0, k as int));
            assert(f.subrange(0, k + 1).last() == p);
        }
        let (c, start) = match map.get(&h) {
            Some(v) => *v,
            None => (0, 0),
        };
        if c >= 3 {
            let w = slice_to_vec(slice_subrange(buf, start, start + len));
            let ghost o0 = out@;
            out.push((w, c as usize));
            proof {
                assert(pairs_view(out@) =~= pairs_view(o0).push((window(buf@, p, l), c as nat)));
            }
        }
        proof {
            assert(pairs_view(out@) =~= out0 + scan_entries(buf@, l, f.subrange(0, k + 1)));
        }
        k = k + 1;
    }
    proof {
        assert(f.subrange(0, k as int) =~= f);
    }
}

// ---------------------------------------------------------------------------
// Sorting candidate indices by key, largest first
// ---------------------------------------------------------------------------

/// `v` lists indices into `keys` in non-increasing key order.
pub open spec fn sorted_desc(keys: Seq<usize>, v: Seq<usize>) -> bool {
    forall|a: int, b: int| 0 <= a < b < v.len() ==> keys[v[a] as int] >= keys[v[b] as int]
}

pub open spec fn indices_in(keys: Seq<usize>, v: Seq<usize>) -> bool {
    forall|a: int| 0 <= a < v.len() ==> (#[trigger] v[a]) < keys.len()
}

/// `v` lists indices in non-increasing key order, equal keys by
/// increasing index.
pub open spec fn stable_desc(keys: Seq<usize>, v: Seq<usize>) -> bool {
    forall|a: int, b: int| 0 <= a < b < v.len() ==> keys[#[trigger] v[a] as int] > keys[#[trigger] v[b] as int]
        || (keys[v[a] as int] == keys[v[b] as int] && v[a] < v[b])
}

/// Every index in `a` is below every index in `b`.
pub open spec fn all_below(a: Seq<usize>, b: Seq<usize>) -> bool {
    forall|p: int, q: int| 0 <= p < a.len() && 0 <= q < b.len() ==> #[trigger] a[p] < #[trigger] b[q]
}

/// `v` is strictly increasing.
pub open spec fn ascending(v: Seq<usize>) -> bool {
    forall|a: int, b: int| 0 <= a < b < v.len() ==> #[trigger] v[a] < #[trigger] v[b]
}

proof fn lemma_below_perm(a: Seq<usize>, a2: Seq<usize>, b: Seq<usize>, b2: Seq<usize>)
    requires
        all_below(a, b),
        a2.to_multiset() == a.to_multiset(),
        b2.to_multiset() == b.to_multiset(),
    ensures
        all_below(a2, b2),
{
    broadcast use vstd::seq_lib::group_to_multiset_ensures;
    assert forall|p: int, q: int| 0 <= p < a2.len() && 0 <= q < b2.len() implies #[trigger] a2[p] < #[trigger] b2[q] by {
        assert(a2.to_multiset().count(a2[p]) > 0);
        assert(a.contains(a2[p]));
        assert(b2.to_multiset().count(b2[q]) > 0);
        assert(b.contains(b2[q]));
        let i = choose|i: int| 0 <= i < a.len() && a[i] == a2[p];
        let j = choose|j: int| 0 <= j < b.len() && b[j] == b2[q];
    }
}

fn merge_desc(keys: &Vec<usize>, a: Vec<usize>, b: Vec<usize>) -> (r: Vec<usize>)
    requires
        indices_in(keys@, a@),
        indices_in(keys@, b@),
        sorted_desc(keys@, a@),
        sorted_desc(keys@, b@),
    ensures
        indices_in(keys@, r@),
        sorted_desc(keys@, r@),
        r@.to_multiset() == a@.to_multiset().add(b@.to_multiset()),
        stable_desc(keys@, a@) && stable_desc(keys@, b@) && all_below(a@, b@) ==> stable_desc(keys@, r@),
{
    broadcast use vstd::seq_lib::group_to_multiset_ensures;
    let ghost st = stable_desc(keys@, a@) && stable_desc(keys@, b@) && all_below(a@, b@);
    let mut r: Vec<usize> = Vec::new();
    let mut i: usize = 0;
    let mut j: usize = 0;
    proof {
        assert(a@.subrange(0, 0) =~= Seq::<usize>::empty());
        assert(b@.subrange(0, 0) =~= Seq::<usize>::empty());
    }
    while i < a.len() || j < b.len()
        invariant
            i <= a@.len(),
            j <= b@.len(),
            indices_in(keys@, a@),
            indices_in(keys@, b@),
            sorted_desc(keys@, a@),
            sorted_desc(keys@, b@),
            indices_in(keys@, r@),
            sorted_desc(keys@, r@),
            r@.len() == i + j,
            r@.to_multiset() == a@.subrange(0, i as int).to_multiset().add(b@.subrange(0, j as int).to_multiset()),
            forall|x: int, y: int| 0 <= x < r@.len() && i <= y < a@.len() ==> keys@[r@[x] as int] >= keys@[a@[y] as int],
            forall|x: int, y: int| 0 <= x < r@.len() && j <= y < b@.len() ==> keys@[r@[x] as int] >= keys@[b@[y] as int],
            st == (stable_desc(keys@, a@) && stable_desc(keys@, b@) && all_below(a@, b@)),
            st ==> stable_desc(keys@, r@),
            st ==> forall|x: int, y: int| 0 <= x < r@.len() && i <= y < a@.len() ==> keys@[#[trigger] r@[x] as int] > keys@[#[trigger] a@[y] as int]
                || (keys@[r@[x] as int] == keys@[a@[y] as int] && r@[x] < a@[y]),
            st ==> forall|x: int, y: int| 0 <= x < r@.len() && j <= y < b@.len() ==> keys@[#[trigger] r@[x] as int] > keys@[#[trigger] b@[y] as int]
                || (keys@[r@[x] as int] == keys@[b@[y] as int] && r@[x] < b@[y]),
        decreases a@.len() + b@.len() - i - j,
    {
        let take_a = j >= b.len() || (i < a.len() && keys[a[i]] >= keys[b[j]]);
        if take_a {
            let x = a[i];
            let ghost r0 = r@;
            proof {
                assert(a@.subrange(0, i + 1) =~= a@.subrange(0, i as int).push(x));
            }
            r.push(x);
            i = i + 1;
            proof {
                assert(r@ == r0.push(x));
                if st {
                    assert forall|y: int| i <= y < a@.len() implies keys@[#[trigger] a@[y] as int] < keys@[x as int]
                        || (keys@[a@[y] as int] == keys@[x as int] && x < a@[y]) by {
                        assert(a@[i - 1] == x);
                    }
                    assert forall|y: int| j <= y < b@.len() implies keys@[#[trigger] b@[y] as int] < keys@[x as int]
                        || (keys@[b@[y] as int] == keys@[x as int] && x < b@[y]) by {
                        assert(keys@[b@[j as int] as int] >= keys@[b@[y] as int]);
                        assert(a@[i - 1] < b@[y]);
                    }
                }
                vstd::seq_lib::to_multiset_build(r0, x);
                vstd::seq_lib::to_multiset_build(a@.subrange(0, i - 1), x);
                vstd::seq_lib::to_multiset_build(b@.subrange(0, j - 1), x);
                assert(r@.to_multiset() =~= a@.subrange(0, i as int).to_multiset().add(b@.subrange(0, j as int).to_multiset()));
            }
        } else {
            let x = b[j];
            let ghost r0 = r@;
            proof {
                assert(b@.subrange(0, j + 1) =~= b@.subrange(0, j as int).push(x));
            }
            r.push(x);
            j = j + 1;
            proof {
                assert(r@ == r0.push(x));
                if st {
                    assert forall|y: int| i <= y < a@.len() implies keys@[#[trigger] a@[y] as int] < keys@[x as int] by {
                        assert(keys@[a@[i as int] as int] >= keys@[a@[y] as int]);
                    }
                    assert forall|y: int| j <= y < b@.len() implies keys@[#[trigger] b@[y] as int] < keys@[x as int]
                        || (keys@[b@[y] as int] == keys@[x as int] && x < b@[y]) by {
                        assert(b@[j - 1] == x);
                    }
                }
                vstd::seq_lib::to_multiset_build(r0, x);
                vstd::seq_lib::to_multiset_build(a@.subrange(0, i - 1), x);
                vstd::seq_lib::to_multiset_build(b@.subrange(0, j - 1), x);
                assert(r@.to_multiset() =~= a@.subrange(0, i as int).to_multiset().add(b@.subrange(0, j as int).to_multiset()));
            }
        }
    }
    proof {
        assert(a@.subrange(0, i as int) =~= a@);
        assert(b@.subrange(0, j as int) =~= b@);
    }
    r
}

pub(crate) fn sort_desc(keys: &Vec<usize>, v: Vec<usize>) -> (r: Vec<usize>)
    requires
        indices_in(keys@, v@),
    ensures
        indices_in(keys@, r@),
        sorted_desc(keys@, r@),
        r@.to_multiset() == v@.to_multiset(),
        ascending(v@) ==> stable_desc(keys@, r@),
    decreases v@.len(),
{
    broadcast use vstd::seq_lib::group_to_multiset_ensures;
    if v.len() <= 1 {
        return v;
    }
    let mut left = v;
    let ghost whole = left@;
    let mid = left.len() / 2;
    let right = left.split_off(mid);
    proof {
        assert(whole =~= left@ + right@);
        vstd::seq_lib::lemma_multiset_commutative(left@, right@);
        assert forall|a: int| 0 <= a < left@.len() implies (#[trigger] left@[a]) < keys@.len() by {
            assert(left@[a] == whole[a]);
        }
        assert forall|a: int| 0 <= a < right@.len() implies (#[trigger] right@[a]) < keys@.len() by {
            assert(right@[a] == whole[a + mid]);
        }
    }
    let ghost lv = left@;
    let ghost rv = right@;
    let l = sort_desc(keys, left);
    let r = sort_desc(keys, right);
    proof {
        if ascending(whole) {
            assert forall|a: int, b: int| 0 <= a < b < lv.len() implies #[trigger] lv[a] < #[trigger] lv[b] by {
                assert(lv[a] == whole[a] && lv[b] == whole[b]);
            }
            assert forall|a: int, b: int| 0 <= a < b < rv.len() implies #[trigger] rv[a] < #[trigger] rv[b] by {
                assert(rv[a] == whole[a + mid] && rv[b] == whole[b + mid]);
            }
            assert forall|p: int, q: int| 0 <= p < lv.len() && 0 <= q < rv.len() implies #[trigger] lv[p] < #[trigger] rv[q] by {
                assert(lv[p] == whole[p] && rv[q] == whole[q + mid]);
            }
            lemma_below_perm(lv, l@, rv, r@);
        }
    }
    merge_desc(keys, l, r)
}

// ---------------------------------------------------------------------------
// Candidate selection
// ---------------------------------------------------------------------------

/// `c` occurs somewhere inside `e`.
pub open spec fn contains_sub(e: Seq<u8>, c: Seq<u8>) -> bool {
    exists|t: int| 0 <= t && t + c.len() <= e.len() && #[trigger] e.subrange(t, t + c.len()) == c
}

/// Bytes saved by substituting `c` occurrences of `w` with 2-byte tokens.
pub open spec fn saving_of(w: Seq<u8>, c: nat) -> int {
    (w.len() - TOKEN_BYTES) * c
}

/// A frequency record qualifies as a candidate entry.
pub open spec fn cand_ok(w: Seq<u8>, c: nat) -> bool {
    c >= MIN_FREQ && w.len() > TOKEN_BYTES
}

/// `e` is the entry made from a qualifying record of `cands`.
pub open spec fn entry_from(cands: Seq<(Seq<u8>, nat)>, e: DictEntry) -> bool {
    exists|q: int|
        0 <= q < cands.len() && cand_ok(cands[q].0, cands[q].1) && #[trigger] cands[q].0 == e.bytes@ && cands[q].1
            == e.freq && e.saving == saving_of(cands[q].0, cands[q].1)
}

/// `(w, c)` is among the selected entries.
pub open spec fn selected(r: Seq<DictEntry>, w: Seq<u8>, c: nat) -> bool {
    exists|k: int| 0 <= k < r.len() && #[trigger] r[k].bytes@ == w && r[k].freq == c
}

/// `r` is a greedy selection of at most `cap` entries from `cands`:
/// qualifying records taken in non-increasing order of saving, each skipped
/// when an already selected entry contains it, stopping once `cap` are
/// selected. Records of equal saving may be taken in any order.
pub open spec fn is_selection(cands: Seq<(Seq<u8>, nat)>, r: Seq<DictEntry>, cap: nat) -> bool {
    &&& r.len() <= cap
    &&& forall|k: int| 0 <= k < r.len() ==> entry_from(cands, #[trigger] r[k])
    &&& forall|a: int, b: int| 0 <= a < b < r.len() ==> (#[trigger] r[a]).saving >= (#[trigger] r[b]).saving
    &&& forall|a: int, b: int| 0 <= a < b < r.len() ==> !contains_sub((#[trigger] r[a]).bytes@, (#[trigger] r[b]).bytes@)
    &&& forall|q: int|
        0 <= q < cands.len() && cand_ok(cands[q].0, cands[q].1) ==> {
            ||| selected(r, #[trigger] cands[q].0, cands[q].1)
            ||| exists|k: int|
                0 <= k < r.len() && r[k].saving >= saving_of(cands[q].0, cands[q].1) && contains_sub(
                    #[trigger] r[k].bytes@,
                    cands[q].0,
                )
            ||| (r.len() == cap && forall|k: int| 0 <= k < r.len() ==> #[trigger] r[k].saving >= saving_of(cands[q].0, cands[q].1))
        }
}

/// `c` occurs inside `e`.
pub(crate) fn contains_window(e: &[u8], c: &[u8]) -> (r: bool)
    ensures
        r == contains_sub(e@, c@),
{
    if c.len() > e.len() {
        return false;
    }
    let mut t: usize = 0;
    while t <= e.len() - c.len()
        invariant
            c@.len() <= e@.len(),
            t <= e@.len() - c@.len() + 1,
            forall|u: int| 0 <= u < t ==> #[trigger] e@.subrange(u, u + c@.len()) != c@,
        decreases e@.len() - c@.len() + 1 - t,
    {
        let mut u: usize = 0;
        let mut same = true;
        while u < c.len()
            invariant
                t + c@.len() <= e@.len(),
                e@.len() == e.len(),
                c@.len() == c.len(),
                u <= c@.len(),
                same == forall|v: int| 0 <= v < u ==> e@[t + v] == c@[v],
            decreases c@.len() - u,
        {
            if e[t + u] != c[u] {
                same = false;
            }
            u = u + 1;
        }
        if same {
            assert(e@.subrange(t as int, t + c@.len()) =~= c@);
            return true;
        }
        proof {
            if e@.subrange(t as int, t + c@.len()) == c@ {
                assert forall|v: int| 0 <= v < c@.len() implies e@[t + v] == c@[v] by {
                    assert(e@.subrange(t as int, t + c@.len())[v] == e@[t + v]);
                }
            }
        }
        t = t + 1;
    }
    false
}

/// Greedy selection over the frequency records `freq`, at most
/// `MAX_ENTRIES` entries.
fn select_entries(freq: Vec<(Vec<u8>, usize)>) -> (r: Vec<DictEntry>)
    requires
        forall|q: int| 0 <= q < freq@.len() ==> saving_of((#[trigger] freq@[q]).0@, freq@[q].1 as nat) <= usize::MAX,
    ensures
        is_selection(pairs_view(freq@), r@, MAX_ENTRIES as nat),
{
    broadcast use vstd::seq_lib::group_to_multiset_ensures;
    let ghost cands = pairs_view(freq@);
    let mut keys: Vec<usize> = Vec::new();
    let mut idx: Vec<usize> = Vec::new();
    let mut q: usize = 0;
    while q < freq.len()
        invariant
            q <= freq@.len(),
            cands == pairs_view(freq@),
            keys@.len() == q,
            forall|q: int| 0 <= q < freq@.len() ==> saving_of((#[trigger] freq@[q]).0@, freq@[q].1 as nat) <= usize::MAX,
            forall|t: int| 0 <= t < q && cand_ok(cands[t].0, cands[t].1) ==> keys@[t] as int == saving_of(cands[t].0, cands[t].1),
            forall|a: int| 0 <= a < idx@.len() ==> (#[trigger] idx@[a]) < q && cand_ok(cands[idx@[a] as int].0, cands[idx@[a] as int].1),
            forall|t: int| 0 <= t < q && cand_ok(cands[t].0, cands[t].1) ==> idx@.contains(t as usize),
        decreases freq@.len() - q,
    {
        let len = freq[q].0.len();
        let count = freq[q].1;
        if count >= MIN_FREQ && len > TOKEN_BYTES {
            proof {
                assert(saving_of(freq@[q as int].0@, count as nat) <= usize::MAX);
                assert((len - 2) * count <= usize::MAX);
            }
            keys.push((len - TOKEN_BYTES) * count);
            let ghost idx0 = idx@;
            idx.push(q);
            proof {
                assert(idx@[idx0.len() as int] == q);
                assert forall|t: int| 0 <= t < q && cand_ok(cands[t].0, cands[t].1) implies idx@.contains(t as usize) by {
                    let w = choose|w: int| 0 <= w < idx0.len() && idx0[w] == t as usize;
                    assert(idx@[w] == idx0[w]);
                }
            }
        } else {
            keys.push(0);
        }
        q = q + 1;
    }
    let sorted = sort_desc(&keys, idx);
    proof {
        assert forall|t: int| 0 <= t < freq@.len() && cand_ok(cands[t].0, cands[t].1) implies sorted@.contains(t as usize) by {
            assert(idx@.contains(t as usize));
            assert(idx@.to_multiset().count(t as usize) > 0);
            assert(sorted@.to_multiset().count(t as usize) > 0);
        }
        assert forall|a: int| 0 <= a < sorted@.len() implies cand_ok(cands[sorted@[a] as int].0, cands[sorted@[a] as int].1) by {
            assert(sorted@.to_multiset().count(sorted@[a]) > 0);
            assert(idx@.to_multiset().count(sorted@[a]) > 0);
            assert(idx@.contains(sorted@[a]));
        }
    }
    let mut selected_entries: Vec<DictEntry> = Vec::new();
    let mut k: usize = 0;
    while k < sorted.len()
        invariant
            k <= sorted@.len(),
            cands == pairs_view(freq@),
            indices_in(keys@, sorted@),
            sorted_desc(keys@, sorted@),
            keys@.len() == freq@.len(),
            forall|a: int| 0 <= a < sorted@.len() ==> cand_ok(cands[#[trigger] sorted@[a] as int].0, cands[sorted@[a] as int].1),
            forall|t: int| 0 <= t < freq@.len() && cand_ok(cands[t].0, cands[t].1) ==> keys@[t] as int == saving_of(cands[t].0, cands[t].1),
            selected_entries@.len() <= MAX_ENTRIES,
            forall|a: int| 0 <= a < selected_entries@.len() ==> entry_from(cands, #[trigger] selected_entries@[a]),
            forall|a: int, b: int| 0 <= a < b < selected_entries@.len() ==> (#[trigger] selected_entries@[a]).saving >= (#[trigger] selected_entries@[b]).saving,
            forall|a: int, b: int| 0 <= a < b < selected_entries@.len() ==> !contains_sub((#[trigger] selected_entries@[a]).bytes@, (#[trigger] selected_entries@[b]).bytes@),
            // every selected entry is at least as valuable as what is left
            forall|a: int, t: int| 0 <= a < selected_entries@.len() && k <= t < sorted@.len() ==> (#[trigger] selected_entries@[a]).saving >= keys@[#[trigger] sorted@[t] as int],
            // every visited record is selected or contained in a selected entry of no smaller saving
            forall|t: int| 0 <= t < k ==> {
                let qq = #[trigger] sorted@[t] as int;
                ||| selected(selected_entries@, cands[qq].0, cands[qq].1)
                ||| exists|a: int| 0 <= a < selected_entries@.len() && selected_entries@[a].saving >= saving_of(cands[qq].0, cands[qq].1)
                    && contains_sub(#[trigger] selected_entries@[a].bytes@, cands[qq].0)
            },
        ensures
            k == sorted@.len() || selected_entries@.len() == MAX_ENTRIES,
        decreases sorted@.len() - k,
    {
        if selected_entries.len() >= MAX_ENTRIES {
            break;
        }
        let qi = sorted[k];
        let ghost qq = qi as int;
        proof {
            assert(cand_ok(cands[qq].0, cands[qq].1));
        }
        let cb = freq[qi].0.as_slice();
        let mut contained = false;
        let mut a: usize = 0;
        while a < selected_entries.len()
            invariant
                a <= selected_entries@.len(),
                0 <= qq < cands.len(),
                cb@ == cands[qq].0,
                contained == exists|aa: int| 0 <= aa < a && contains_sub(#[trigger] selected_entries@[aa].bytes@, cb@),
            decreases selected_entries@.len() - a,
        {
            if contains_window(selected_entries[a].bytes.as_slice(), cb) {
                contained = true;
            }
            a = a + 1;
        }
        if !contained {
            let e = DictEntry { bytes: slice_to_vec(cb), freq: freq[qi].1, saving: keys[qi] };
            let ghost s0 = selected_entries@;
            selected_entries.push(e);
            proof {
                let n1 = selected_entries@.len() - 1;
                assert(selected_entries@[n1] == e);
                assert(entry_from(cands, e)) by {
                    assert(cands[qq].0 == e.bytes@);
                }
                assert forall|b: int| 0 <= b < s0.len() implies !contains_sub(s0[b].bytes@, e.bytes@) by {
                    assert(selected_entries@[b] == s0[b]);
                }
                assert(selected(selected_entries@, cands[qq].0, cands[qq].1));
                assert forall|t: int| 0 <= t < k implies {
                    let q2 = #[trigger] sorted@[t] as int;
                    ||| selected(selected_entries@, cands[q2].0, cands[q2].1)
                    ||| exists|a: int| 0 <= a < selected_entries@.len() && selected_entries@[a].saving >= saving_of(cands[q2].0, cands[q2].1)
                        && contains_sub(#[trigger] selected_entries@[a].bytes@, cands[q2].0)
                } by {
                    let q2 = sorted@[t] as int;
                    if selected(s0, cands[q2].0, cands[q2].1) {
                        let kk = choose|kk: int| 0 <= kk < s0.len() && #[trigger] s0[kk].bytes@ == cands[q2].0 && s0[kk].freq == cands[q2].1;
                        assert(selected_entries@[kk] == s0[kk]);
                    } else {
                        let aa = choose|aa: int| 0 <= aa < s0.len() && s0[aa].saving >= saving_of(cands[q2].0, cands[q2].1)
                            && contains_sub(#[trigger] s0[aa].bytes@, cands[q2].0);
                        assert(selected_entries@[aa] == s0[aa]);
                    }
                }
                assert forall|t: int| k + 1 <= t < sorted@.len() implies e.saving >= keys@[#[trigger] sorted@[t] as int] by {
                    assert(keys@[sorted@[k as int] as int] >= keys@[sorted@[t] as int]);
                }
            }
        } else {
            proof {
                let aa = choose|aa: int| 0 <= aa < a && contains_sub(#[trigger] selected_entries@[aa].bytes@, cb@);
                assert(selected_entries@[aa].saving >= keys@[sorted@[k as int] as int]);
            }
        }
        k = k + 1;
    }
    proof {
        let r = selected_entries@;
        assert forall|q: int| 0 <= q < cands.len() && cand_ok(cands[q].0, cands[q].1) implies {
            ||| selected(r, #[trigger] cands[q].0, cands[q].1)
            ||| exists|kk: int|
                0 <= kk < r.len() && r[kk].saving >= saving_of(cands[q].0, cands[q].1) && contains_sub(
                    #[trigger] r[kk].bytes@,
                    cands[q].0,
                )
            ||| (r.len() == MAX_ENTRIES as nat && forall|kk: int| 0 <= kk < r.len() ==> #[trigger] r[kk].saving >= saving_of(cands[q].0, cands[q].1))
        } by {
            assert(sorted@.contains(q as usize));
            let t = choose|t: int| 0 <= t < sorted@.len() && sorted@[t] == q as usize;
            if t < k {
                assert(sorted@[t] as int == q);
            } else {
                assert forall|kk: int| 0 <= kk < r.len() implies #[trigger] r[kk].saving >= saving_of(cands[q].0, cands[q].1) by {
                    assert(r[kk].saving >= keys@[sorted@[t] as int]);
                }
            }
        }
    }
    selected_entries
}


// ---------------------------------------------------------------------------
// Frequency map over all scanned lengths
// ---------------------------------------------------------------------------

/// The longest substring length considered for a buffer of `n` bytes.
pub open spec fn max_scan_len(n: int) -> int {
    if n / 2 < MAX_STR_LEN { n / 2 } else { MAX_STR_LEN as int }
}

/// The distance between two scanned lengths.
pub open spec fn length_step(max_len: int) -> int {
    if (max_len - MIN_STR_LEN) / (MAX_LENGTHS as int) > 1 { (max_len - MIN_STR_LEN) / (MAX_LENGTHS as int) } else { 1 }
}

/// `len, len + step, ...` up to `max_len`.
pub open spec fn lengths_from(len: int, step: int, max_len: int) -> Seq<int>
    decreases (if len > max_len { 0 } else { max_len - len + 1 }),
{
    if step < 1 || len > max_len {
        Seq::empty()
    } else {
        seq![len] + lengths_from(len + step, step, max_len)
    }
}

/// The substring lengths scanned for a buffer of `n` bytes.
pub open spec fn scan_lengths(n: int) -> Seq<int> {
    let m = max_scan_len(n);
    if m < MIN_STR_LEN {
        Seq::empty()
    } else {
        lengths_from(MIN_STR_LEN as int, length_step(m), m)
    }
}

/// The frequency records of each length of `ls`, in order.
pub open spec fn scans(buf: Seq<u8>, ls: Seq<int>) -> Seq<(Seq<u8>, nat)>
    decreases ls.len(),
{
    if ls.len() == 0 {
        Seq::empty()
    } else {
        scans(buf, ls.drop_last()) + scan_spec(buf, ls.last())
    }
}

/// The frequency records of a buffer: for every scanned length, the
/// substrings of that length seen at least `MIN_FREQ` times.
pub open spec fn freq_spec(buf: Seq<u8>) -> Seq<(Seq<u8>, nat)> {
    scans(buf, scan_lengths(buf.len() as int))
}

/// Records of bounded length and count.
pub open spec fn records_bounded(r: Seq<(Seq<u8>, nat)>, n: int) -> bool {
    forall|k: int| 0 <= k < r.len() ==> (#[trigger] r[k]).0.len() <= MAX_STR_LEN && r[k].1 <= n
}

proof fn lemma_scan_entries_bounded(buf: Seq<u8>, l: int, f: Seq<int>)
    requires
        1 <= l <= MAX_STR_LEN,
        forall|k: int| 0 <= k < f.len() ==> is_first(buf, l, #[trigger] f[k]),
    ensures
        records_bounded(scan_entries(buf, l, f), buf.len() as int),
    decreases f.len(),
{
    if f.len() > 0 {
        let f0 = f.drop_last();
        assert forall|k: int| 0 <= k < f0.len() implies is_first(buf, l, #[trigger] f0[k]) by {
            assert(f0[k] == f[k]);
        }
        lemma_scan_entries_bounded(buf, l, f0);
        let p = f.last();
        assert(is_first(buf, l, f[f.len() - 1]));
        lemma_class_count_le(buf, l, hash_at(buf, l, p), positions(buf, l));
        let r = scan_entries(buf, l, f);
        let r0 = scan_entries(buf, l, f0);
        assert forall|k: int| 0 <= k < r.len() implies (#[trigger] r[k]).0.len() <= MAX_STR_LEN && r[k].1 <= buf.len() by {
            if k < r0.len() {
                assert(r[k] == r0[k]);
            }
        }
    }
}

proof fn lemma_scan_spec_bounded(buf: Seq<u8>, l: int)
    requires
        1 <= l <= MAX_STR_LEN,
    ensures
        records_bounded(scan_spec(buf, l), buf.len() as int),
{
    if 1 <= l <= buf.len() {
        lemma_firsts_shape(buf, l, positions(buf, l));
        lemma_scan_entries_bounded(buf, l, firsts(buf, l, positions(buf, l)));
    }
}

proof fn lemma_lengths_from_has(len: int, step: int, max_len: int, k: int)
    requires
        step >= 1,
        k >= 0,
        len + k * step <= max_len,
    ensures
        lengths_from(len, step, max_len).contains(len + k * step),
    decreases k,
{
    let ls = lengths_from(len, step, max_len);
    assert(k * step >= 0) by (nonlinear_arith)
        requires k >= 0, step >= 1;
    assert(ls == seq![len] + lengths_from(len + step, step, max_len));
    if k == 0 {
        assert(k * step == 0) by (nonlinear_arith)
            requires k == 0;
        assert(ls[0] == len + k * step);
    } else {
        assert((len + step) + (k - 1) * step == len + k * step) by (nonlinear_arith);
        lemma_lengths_from_has(len + step, step, max_len, k - 1);
        let rest = lengths_from(len + step, step, max_len);
        let q = choose|q: int| 0 <= q < rest.len() && rest[q] == len + k * step;
        assert(ls[q + 1] == rest[q]);
        assert(ls[q + 1] == len + k * step);
    }
}

proof fn lemma_lengths_from_only(len: int, step: int, max_len: int, x: int)
    requires
        step >= 1,
        lengths_from(len, step, max_len).contains(x),
    ensures
        len <= x <= max_len,
        (x - len) % step == 0,
    decreases (if len > max_len { 0 } else { max_len - len + 1 }),
{
    let ls = lengths_from(len, step, max_len);
    assert(len <= max_len);
    assert(ls == seq![len] + lengths_from(len + step, step, max_len));
    let q = choose|q: int| 0 <= q < ls.len() && ls[q] == x;
    if q > 0 {
        let rest = lengths_from(len + step, step, max_len);
        assert(rest[q - 1] == x);
        lemma_lengths_from_only(len + step, step, max_len, x);
        assert((x - len) % step == 0) by (nonlinear_arith)
            requires (x - (len + step)) % step == 0, step >= 1;
    } else {
        assert((x - len) % step == 0) by (nonlinear_arith)
            requires x == len, step >= 1;
    }
}

proof fn lemma_scans_cover(buf: Seq<u8>, ls: Seq<int>, i: int, j: int)
    requires
        0 <= i < ls.len(),
        0 <= j < scan_spec(buf, ls[i]).len(),
    ensures
        scans(buf, ls).contains(scan_spec(buf, ls[i])[j]),
    decreases ls.len(),
{
    let r0 = scans(buf, ls.drop_last());
    let sc = scan_spec(buf, ls.last());
    assert(scans(buf, ls) == r0 + sc);
    if i == ls.len() - 1 {
        assert((r0 + sc)[r0.len() + j] == sc[j]);
    } else {
        assert(ls.drop_last()[i] == ls[i]);
        lemma_scans_cover(buf, ls.drop_last(), i, j);
        let q = choose|q: int| 0 <= q < r0.len() && r0[q] == scan_spec(buf, ls[i])[j];
        assert((r0 + sc)[q] == r0[q]);
    }
}

/// Every length of the scan is scanned: for a buffer of `n` bytes, with
/// `m` the smaller of MAX_STR_LEN and `n / 2` and `step` the larger of one
/// and `(m - MIN_STR_LEN) / MAX_LENGTHS`, each length `MIN_STR_LEN +
/// k * step` up to `m` is among the scanned lengths, and every frequency
/// record of that length is among the buffer's records.
pub proof fn lemma_every_length_scanned(buf: Seq<u8>, k: int)
    requires
        ({
            let m = if buf.len() as int / 2 < MAX_STR_LEN { buf.len() as int / 2 } else { MAX_STR_LEN as int };
            let step = if (m - MIN_STR_LEN) / (MAX_LENGTHS as int) > 1 { (m - MIN_STR_LEN) / (MAX_LENGTHS as int) } else { 1 };
            k >= 0 && MIN_STR_LEN + k * step <= m
        }),
    ensures
        ({
            let m = if buf.len() as int / 2 < MAX_STR_LEN { buf.len() as int / 2 } else { MAX_STR_LEN as int };
            let step = if (m - MIN_STR_LEN) / (MAX_LENGTHS as int) > 1 { (m - MIN_STR_LEN) / (MAX_LENGTHS as int) } else { 1 };
            let l = MIN_STR_LEN + k * step;
            &&& scan_lengths(buf.len() as int).contains(l)
            &&& forall|j: int| 0 <= j < scan_spec(buf, l).len() ==> freq_spec(buf).contains(#[trigger] scan_spec(buf, l)[j])
        }),
{
    let m = if buf.len() as int / 2 < MAX_STR_LEN { buf.len() as int / 2 } else { MAX_STR_LEN as int };
    let step = if (m - MIN_STR_LEN) / (MAX_LENGTHS as int) > 1 { (m - MIN_STR_LEN) / (MAX_LENGTHS as int) } else { 1 };
    let l = MIN_STR_LEN + k * step;
    assert(k * step >= 0) by (nonlinear_arith)
        requires k >= 0, step >= 1;
    assert(m == max_scan_len(buf.len() as int) && step == length_step(m));
    lemma_lengths_from_has(MIN_STR_LEN as int, step, m, k);
    let ls = scan_lengths(buf.len() as int);
    assert(ls == lengths_from(MIN_STR_LEN as int, step, m));
    let i = choose|i: int| 0 <= i < ls.len() && ls[i] == l;
    assert forall|j: int| 0 <= j < scan_spec(buf, l).len() implies freq_spec(buf).contains(#[trigger] scan_spec(buf, l)[j]) by {
        lemma_scans_cover(buf, ls, i, j);
    }
}

/// Only those lengths are scanned: each scanned length of a buffer of `n`
/// bytes is `MIN_STR_LEN` plus a multiple of the step, at most the smaller
/// of MAX_STR_LEN and `n / 2`.
pub proof fn lemma_scanned_lengths_only(n: int, x: int)
    requires
        scan_lengths(n).contains(x),
    ensures
        ({
            let m = if n / 2 < MAX_STR_LEN { n / 2 } else { MAX_STR_LEN as int };
            let step = if (m - MIN_STR_LEN) / (MAX_LENGTHS as int) > 1 { (m - MIN_STR_LEN) / (MAX_LENGTHS as int) } else { 1 };
            &&& MIN_STR_LEN <= x <= m
            &&& (x - MIN_STR_LEN) % step == 0
        }),
{
    let m = max_scan_len(n);
    if m < MIN_STR_LEN {
        assert(scan_lengths(n) =~= Seq::<int>::empty());
    } else {
        lemma_lengths_from_only(MIN_STR_LEN as int, length_step(m), m, x);
    }
}

/// All frequency records of the buffer, over every scanned length.
fn build_frequency_map(buf: &[u8]) -> (freq: Vec<(Vec<u8>, usize)>)
    requires
        buf@.len() <= u32::MAX,
    ensures
        pairs_view(freq@) == freq_spec(buf@),
        records_bounded(pairs_view(freq@), buf@.len() as int),
{
    let mut freq: Vec<(Vec<u8>, usize)> = Vec::new();
    let n = buf.len();
    let max_len = if n / 2 < MAX_STR_LEN { n / 2 } else { MAX_STR_LEN };
    if max_len < MIN_STR_LEN {
        assert(pairs_view(freq@) =~= freq_spec(buf@));
        return freq;
    }
    let range = max_len - MIN_STR_LEN;
    let step = if range / MAX_LENGTHS > 1 { range / MAX_LENGTHS } else { 1 };
    let ghost all = lengths_from(MIN_STR_LEN as int, step as int, max_len as int);
    let ghost mut done: Seq<int> = Seq::empty();
    let mut len: usize = MIN_STR_LEN;
    proof {
        assert(done + all =~= all);
        assert(pairs_view(freq@) =~= scans(buf@, done));
    }
    while len <= max_len
        invariant
            MIN_STR_LEN <= len <= max_len + step,
            1 <= step <= MAX_STR_LEN,
            max_len <= MAX_STR_LEN,
            buf@.len() <= u32::MAX,
            done + lengths_from(len as int, step as int, max_len as int) == all,
            pairs_view(freq@) == scans(buf@, done),
            records_bounded(pairs_view(freq@), buf@.len() as int),
        decreases max_len + step - len,
    {
        let ghost before = pairs_view(freq@);
        scan_length(buf, len, &mut freq);
        proof {
            lemma_scan_spec_bounded(buf@, len as int);
            let d1 = done.push(len as int);
            assert(d1.drop_last() =~= done);
            assert(lengths_from(len as int, step as int, max_len as int)
                == seq![len as int] + lengths_from(len + step, step as int, max_len as int));
            assert(d1 + lengths_from(len + step, step as int, max_len as int) =~= all);
            let sc = scan_spec(buf@, len as int);
            assert forall|k: int| 0 <= k < pairs_view(freq@).len() implies (#[trigger] pairs_view(freq@)[k]).0.len() <= MAX_STR_LEN
                && pairs_view(freq@)[k].1 <= buf@.len() by {
                if k < before.len() {
                    assert(pairs_view(freq@)[k] == before[k]);
                } else {
                    assert(pairs_view(freq@)[k] == sc[k - before.len()]);
                }
            }
            done = d1;
        }
        len = len + step;
    }
    proof {
        assert(lengths_from(len as int, step as int, max_len as int) =~= Seq::<int>::empty());
        assert(done =~= all);
    }
    freq
}

/// Build a dictionary for `buf`: a greedy selection of at most
/// `MAX_ENTRIES` entries over its frequency records. Occurrences are
/// counted in 32 bits, and an entry's saving, its length less two times
/// its count, is a `usize`: with `buf.len() * MAX_STR_LEN` within `usize`
/// none overflows.
pub fn build(buf: &[u8]) -> (r: Vec<DictEntry>)
    requires
        buf@.len() <= u32::MAX,
        buf@.len() * MAX_STR_LEN <= usize::MAX,
    ensures
        buf@.len() == 0 ==> r@.len() == 0,
        buf@.len() > 0 ==> is_selection(freq_spec(buf@), r@, MAX_ENTRIES as nat),
        forall|k: int| 0 <= k < r@.len() ==> (#[trigger] r@[k]).saving > 0 && r@[k].freq >= MIN_FREQ,
        forall|k: int| 0 <= k < r@.len() ==> (#[trigger] r@[k]).bytes@.len() <= MAX_STR_LEN && r@[k].saving <= MAX_STR_LEN * buf@.len(),
{
    if buf.len() == 0 {
        return Vec::new();
    }
    let freq = build_frequency_map(buf);
    proof {
        assert forall|q: int| 0 <= q < freq@.len() implies saving_of((#[trigger] freq@[q]).0@, freq@[q].1 as nat) <= usize::MAX by {
            let pv = pairs_view(freq@);
            assert(pv[q] == (freq@[q].0@, freq@[q].1 as nat));
            assert(pv[q].0.len() <= MAX_STR_LEN && pv[q].1 <= buf@.len());
            let w = freq@[q].0@.len() as int;
            let c = freq@[q].1 as int;
            let n = buf@.len() as int;
            assert(w <= 128 && c <= n);
            assert((w - 2) * c <= 128 * n) by (nonlinear_arith)
                requires w <= 128, 0 <= c <= n, w >= 0, n >= 0;
            assert(saving_of(freq@[q].0@, freq@[q].1 as nat) == (w - 2) * c);
        }
    }
    let r = select_entries(freq);
    proof {
        lemma_selection_positive(freq_spec(buf@), r@, MAX_ENTRIES as nat);
        let cands = freq_spec(buf@);
        assert forall|k: int| 0 <= k < r@.len() implies (#[trigger] r@[k]).bytes@.len() <= MAX_STR_LEN
            && r@[k].saving <= MAX_STR_LEN * buf@.len() by {
            assert(entry_from(cands, r@[k]));
            let q = choose|q: int|
                0 <= q < cands.len() && cand_ok(cands[q].0, cands[q].1) && #[trigger] cands[q].0 == r@[k].bytes@
                    && cands[q].1 == r@[k].freq && r@[k].saving == saving_of(cands[q].0, cands[q].1);
            assert(cands[q].0.len() <= MAX_STR_LEN && cands[q].1 <= buf@.len());
            let w = cands[q].0.len() as int;
            let c = cands[q].1 as int;
            let n = buf@.len() as int;
            assert((w - 2) * c <= 128 * n) by (nonlinear_arith)
                requires w <= 128, 0 <= c <= n, w >= 0, n >= 0;
        }
    }
    r
}

/// Every entry of a selection saves bytes and occurs at least `MIN_FREQ` times.
pub proof fn lemma_selection_positive(cands: Seq<(Seq<u8>, nat)>, r: Seq<DictEntry>, cap: nat)
    requires
        is_selection(cands, r, cap),
    ensures
        forall|k: int| 0 <= k < r.len() ==> (#[trigger] r[k]).saving > 0 && r[k].freq >= MIN_FREQ,
{
    assert forall|k: int| 0 <= k < r.len() implies (#[trigger] r[k]).saving > 0 && r[k].freq >= MIN_FREQ by {
        assert(entry_from(cands, r[k]));
        let q = choose|q: int|
            0 <= q < cands.len() && cand_ok(cands[q].0, cands[q].1) && #[trigger] cands[q].0 == r[k].bytes@ && cands[q].1
                == r[k].freq && r[k].saving == saving_of(cands[q].0, cands[q].1);
        let w = cands[q].0.len() - 2;
        let c = cands[q].1 as int;
        assert(w * c > 0) by (nonlinear_arith)
            requires w >= 1, c >= 3;
    }
}

/// The first `c` entries of a greedy selection with a larger cap are the
/// greedy selection with cap `c`.
pub proof fn lemma_selection_prefix(cands: Seq<(Seq<u8>, nat)>, r: Seq<DictEntry>, cap: nat, c: nat)
    requires
        is_selection(cands, r, cap),
        c <= cap,
    ensures
        is_selection(cands, r.take(if c < r.len() { c as int } else { r.len() as int }), c),
{
    let m: int = if c < r.len() { c as int } else { r.len() as int };
    let p = r.take(m);
    assert forall|k: int| 0 <= k < p.len() implies entry_from(cands, #[trigger] p[k]) by {
        assert(p[k] == r[k]);
        assert(entry_from(cands, r[k]));
    }
    assert forall|a: int, b: int| 0 <= a < b < p.len() implies (#[trigger] p[a]).saving >= (#[trigger] p[b]).saving by {
        assert(p[a] == r[a] && p[b] == r[b]);
    }
    assert forall|a: int, b: int| 0 <= a < b < p.len() implies !contains_sub((#[trigger] p[a]).bytes@, (#[trigger] p[b]).bytes@) by {
        assert(p[a] == r[a] && p[b] == r[b]);
    }
    assert forall|q: int| 0 <= q < cands.len() && cand_ok(cands[q].0, cands[q].1) implies {
        ||| selected(p, #[trigger] cands[q].0, cands[q].1)
        ||| exists|k: int|
            0 <= k < p.len() && p[k].saving >= saving_of(cands[q].0, cands[q].1) && contains_sub(#[trigger] p[k].bytes@, cands[q].0)
        ||| (p.len() == c && forall|k: int| 0 <= k < p.len() ==> #[trigger] p[k].saving >= saving_of(cands[q].0, cands[q].1))
    } by {
        let sv = saving_of(cands[q].0, cands[q].1);
        if selected(r, cands[q].0, cands[q].1) {
            let k = choose|k: int| 0 <= k < r.len() && #[trigger] r[k].bytes@ == cands[q].0 && r[k].freq == cands[q].1;
            if k < m {
                assert(p[k] == r[k]);
                assert(selected(p, cands[q].0, cands[q].1));
            } else {
                assert(entry_from(cands, r[k]));
                assert(r[k].saving == sv);
                assert forall|j: int| 0 <= j < p.len() implies #[trigger] p[j].saving >= sv by {
                    assert(p[j] == r[j]);
                }
            }
        } else if exists|k: int|
            0 <= k < r.len() && r[k].saving >= sv && contains_sub(#[trigger] r[k].bytes@, cands[q].0) {
            let k = choose|k: int| 0 <= k < r.len() && r[k].saving >= sv && contains_sub(#[trigger] r[k].bytes@, cands[q].0);
            if k < m {
                assert(p[k] == r[k]);
            } else {
                assert forall|j: int| 0 <= j < p.len() implies #[trigger] p[j].saving >= sv by {
                    assert(p[j] == r[j]);
                }
            }
        } else {
            assert forall|j: int| 0 <= j < p.len() implies #[trigger] p[j].saving >= sv by {
                assert(p[j] == r[j]);
            }
        }
    }
}

/// Build a second dictionary from residual (non-token) bytes, with no more
/// entries than the slots left after `pass1_count` first-pass entries.
pub fn build_second_pass(residual: &[u8], pass1_count: usize) -> (r: Vec<DictEntry>)
    requires
        residual@.len() <= u32::MAX,
        residual@.len() * MAX_STR_LEN <= usize::MAX,
    ensures
        (residual@.len() == 0 || pass1_count >= MAX_ENTRIES) ==> r@.len() == 0,
        (residual@.len() > 0 && pass1_count < MAX_ENTRIES) ==> is_selection(
            freq_spec(residual@),
            r@,
            (MAX_ENTRIES - pass1_count) as nat,
        ),
        forall|k: int| 0 <= k < r@.len() ==> (#[trigger] r@[k]).bytes@.len() <= MAX_STR_LEN && r@[k].saving <= MAX_STR_LEN * residual@.len(),
{
    if residual.len() == 0 {
        return Vec::new();
    }
    let remaining_slots = MAX_ENTRIES.saturating_sub(pass1_count);
    if remaining_slots == 0 {
        return Vec::new();
    }
    let mut entries = build(residual);
    let ghost full = entries@;
    entries.truncate(remaining_slots);
    proof {
        lemma_selection_prefix(freq_spec(residual@), full, MAX_ENTRIES as nat, remaining_slots as nat);
        let m: int = if remaining_slots < full.len() { remaining_slots as int } else { full.len() as int };
        assert(entries@ =~= full.take(m));
        assert forall|k: int| 0 <= k < entries@.len() implies (#[trigger] entries@[k]).bytes@.len() <= MAX_STR_LEN
            && entries@[k].saving <= MAX_STR_LEN * residual@.len() by {
            assert(entries@[k] == full[k]);
        }
    }
    entries
}

} // verus!
