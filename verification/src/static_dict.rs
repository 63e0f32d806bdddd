//! The pre-trained static dictionary format.
//!
//! Layout:
//!   magic:   "GNSD" (4 bytes)
//!   version: u32 LE (4 bytes)
//!   count:   u32 LE (4 bytes)
//!   entries: [blen(u8) + bytes + freq(u64 LE) + saving(u64 LE)] * count

use vstd::prelude::*;
use crate::bytes::le32_value;

verus! {

/// The message of a read that runs past the end of the data.
pub open spec fn eof_message() -> Seq<char> {
    "failed to fill whole buffer"@
}

/// The little-endian value of eight bytes.
pub open spec fn le64_value(s: Seq<u8>) -> u64 {
    (le32_value(s.subrange(0, 4)) as int + le32_value(s.subrange(4, 8)) as int * 0x1_0000_0000) as u64
}

/// The magic "GNSD".
pub open spec fn dict_magic() -> Seq<u8> {
    seq![0x47u8, 0x4Eu8, 0x53u8, 0x44u8]
}

/// The first `k` entries read from position 12, and the position after
/// them, or `None` when the data ends inside one.
pub open spec fn dict_entries(data: Seq<u8>, k: nat) -> Option<(Seq<(Seq<u8>, u64, u64)>, int)>
    decreases k,
{
    if k == 0 {
        Some((Seq::empty(), 12))
    } else {
        match dict_entries(data, (k - 1) as nat) {
            None => None,
            Some((es, p)) => {
                if p + 1 > data.len() {
                    None
                } else {
                    let blen = data[p] as int;
                    let q = p + 1 + blen;
                    if q + 16 > data.len() {
                        None
                    } else {
                        Some((
                            es.push((data.subrange(p + 1, q), le64_value(data.subrange(q, q + 8)), le64_value(data.subrange(q + 8, q + 16)))),
                            q + 16,
                        ))
                    }
                }
            },
        }
    }
}

/// How a static dictionary reads: `Err(true)` when the data ends early,
/// `Err(false)` for a wrong magic, else the entries.
pub open spec fn dict_spec(data: Seq<u8>) -> Result<Seq<(Seq<u8>, u64, u64)>, bool> {
    if data.len() < 4 {
        Err(true)
    } else if data.take(4) != dict_magic() {
        Err(false)
    } else if data.len() < 12 {
        Err(true)
    } else {
        match dict_entries(data, le32_value(data.subrange(8, 12)) as nat) {
            None => Err(true),
            Some((es, _)) => Ok(es),
        }
    }
}

/// The entries as plain values.
pub open spec fn dict_view(es: Seq<(Vec<u8>, u64, u64)>) -> Seq<(Seq<u8>, u64, u64)> {
    es.map_values(|e: (Vec<u8>, u64, u64)| (e.0@, e.1, e.2))
}

fn read_le64(data: &[u8], pos: usize) -> (r: u64)
    requires
        pos + 8 <= data@.len(),
    ensures
        r == le64_value(data@.subrange(pos as int, pos + 8)),
{
    assert(data@.len() == data.len());
    let lo = crate::bytes::read_le32(data, pos) as u64;
    let hi = crate::bytes::read_le32(data, pos + 4) as u64;
    proof {
        let s = data@.subrange(pos as int, pos + 8);
        assert(s.subrange(0, 4) =~= data@.subrange(pos as int, pos + 4));
        assert(s.subrange(4, 8) =~= data@.subrange(pos + 4, pos + 8));
        assert(hi * 0x1_0000_0000 <= 0xFFFF_FFFF_0000_0000) by (nonlinear_arith)
            requires hi <= 0xFFFF_FFFF;
    }
    lo + hi * 0x1_0000_0000
}

/// Parse a static dictionary.
pub fn parse_dict(data: &[u8]) -> (r: Result<Vec<(Vec<u8>, u64, u64)>, String>)
    ensures
        match dict_spec(data@) {
            Ok(es) => r matches Ok(v) && dict_view(v@) == es,
            Err(eof) => r matches Err(e) && e@ == if eof { eof_message() } else { "bad magic"@ },
        },
{
    if data.len() < 4 {
        return Err(String::from_str("failed to fill whole buffer"));
    }
    if !(data[0] == 0x47 && data[1] == 0x4E && data[2] == 0x53 && data[3] == 0x44) {
        proof {
            if data@.take(4) == dict_magic() {
                assert(data@.take(4)[0] == data@[0] && data@.take(4)[1] == data@[1]);
                assert(data@.take(4)[2] == data@[2] && data@.take(4)[3] == data@[3]);
            }
        }
        return Err(String::from_str("bad magic"));
    }
    proof {
        assert(data@.take(4) =~= dict_magic());
    }
    if data.len() < 12 {
        return Err(String::from_str("failed to fill whole buffer"));
    }
    let count = crate::bytes::read_le32(data, 8) as usize;
    let mut entries: Vec<(Vec<u8>, u64, u64)> = Vec::new();
    let mut pos: usize = 12;
    let mut k: usize = 0;
    while k < count
        invariant
            k <= count,
            count == le32_value(data@.subrange(8, 12)),
            data@.take(4) == dict_magic(),
            12 <= pos <= data@.len(),
            dict_entries(data@, k as nat) == Some((dict_view(entries@), pos as int)),
        decreases count - k,
    {
        if pos >= data.len() {
            proof {
                assert(dict_entries(data@, (k + 1) as nat) is None);
                lemma_dict_fail(data@, (k + 1) as nat, count as nat);
            }
            return Err(String::from_str("failed to fill whole buffer"));
        }
        let blen = data[pos] as usize;
        if data.len() - (pos + 1) < blen + 16 {
            proof {
                assert(dict_entries(data@, (k + 1) as nat) is None);
                lemma_dict_fail(data@, (k + 1) as nat, count as nat);
            }
            return Err(String::from_str("failed to fill whole buffer"));
        }
        let q = pos + 1 + blen;
        let bytes = vstd::slice::slice_to_vec(vstd::slice::slice_subrange(data, pos + 1, q));
        let freq = read_le64(data, q);
        let saving = read_le64(data, q + 8);
        let ghost e0 = entries@;
        entries.push((bytes, freq, saving));
        proof {
            assert(dict_view(entries@) =~= dict_view(e0).push((data@.subrange(pos + 1, q as int), freq, saving)));
        }
        pos = q + 16;
        k = k + 1;
    }
    Ok(entries)
}

proof fn lemma_dict_fail(data: Seq<u8>, k: nat, count: nat)
    requires
        k <= count,
        dict_entries(data, k) is None,
    ensures
        dict_entries(data, count) is None,
    decreases count - k,
{
    if k < count {
        lemma_dict_fail(data, k + 1, count);
    }
}

/// The bundled static dictionary's bytes. No pre-trained dictionary is
/// bundled with this crate, so they are empty.
fn bundled_dict_bytes() -> (b: Vec<u8>)
    ensures
        b@.len() == 0,
{
    Vec::new()
}

/// The bundled static dictionary's entries, none when it does not parse.
pub fn load_static_dict() -> (r: Vec<(Vec<u8>, u64, u64)>)
    ensures
        dict_view(r@) == match dict_spec(Seq::empty()) {
            Ok(es) => es,
            Err(_) => Seq::empty(),
        },
{
    let bytes = bundled_dict_bytes();
    proof {
        assert(bytes@ =~= Seq::<u8>::empty());
    }
    match parse_dict(bytes.as_slice()) {
        Ok(v) => v,
        Err(_) => {
            let r: Vec<(Vec<u8>, u64, u64)> = Vec::new();
            assert(dict_view(r@) =~= Seq::<(Seq<u8>, u64, u64)>::empty());
            r
        },
    }
}

} // verus!
