//! Dictionary fractal: the sliding window's entries, serialized compactly
//! and compressed with the pipeline itself.

use vstd::prelude::*;
use crate::bytes::{le32_bytes, le32_value};
use crate::pipeline::{pipeline_compressed, pipeline_decoded, Mode};

verus! {

/// Recompress the window every this many batches.
pub const RECOMPRESS_INTERVAL: u64 = 100;

/// A window entry as plain values.
pub open spec fn window_view(es: Seq<(Vec<u8>, u64, u64)>) -> Seq<(Seq<u8>, u64, u64)> {
    es.map_values(|e: (Vec<u8>, u64, u64)| (e.0@, e.1, e.2))
}

/// One record: the length byte, the bytes, then frequency and saving as
/// u32 little endian.
pub open spec fn window_record(e: (Seq<u8>, u64, u64)) -> Seq<u8> {
    seq![e.0.len() as u8] + e.0 + le32_bytes(e.1 as u32) + le32_bytes(e.2 as u32)
}

/// The records of all entries, in order.
pub open spec fn window_records(es: Seq<(Seq<u8>, u64, u64)>) -> Seq<u8>
    decreases es.len(),
{
    if es.len() == 0 {
        Seq::empty()
    } else {
        window_records(es.drop_last()) + window_record(es.last())
    }
}

/// The entries read from `data[i..]`, stopping at the first record that is
/// cut short.
pub open spec fn window_parse(data: Seq<u8>, i: int) -> Seq<(Seq<u8>, u64, u64)>
    decreases data.len() - i,
{
    if i < 0 || i >= data.len() {
        Seq::empty()
    } else {
        let blen = data[i] as int;
        if i + 1 + blen + 8 > data.len() {
            Seq::empty()
        } else {
            let p = i + 1 + blen;
            seq![(data.subrange(i + 1, p), le32_value(data.subrange(p, p + 4)) as u64, le32_value(data.subrange(p + 4, p + 8)) as u64)]
                + window_parse(data, p + 8)
        }
    }
}

/// Serialize window entries.
pub fn serialize_entries(entries: &[(Vec<u8>, u64, u64)]) -> (out: Vec<u8>)
    ensures
        out@ == window_records(window_view(entries@)),
{
    let ghost ev = window_view(entries@);
    let mut out: Vec<u8> = Vec::new();
    let mut k: usize = 0;
    while k < entries.len()
        invariant
            k <= entries@.len(),
            ev == window_view(entries@),
            out@ == window_records(ev.take(k as int)),
        decreases entries@.len() - k,
    {
        let e = &entries[k];
        proof {
            assert(ev.take(k + 1).drop_last() =~= ev.take(k as int));
            assert(ev.take(k + 1).last() == ev[k as int]);
        }
        let ghost o0 = out@;
        out.push(e.0.len() as u8);
        crate::bytes::append_bytes(&mut out, e.0.as_slice());
        crate::bytes::push_le32(&mut out, e.1 as u32);
        crate::bytes::push_le32(&mut out, e.2 as u32);
        proof {
            assert(out@ =~= o0 + window_record(ev[k as int]));
        }
        k = k + 1;
    }
    proof {
        assert(ev.take(k as int) =~= ev);
    }
    out
}

/// Read window entries, stopping at the first record that is cut short.
pub fn deserialize_entries(data: &[u8]) -> (r: Vec<(Vec<u8>, u64, u64)>)
    ensures
        window_view(r@) == window_parse(data@, 0),
{
    let mut entries: Vec<(Vec<u8>, u64, u64)> = Vec::new();
    let mut i: usize = 0;
    proof {
        assert(window_view(entries@) + window_parse(data@, 0) =~= window_parse(data@, 0));
    }
    while i < data.len()
        invariant
            i <= data@.len(),
            window_view(entries@) + window_parse(data@, i as int) == window_parse(data@, 0),
        decreases data@.len() - i,
    {
        let blen = data[i] as usize;
        if blen + 8 > data.len() - (i + 1) {
            proof {
                assert(window_parse(data@, i as int) =~= Seq::<(Seq<u8>, u64, u64)>::empty());
                assert(window_view(entries@) + Seq::<(Seq<u8>, u64, u64)>::empty() =~= window_view(entries@));
            }
            return entries;
        }
        let p = i + 1 + blen;
        let bytes = vstd::slice::slice_to_vec(vstd::slice::slice_subrange(data, i + 1, p));
        let freq = crate::bytes::read_le32(data, p) as u64;
        let saving = crate::bytes::read_le32(data, p + 4) as u64;
        let ghost e0 = entries@;
        entries.push((bytes, freq, saving));
        proof {
            assert(window_view(entries@) =~= window_view(e0).push((data@.subrange(i + 1, p as int), freq, saving)));
            assert(window_view(entries@) + window_parse(data@, p + 8) =~= window_view(e0) + window_parse(data@, i as int));
        }
        i = p + 8;
    }
    proof {
        assert(window_parse(data@, i as int) =~= Seq::<(Seq<u8>, u64, u64)>::empty());
        assert(window_view(entries@) + Seq::<(Seq<u8>, u64, u64)>::empty() =~= window_view(entries@));
    }
    entries
}

proof fn lemma_window_parse_records(es: Seq<(Seq<u8>, u64, u64)>, rest: Seq<u8>, k: int)
    requires
        0 <= k <= es.len(),
        forall|j: int| 0 <= j < es.len() ==> (#[trigger] es[j]).0.len() <= 255 && es[j].1 <= u32::MAX && es[j].2 <= u32::MAX,
        cut_short(rest),
    ensures
        window_parse(window_records(es) + rest, window_records(es.take(k)).len() as int) == es.skip(k),
    decreases es.len() - k,
{
    let data = window_records(es) + rest;
    let rl = window_records(es).len() as int;
    if k == es.len() {
        assert(es.take(k) =~= es);
        assert(es.skip(k) =~= Seq::<(Seq<u8>, u64, u64)>::empty());
        if rest.len() > 0 {
            assert(data[rl] == rest[0]);
        }
    } else {
        lemma_window_parse_records(es, rest, k + 1);
        let e = es[k];
        let i = window_records(es.take(k)).len() as int;
        assert(es.take(k + 1).drop_last() =~= es.take(k));
        assert(window_records(es.take(k + 1)) == window_records(es.take(k)) + window_record(e));
        lemma_records_prefix(es, k + 1);
        let blen = e.0.len() as int;
        let p = i + 1 + blen;
        assert forall|m: int| 0 <= m < window_record(e).len() implies #[trigger] data[i + m] == window_record(e)[m] by {
            assert(window_records(es.take(k + 1))[i + m] == window_record(e)[m]);
            assert(window_records(es)[i + m] == window_records(es.take(k + 1))[i + m]);
            assert(data[i + m] == window_records(es)[i + m]);
        }
        assert(data[i] == window_record(e)[0]);
        assert(data.subrange(i + 1, p) =~= e.0) by {
            assert forall|m: int| 0 <= m < blen implies #[trigger] data.subrange(i + 1, p)[m] == e.0[m] by {
                assert(data[i + (1 + m)] == window_record(e)[1 + m]);
            }
        }
        assert(data.subrange(p, p + 4) =~= le32_bytes(e.1 as u32)) by {
            assert forall|m: int| 0 <= m < 4 implies #[trigger] data.subrange(p, p + 4)[m] == le32_bytes(e.1 as u32)[m] by {
                assert(data[i + (1 + blen + m)] == window_record(e)[1 + blen + m]);
            }
        }
        assert(data.subrange(p + 4, p + 8) =~= le32_bytes(e.2 as u32)) by {
            assert forall|m: int| 0 <= m < 4 implies #[trigger] data.subrange(p + 4, p + 8)[m] == le32_bytes(e.2 as u32)[m] by {
                assert(data[i + (5 + blen + m)] == window_record(e)[5 + blen + m]);
            }
        }
        crate::bytes::lemma_le32_roundtrip(e.1 as u32);
        crate::bytes::lemma_le32_roundtrip(e.2 as u32);
        assert(es.skip(k) =~= seq![e] + es.skip(k + 1));
    }
}

proof fn lemma_records_prefix(es: Seq<(Seq<u8>, u64, u64)>, k: int)
    requires
        0 <= k <= es.len(),
    ensures
        window_records(es.take(k)).len() <= window_records(es).len(),
        forall|j: int| 0 <= j < window_records(es.take(k)).len() ==> #[trigger] window_records(es)[j] == window_records(es.take(k))[j],
    decreases es.len() - k,
{
    if k < es.len() {
        lemma_records_prefix(es, k + 1);
        assert(es.take(k + 1).drop_last() =~= es.take(k));
        let a = window_records(es.take(k));
        let b = window_records(es.take(k + 1));
        assert forall|j: int| 0 <= j < a.len() implies #[trigger] window_records(es)[j] == a[j] by {
            assert(b[j] == a[j]);
            assert(window_records(es)[j] == b[j]);
        }
    } else {
        assert(es.take(k) =~= es);
    }
}

/// `rest` is nothing, or a record cut short: its length byte announces
/// more bytes than follow.
pub open spec fn cut_short(rest: Seq<u8>) -> bool {
    rest.len() == 0 || 1 + rest[0] + 8 > rest.len()
}

/// Reading serialized window entries gives them back, when each entry's
/// bytes fit the length byte and its counts fit 32 bits, also when a
/// record cut short follows them.
pub proof fn lemma_entries_roundtrip_cut(es: Seq<(Seq<u8>, u64, u64)>, rest: Seq<u8>)
    requires
        forall|j: int| 0 <= j < es.len() ==> (#[trigger] es[j]).0.len() <= 255 && es[j].1 <= u32::MAX && es[j].2 <= u32::MAX,
        cut_short(rest),
    ensures
        window_parse(window_records(es) + rest, 0) == es,
{
    lemma_window_parse_records(es, rest, 0);
    assert(es.take(0) =~= Seq::<(Seq<u8>, u64, u64)>::empty());
    assert(es.skip(0) =~= es);
}

/// Reading serialized window entries gives them back, when each entry's
/// bytes fit the length byte and its counts fit 32 bits.
pub proof fn lemma_entries_roundtrip(es: Seq<(Seq<u8>, u64, u64)>)
    requires
        forall|j: int| 0 <= j < es.len() ==> (#[trigger] es[j]).0.len() <= 255 && es[j].1 <= u32::MAX && es[j].2 <= u32::MAX,
    ensures
        window_parse(window_records(es), 0) == es,
{
    lemma_entries_roundtrip_cut(es, Seq::empty());
    assert(window_records(es) + Seq::<u8>::empty() =~= window_records(es));
}

/// Compress window entries with the pipeline.
pub fn compress_window(entries: &[(Vec<u8>, u64, u64)]) -> (out: Vec<u8>)
    requires
        window_records(window_view(entries@)).len() <= u32::MAX,
        window_records(window_view(entries@)).len() * 128 <= usize::MAX,
    ensures
        pipeline_compressed(window_records(window_view(entries@)), Mode::Auto, out@),
{
    let serialized = serialize_entries(entries);
    crate::pipeline::compress(serialized.as_slice())
}

/// Decompress window entries; nothing when the pipeline refuses the data.
pub fn decompress_window(compressed: &[u8]) -> (r: Vec<(Vec<u8>, u64, u64)>)
    ensures
        window_view(r@) == match pipeline_decoded(compressed@) {
            Some(d) => window_parse(d, 0),
            None => Seq::empty(),
        },
{
    match crate::pipeline::decompress(compressed) {
        Ok(data) => deserialize_entries(data.as_slice()),
        Err(_) => {
            let r: Vec<(Vec<u8>, u64, u64)> = Vec::new();
            assert(window_view(r@) =~= Seq::<(Seq<u8>, u64, u64)>::empty());
            r
        },
    }
}

/// Decompressing compressed window entries gives them back, when the
/// frame's payload fits its 32-bit length field, and each entry's bytes fit
/// the length byte and its counts fit 32 bits.
pub proof fn lemma_window_roundtrip(es: Seq<(Seq<u8>, u64, u64)>, out: Seq<u8>)
    requires
        pipeline_compressed(window_records(es), Mode::Auto, out),
        out.len() <= u32::MAX + crate::pipeline::FRAME_OVERHEAD,
        forall|j: int| 0 <= j < es.len() ==> (#[trigger] es[j]).0.len() <= 255 && es[j].1 <= u32::MAX && es[j].2 <= u32::MAX,
    ensures
        (match pipeline_decoded(out) {
            Some(d) => window_parse(d, 0),
            None => Seq::empty(),
        }) == es,
{
    let s = window_records(es);
    crate::pipeline::lemma_pipeline_roundtrip(s, Mode::Auto, out);
    lemma_entries_roundtrip(es);
}

} // verus!
