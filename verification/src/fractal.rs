//! Fractal dictionary sharding: a tiered vocabulary of universal (L0),
//! per-shard-type (L1), per-session (L2) and per-chunk (L3) patterns,
//! self-contained shard frames, and snapshots of the persistent tiers.

use vstd::prelude::*;
use crate::tokenizer::codon::{ac_buildable, tiers_ranked, tiered_result};
use vstd::slice::{slice_subrange, slice_to_vec};
use crate::bytes::{le16_bytes, le16_value, le32_bytes, le32_value};
use crate::level4::window_records;
use crate::pipeline::{deflate_spec, inflate_spec};
use crate::tokenizer::{ranked, ranked_stable, saving_sorted, views_bytes};
use crate::tokenizer::codon::{ac_inter_from, ac_leftmost_longest, entries_agree, interleaved_prefix, interleaved_spec, long_views, matches_ok, AcIndex};
use crate::tokenizer::dictionary::{entry_bytes, entry_view, entry_views, DictEntry};
use crate::tokenizer::sliding::EntryView;
use crate::tokenizer::sliding_v2::{active_ok, fed, fresh, lifted_entries, SlidingTokenizerV2};

verus! {

pub const PROMOTE_L3_THRESHOLD: u64 = 3;
pub const PROMOTE_L2_THRESHOLD: u64 = 50;
pub const L1_MAX_ENTRIES: usize = 64;
pub const L2_MAX_ENTRIES: usize = 64;

#[derive(Debug, Clone, Copy, PartialEq, Eq, Hash, Structural)]
pub enum ShardType {
    SystemMessage,
    UserIntent,
    AssistantResponse,
    CodeBlock,
    ToolCall,
    ToolResult,
    Generic,
}

/// The shard type a name stands for; unknown names are `Generic`.
pub open spec fn shard_type_of(s: Seq<char>) -> ShardType {
    if s == "system_message"@ {
        ShardType::SystemMessage
    } else if s == "user_intent"@ {
        ShardType::UserIntent
    } else if s == "assistant_response"@ {
        ShardType::AssistantResponse
    } else if s == "code_block"@ {
        ShardType::CodeBlock
    } else if s == "tool_call"@ {
        ShardType::ToolCall
    } else if s == "tool_result"@ {
        ShardType::ToolResult
    } else {
        ShardType::Generic
    }
}

impl ShardType {
    /// The shard type named `s`.
    pub fn from_str(s: &str) -> (t: Self)
        ensures
            t == shard_type_of(s@),
    {
        let owned = s.to_owned();
        if owned == String::from_str("system_message") {
            ShardType::SystemMessage
        } else if owned == String::from_str("user_intent") {
            ShardType::UserIntent
        } else if owned == String::from_str("assistant_response") {
            ShardType::AssistantResponse
        } else if owned == String::from_str("code_block") {
            ShardType::CodeBlock
        } else if owned == String::from_str("tool_call") {
            ShardType::ToolCall
        } else if owned == String::from_str("tool_result") {
            ShardType::ToolResult
        } else {
            ShardType::Generic
        }
    }
}

/// The tag byte a shard type is written as.
pub open spec fn shard_tag(t: ShardType) -> u8 {
    match t {
        ShardType::SystemMessage => 0x01,
        ShardType::UserIntent => 0x02,
        ShardType::AssistantResponse => 0x03,
        ShardType::CodeBlock => 0x04,
        ShardType::ToolCall => 0x05,
        ShardType::ToolResult => 0x06,
        ShardType::Generic => 0x00,
    }
}

/// The shard type a tag byte stands for; unknown tags are `Generic`.
pub open spec fn shard_of_tag(b: u8) -> ShardType {
    if b == 0x01 {
        ShardType::SystemMessage
    } else if b == 0x02 {
        ShardType::UserIntent
    } else if b == 0x03 {
        ShardType::AssistantResponse
    } else if b == 0x04 {
        ShardType::CodeBlock
    } else if b == 0x05 {
        ShardType::ToolCall
    } else if b == 0x06 {
        ShardType::ToolResult
    } else {
        ShardType::Generic
    }
}

/// The tag byte of a shard type.
pub fn shard_type_byte(stype: &ShardType) -> (b: u8)
    ensures
        b == shard_tag(*stype),
{
    match stype {
        ShardType::SystemMessage => 0x01,
        ShardType::UserIntent => 0x02,
        ShardType::AssistantResponse => 0x03,
        ShardType::CodeBlock => 0x04,
        ShardType::ToolCall => 0x05,
        ShardType::ToolResult => 0x06,
        ShardType::Generic => 0x00,
    }
}

/// The shard type of a tag byte.
pub fn shard_type_from_byte(b: u8) -> (t: ShardType)
    ensures
        t == shard_of_tag(b),
{
    match b {
        0x01 => ShardType::SystemMessage,
        0x02 => ShardType::UserIntent,
        0x03 => ShardType::AssistantResponse,
        0x04 => ShardType::CodeBlock,
        0x05 => ShardType::ToolCall,
        0x06 => ShardType::ToolResult,
        _ => ShardType::Generic,
    }
}

/// Reading back the tag of a shard type gives the shard type.
pub proof fn lemma_shard_tag_roundtrip(t: ShardType)
    ensures
        shard_of_tag(shard_tag(t)) == t,
{
}

/// Reading back the name of a shard type gives the shard type.
pub proof fn lemma_shard_name_roundtrip()
    ensures
        shard_type_of("system_message"@) == ShardType::SystemMessage,
        shard_type_of("user_intent"@) == ShardType::UserIntent,
        shard_type_of("assistant_response"@) == ShardType::AssistantResponse,
        shard_type_of("code_block"@) == ShardType::CodeBlock,
        shard_type_of("tool_call"@) == ShardType::ToolCall,
        shard_type_of("tool_result"@) == ShardType::ToolResult,
{
    reveal_strlit("system_message");
    reveal_strlit("user_intent");
    reveal_strlit("assistant_response");
    reveal_strlit("code_block");
    reveal_strlit("tool_call");
    reveal_strlit("tool_result");
    assert("user_intent"@.len() != "system_message"@.len());
    assert("assistant_response"@.len() != "system_message"@.len());
    assert("assistant_response"@.len() != "user_intent"@.len());
    assert("code_block"@.len() != "system_message"@.len());
    assert("code_block"@.len() != "user_intent"@.len());
    assert("code_block"@.len() != "assistant_response"@.len());
    assert("tool_call"@.len() != "system_message"@.len());
    assert("tool_call"@.len() != "user_intent"@.len());
    assert("tool_call"@.len() != "assistant_response"@.len());
    assert("tool_call"@.len() != "code_block"@.len());
    assert("tool_result"@.len() != "system_message"@.len());
    assert("tool_result"@[0] != "user_intent"@[0]);
    assert("tool_result"@.len() != "assistant_response"@.len());
    assert("tool_result"@.len() != "code_block"@.len());
    assert("tool_result"@.len() != "tool_call"@.len());
}

/// Bitwise CRC32 (reflected IEEE polynomial) of snapshot bytes: the same
/// value as the table-driven CRC32 of the codecs.
pub fn crc32_simple(data: &[u8]) -> (r: u32)
    ensures
        r == crate::codec::crc::crc32_spec(data@),
{
    let mut crc: u32 = 0xFFFF_FFFF;
    let mut i: usize = 0;
    while i < data.len()
        invariant
            i <= data@.len(),
            crc == crate::codec::crc::crc_register(data@.take(i as int)),
        decreases data@.len() - i,
    {
        proof {
            assert(data@.take(i + 1).drop_last() =~= data@.take(i as int));
            assert(data@.take(i + 1).last() == data@[i as int]);
        }
        crc = crc ^ (data[i] as u32);
        let ghost c0 = crc;
        let mut j: u32 = 0;
        while j < 8
            invariant
                j <= 8,
                crc == crate::codec::crc::crc_bit_steps(c0, j as nat),
            decreases 8 - j,
        {
            let ghost before = crc;
            if crc & 1 != 0 {
                crc = (crc >> 1) ^ 0xEDB8_8320;
                proof {
                    assert((before >> 1u32) ^ 0xEDB8_8320u32 == 0xEDB8_8320u32 ^ (before >> 1u32)) by (bit_vector);
                }
            } else {
                crc = crc >> 1;
            }
            j = j + 1;
        }
        proof {
            crate::codec::crc::lemma_bit_steps_8(c0);
        }
        i = i + 1;
    }
    proof {
        assert(data@.take(data@.len() as int) =~= data@);
        assert(!crc == crc ^ 0xFFFF_FFFFu32) by (bit_vector);
    }
    !crc
}

/// The slot of a shard type's domain tier.
fn shard_slot(t: &ShardType) -> (i: usize)
    ensures
        i == shard_tag(*t) as usize,
        i < SHARD_SLOTS,
{
    shard_type_byte(t) as usize
}

/// One domain tier per shard type, indexed by its tag.
pub const SHARD_SLOTS: usize = 7;

/// The byte strings a chunk tier serializes to: each pattern as its
/// length byte then its bytes (longer patterns are left out).
pub open spec fn chunk_records(es: Seq<EntryView>) -> Seq<u8>
    decreases es.len(),
{
    if es.len() == 0 {
        Seq::empty()
    } else {
        chunk_records(es.drop_last()) + record_of(es.last())
    }
}

/// One chunk record: the pattern's length byte then its bytes; nothing
/// for a pattern longer than 255 bytes.
pub open spec fn record_of(e: EntryView) -> Seq<u8> {
    if e.0.len() <= 255 { seq![e.0.len() as u8] + e.0 } else { Seq::empty() }
}

/// The patterns read back from chunk records `tab[i..]`, stopping at the
/// first record that is cut short.
pub open spec fn chunk_patterns(tab: Seq<u8>, i: int) -> Seq<Seq<u8>>
    decreases tab.len() - i,
{
    if i < 0 || i >= tab.len() {
        Seq::empty()
    } else {
        let p = i + 1 + tab[i] as int;
        if p > tab.len() {
            Seq::empty()
        } else {
            seq![tab.subrange(i + 1, p)] + chunk_patterns(tab, p)
        }
    }
}

/// What a shard frame decodes to under universal patterns `l0` and domain
/// patterns `l1`: the empty frame is the empty shard; `None` when the
/// header is cut short, the frame is shorter than its header states, a
/// stream does not inflate, or the streams do not decode.
pub open spec fn shard_decoded(data: Seq<u8>, l0: Seq<Seq<u8>>, l1: Seq<Seq<u8>>) -> Option<Seq<u8>> {
    if data.len() == 0 {
        Some(Seq::empty())
    } else if data.len() < 5 {
        None
    } else {
        let pl = le16_value(data.subrange(1, 3)) as int;
        let he = 5 + le16_value(data.subrange(3, 5)) as int;
        if data.len() < he + pl {
            None
        } else {
            let l3 = chunk_patterns(data.subrange(5, he), 0);
            match (inflate_spec(data.subrange(he, he + pl)), inflate_spec(data.subrange(he + pl, data.len() as int))) {
                (Some(pairs), Some(lits)) => interleaved_spec(pairs, lits, l0 + l1 + l3),
                _ => None,
            }
        }
    }
}

/// The tiered compressor's state.
pub struct FractalCompressor {
    l0: Vec<DictEntry>,
    /// The domain tiers, one slot per shard type, indexed by the type's
    /// tag: a map keyed by the seven tags, held as a vector so that what a
    /// slot holds is stated exactly.
    l1_by_type: Vec<Option<Vec<DictEntry>>>,
    /// The session windows by session id, in order of first use, each id
    /// once. The ids are strings, and a hash map keyed by strings lets
    /// nothing be proved of what it holds, so the pairs are kept in a
    /// vector and looked up by comparing ids.
    l2_by_session: Vec<(String, SlidingTokenizerV2)>,
    cached_ac: Option<AcIndex>,
    ac_dirty: bool,
    last_shard_type: Option<ShardType>,
    last_session_id: Option<String>,
}

/// Copy entries onto the end of `out`.
fn extend_entries(out: &mut Vec<DictEntry>, src: &[DictEntry])
    ensures
        entry_views(final(out)@) == entry_views(old(out)@) + entry_views(src@),
{
    let ghost start = entry_views(out@);
    let mut k: usize = 0;
    while k < src.len()
        invariant
            k <= src@.len(),
            entry_views(out@) == start + entry_views(src@).take(k as int),
        decreases src@.len() - k,
    {
        let e = src[k].duplicate();
        let ghost before = out@;
        out.push(e);
        proof {
            assert(entry_views(out@) =~= entry_views(before).push(entry_view(e)));
            assert(entry_views(src@).take(k + 1) =~= entry_views(src@).take(k as int).push(entry_views(src@)[k as int]));
        }
        k = k + 1;
    }
    proof {
        assert(entry_views(src@).take(src@.len() as int) =~= entry_views(src@));
    }
}

impl FractalCompressor {
    /// The universal tier.
    pub closed spec fn l0_view(&self) -> Seq<EntryView> {
        entry_views(self.l0@)
    }

    /// The domain tier of a shard type, if it was created.
    pub closed spec fn l1_view(&self, t: ShardType) -> Option<Seq<EntryView>> {
        match self.l1_by_type@[shard_tag(t) as int] {
            Some(v) => Some(entry_views(v@)),
            None => None,
        }
    }

    /// The domain tier of a shard type, empty when it was not created.
    pub open spec fn l1_entries(&self, t: ShardType) -> Seq<EntryView> {
        match self.l1_view(t) {
            Some(v) => v,
            None => Seq::empty(),
        }
    }

    /// The session identifiers, in the order the sessions were opened.
    pub closed spec fn session_ids(&self) -> Seq<Seq<char>> {
        self.l2_by_session@.map_values(|e: (String, SlidingTokenizerV2)| e.0@)
    }

    /// The sliding window of the `i`-th session.
    pub closed spec fn session(&self, i: int) -> SlidingTokenizerV2 {
        self.l2_by_session@[i].1
    }

    pub closed spec fn wf(&self) -> bool {
        self.wf_tiers() && self.ac_dirty
    }

    closed spec fn wf_tiers(&self) -> bool {
        &&& self.l1_by_type@.len() == SHARD_SLOTS
        &&& forall|i: int, j: int| 0 <= i < j < self.l2_by_session@.len() ==>
            (#[trigger] self.l2_by_session@[i]).0@ != (#[trigger] self.l2_by_session@[j]).0@
        &&& forall|i: int| 0 <= i < self.l2_by_session@.len() ==>
            (#[trigger] self.l2_by_session@[i]).1.wf() && (self.l2_by_session@[i].1.stale() || self.l2_by_session@[i].1.has_index())
        &&& self.cached_ac matches Some(a) ==> a.wf()
    }

    pub fn new() -> (t: Self)
        ensures
            t.wf(),
            t.l0_view() == Seq::<EntryView>::empty(),
            forall|s: ShardType| #[trigger] t.l1_view(s) is None,
            t.session_ids() == Seq::<Seq<char>>::empty(),
    {
        let mut l1: Vec<Option<Vec<DictEntry>>> = Vec::new();
        let mut k: usize = 0;
        while k < SHARD_SLOTS
            invariant
                k <= SHARD_SLOTS,
                l1@.len() == k,
                forall|j: int| 0 <= j < k ==> #[trigger] l1@[j] is None,
            decreases SHARD_SLOTS - k,
        {
            l1.push(None);
            k = k + 1;
        }
        let t = FractalCompressor {
            l0: Vec::new(),
            l1_by_type: l1,
            l2_by_session: Vec::new(),
            cached_ac: None,
            ac_dirty: true,
            last_shard_type: None,
            last_session_id: None,
        };
        proof {
            assert(t.l0_view() =~= Seq::<EntryView>::empty());
            assert(t.session_ids() =~= Seq::<Seq<char>>::empty());
            assert forall|s: ShardType| #[trigger] t.l1_view(s) is None by {
                assert(shard_tag(s) < 7);
            }
        }
        t
    }

    /// Load the universal tier: the entries as dictionary entries, the 63
    /// with the largest savings, largest first.
    pub fn load_l0(&mut self, entries: Vec<(Vec<u8>, u64, u64)>)
        requires
            old(self).wf(),
        ensures
            final(self).wf(),
            ranked(lifted_entries(entries@), final(self).l0_view(), 63),
            forall|s: ShardType| #[trigger] final(self).l1_view(s) == old(self).l1_view(s),
            final(self).session_ids() == old(self).session_ids(),
            forall|i: int| 0 <= i < old(self).session_ids().len() ==> #[trigger] final(self).session(i) == old(self).session(i),
    {
        let mut all: Vec<DictEntry> = Vec::new();
        let mut k: usize = 0;
        while k < entries.len()
            invariant
                k <= entries@.len(),
                entry_views(all@) == lifted_entries(entries@).take(k as int),
            decreases entries@.len() - k,
        {
            let e = DictEntry { bytes: slice_to_vec(entries[k].0.as_slice()), freq: entries[k].1 as usize, saving: entries[k].2 as usize };
            let ghost before = all@;
            all.push(e);
            proof {
                assert(entry_views(all@) =~= entry_views(before).push(entry_view(e)));
                assert(lifted_entries(entries@).take(k + 1) =~= lifted_entries(entries@).take(k as int).push(lifted_entries(entries@)[k as int]));
            }
            k = k + 1;
        }
        proof {
            assert(lifted_entries(entries@).take(entries@.len() as int) =~= lifted_entries(entries@));
        }
        self.l0 = crate::tokenizer::rank_by_saving(&all, 63);
        self.ac_dirty = true;
    }

    /// The number of universal entries, of shard types with a domain tier,
    /// of domain entries in all, and of sessions.
    pub fn stats(&self) -> (r: FractalStats)
        requires
            self.wf(),
            slot_total(self.slot_lens(), SHARD_SLOTS as int) <= usize::MAX,
        ensures
            r.l0_entries == self.l0_view().len(),
            r.l1_types == slot_count(self.slot_lens(), SHARD_SLOTS as int),
            r.l1_total == slot_total(self.slot_lens(), SHARD_SLOTS as int),
            r.l2_sessions == self.session_ids().len(),
    {
        let mut types: usize = 0;
        let mut total: usize = 0;
        let mut k: usize = 0;
        while k < self.l1_by_type.len()
            invariant
                k <= self.l1_by_type@.len(),
                self.slot_lens().len() == self.l1_by_type@.len(),
                types == slot_count(self.slot_lens(), k as int),
                total == slot_total(self.slot_lens(), k as int),
                types <= k,
                slot_total(self.slot_lens(), self.l1_by_type@.len() as int) <= usize::MAX,
            decreases self.l1_by_type@.len() - k,
        {
            proof {
                lemma_slot_total_mono(self.slot_lens(), k + 1, self.l1_by_type@.len() as int);
            }
            proof {
                assert(self.slot_lens()[k as int] == match self.l1_by_type@[k as int] {
                    Some(v) => Some(v@.len()),
                    None => None::<nat>,
                });
            }
            match &self.l1_by_type[k] {
                Some(v) => {
                    types = types + 1;
                    total = total + v.len();
                },
                None => {},
            }
            k = k + 1;
        }
        proof {
            assert(self.session_ids().len() == self.l2_by_session@.len());
        }
        FractalStats { l0_entries: self.l0.len(), l1_types: types, l1_total: total, l2_sessions: self.l2_by_session.len() }
    }

    /// Compress a shard with the tiered vocabulary into a self-contained
    /// frame (the chunk tier travels in it). First the session's frequent
    /// patterns are promoted into the domain tier, so that the frame is
    /// written against the tiers the compressor keeps after the call; then
    /// the session's window learns from the shard and its chunk patterns,
    /// to be promoted on its next shard.
    #[verifier::rlimit(60)]
    pub fn compress_shard(&mut self, data: &[u8], shard_type: &str, session_id: &str) -> (out: Vec<u8>)
        requires
            old(self).wf(),
            data@.len() <= u32::MAX,
            data@.len() * 128 <= usize::MAX,
        ensures
            final(self).wf(),
            exists|l3: Seq<EntryView>, ac: Option<Seq<Seq<u8>>>| chunk_tier(data@, l3)
                && #[trigger] tiered_patterns(old(self).l0_view(), final(self).l1_entries(shard_type_of(shard_type@)), l3, ac)
                && streams_ok(data@, ac)
                && out@ == shard_frame(shard_tag(shard_type_of(shard_type@)), shard_streams(data@, ac), l3),
            final(self).l0_view() == old(self).l0_view(),
            forall|s: ShardType| s != shard_type_of(shard_type@) ==> #[trigger] final(self).l1_view(s) == old(self).l1_view(s),
            final(self).l1_view(shard_type_of(shard_type@)) is Some,
            final(self).session_ids() == (if old(self).session_ids().contains(session_id@) {
                old(self).session_ids()
            } else {
                old(self).session_ids().push(session_id@)
            }),
            forall|j: int| 0 <= j < old(self).session_ids().len() && old(self).session_ids()[j] != session_id@
                ==> #[trigger] final(self).session(j) == old(self).session(j),
            exists|t: SlidingTokenizerV2, active: Seq<EntryView>|
                #[trigger] active_ok(t.window_view(), t.cached_view(), t.stale(), active)
                && session_start(*old(self), session_id@, t)
                && promoted(old(self).l1_entries(shard_type_of(shard_type@)), active,
                    final(self).l1_entries(shard_type_of(shard_type@))),
            distinct_bytes(old(self).l1_entries(shard_type_of(shard_type@)))
                ==> distinct_bytes(final(self).l1_entries(shard_type_of(shard_type@))),
            data@.len() < 0x10000 && out@.len() < 0x10000 ==> decodes_back(out@, final(self).l0_view(),
                final(self).l1_entries(shard_type_of(shard_type@)), data@),
    {
        let stype = ShardType::from_str(shard_type);
        let l3 = chunk_tier_entries(data);
        let ghost l1_before = self.l1_entries(stype);
        let ghost ids0 = self.session_ids();
        self.ensure_l1(&stype);
        let ghost st_a = *self;
        let si = self.ensure_session(session_id);
        let ghost st_b = *self;
        self.promote_l2_to_l1(&stype, si);
        let ghost st_c = *self;
        let ghost l1_used = self.l1_entries(stype);
        let slot = shard_slot(&stype);
        let mut l1_snap: Vec<DictEntry> = Vec::new();
        match &self.l1_by_type[slot] {
            Some(v) => extend_entries(&mut l1_snap, v.as_slice()),
            None => {},
        }
        proof {
            assert(entry_views(l1_snap@) =~= l1_used);
        }
        let same_type = match &self.last_shard_type {
            Some(t) => *t == stype,
            None => false,
        };
        let sid = session_id.to_owned();
        let same_session = match &self.last_session_id {
            Some(x) => *x == sid,
            None => false,
        };
        if self.ac_dirty || !same_type || !same_session {
            let empty: Vec<DictEntry> = Vec::new();
            self.cached_ac = crate::tokenizer::codon::build_tiered_ac(self.l0.as_slice(), l1_snap.as_slice(),
                empty.as_slice(), l3.as_slice());
            self.ac_dirty = false;
            self.last_shard_type = Some(stype);
            self.last_session_id = Some(sid);
            proof {
                let le = long_views(entry_views(empty@));
                assert(entry_views(empty@) =~= Seq::<EntryView>::empty());
                assert(le =~= Seq::<EntryView>::empty());
                lemma_tiered(self.l0@, l1_snap@, empty@, l3@, self.cached_ac);
            }
        }
        let ghost acv = match &self.cached_ac {
            Some(a) => Some(a.patterns()),
            None => None,
        };
        proof {
            assert(entry_views(self.l0@) == old(self).l0_view());
            assert(tiered_patterns(old(self).l0_view(), l1_used, entry_views(l3@), acv));
        }
        let ghost mid = *self;
        let (pairs, literals) = shard_streams_of(data, &self.cached_ac);
        proof {
            if let Some(a) = &self.cached_ac {
                let p = a.patterns();
                assert(matches_ok(p, data@, ac_leftmost_longest(p, data@)));
            }
        }
        let l3_ser = chunk_records_of(l3.as_slice());
        let pairs_deflated = crate::pipeline::deflate(pairs.as_slice());
        let lits_deflated = crate::pipeline::deflate(literals.as_slice());
        self.feed_session(si, data);
        let ghost fed = *self;
        self.promote_l3_to_l2(&l3, si);
        proof {
            assert(st_a.l1_entries(stype) == l1_before);
            let t = st_b.session(si as int);
            let active = choose|active: Seq<EntryView>| #[trigger] active_ok(st_b.session(si as int).window_view(),
                st_b.session(si as int).cached_view(), st_b.session(si as int).stale(), active)
                && promoted(st_b.l1_entries(stype), active, st_c.l1_entries(stype));
            assert(st_b.l1_entries(stype) == l1_before);
            assert(self.l1_entries(stype) == l1_used);
            if ids0.contains(session_id@) {
                assert(ids0[si as int] == session_id@);
                assert(t == old(self).session(si as int));
                assert(session_start(*old(self), session_id@, t));
            } else {
                assert(session_start(*old(self), session_id@, t));
            }
            assert(active_ok(t.window_view(), t.cached_view(), t.stale(), active));
            assert(self.session_ids()[si as int] == session_id@);
            assert forall|j: int| 0 <= j < ids0.len() && ids0[j] != session_id@
                implies #[trigger] self.session(j) == old(self).session(j) by {
                assert(j != si);
                assert(self.session(j) == fed.session(j));
                assert(fed.session(j) == mid.session(j));
                assert(mid.session(j) == st_c.session(j));
                assert(st_c.session(j) == st_b.session(j));
                assert(st_b.session(j) == st_a.session(j));
                assert(st_a.session(j) == old(self).session(j));
            }
        }
        self.ac_dirty = true;
        let mut out: Vec<u8> = Vec::new();
        out.push(shard_type_byte(&stype));
        crate::bytes::push_le16(&mut out, (pairs_deflated.len() % 0x10000) as u16);
        crate::bytes::push_le16(&mut out, (l3_ser.len() % 0x10000) as u16);
        crate::bytes::append_bytes(&mut out, l3_ser.as_slice());
        crate::bytes::append_bytes(&mut out, pairs_deflated.as_slice());
        crate::bytes::append_bytes(&mut out, lits_deflated.as_slice());
        proof {
            assert(out@ =~= shard_frame(shard_tag(stype), shard_streams(data@, acv), entry_views(l3@)));
            assert(chunk_tier(data@, entry_views(l3@)));
            if data@.len() < 0x10000 && out@.len() < 0x10000 {
                assert(deflate_spec(shard_streams(data@, acv).0).len() < 0x10000);
                assert forall|t0: Seq<EntryView>, t1: Seq<EntryView>| #[trigger] decode_tiers(old(self).l0_view(), l1_used, t0, t1)
                    implies shard_decoded(out@, views_bytes(t0), views_bytes(t1)) == Some(data@) by {
                    lemma_compress_roundtrip(shard_tag(stype), data@, old(self).l0_view(), l1_used, entry_views(l3@), acv, t0, t1);
                }
            }
            assert(self.session_ids()[si as int] == session_id@);
            assert forall|s: ShardType| s != stype implies #[trigger] self.l1_view(s) == old(self).l1_view(s) by {
                assert(self.l1_view(s) == mid.l1_view(s));
                assert(mid.l1_view(s) == st_c.l1_view(s));
                assert(st_c.l1_view(s) == st_b.l1_view(s));
                assert(st_b.l1_view(s) == st_a.l1_view(s));
                assert(st_a.l1_view(s) == old(self).l1_view(s));
            }
        }
        out
    }

    /// The persistent tiers as snapshot bytes: "GNFT", version 5, the
    /// universal entries' records and the domain entries' records (each
    /// entry's bytes behind its shard type's tag), each behind its length
    /// as u32 little endian, then the CRC32 of all that.
    pub fn snapshot_bytes(&self) -> (out: Vec<u8>)
        requires
            self.wf(),
        ensures
            out@ == snapshot_image(self.l0_view(), self.tagged_l1()),
    {
        let mut l0_raw: Vec<(Vec<u8>, u64, u64)> = Vec::new();
        let mut k: usize = 0;
        while k < self.l0.len()
            invariant
                k <= self.l0@.len(),
                crate::level4::window_view(l0_raw@) == exported_views(self.l0_view().take(k as int)),
            decreases self.l0@.len() - k,
        {
            let e = &self.l0[k];
            let t = (slice_to_vec(e.bytes.as_slice()), e.freq as u64, e.saving as u64);
            let ghost before = l0_raw@;
            l0_raw.push(t);
            proof {
                assert(crate::level4::window_view(l0_raw@) =~= crate::level4::window_view(before).push((t.0@, t.1, t.2)));
                assert(self.l0_view().take(k + 1) =~= self.l0_view().take(k as int).push(entry_view(self.l0@[k as int])));
                assert(exported_views(self.l0_view().take(k + 1)) =~= exported_views(self.l0_view().take(k as int)).push((t.0@, t.1, t.2)));
            }
            k = k + 1;
        }
        proof {
            assert(self.l0_view().take(self.l0@.len() as int) =~= self.l0_view());
        }
        let l0_ser = crate::level4::serialize_entries(l0_raw.as_slice());
        let mut l1_all: Vec<(Vec<u8>, u64, u64)> = Vec::new();
        let mut slot: usize = 0;
        while slot < SHARD_SLOTS
            invariant
                slot <= SHARD_SLOTS,
                self.wf(),
                crate::level4::window_view(l1_all@) == tagged_slots(self.slot_views(), slot as int),
            decreases SHARD_SLOTS - slot,
        {
            match &self.l1_by_type[slot] {
                Some(v) => {
                    let mut j: usize = 0;
                    let ghost start = crate::level4::window_view(l1_all@);
                    while j < v.len()
                        invariant
                            j <= v@.len(),
                            slot < SHARD_SLOTS,
                            crate::level4::window_view(l1_all@) == start + tagged_views(slot as u8, entry_views(v@).take(j as int)),
                        decreases v@.len() - j,
                    {
                        let e = &v[j];
                        let mut tagged: Vec<u8> = Vec::new();
                        tagged.push(slot as u8);
                        crate::bytes::append_bytes(&mut tagged, e.bytes.as_slice());
                        let t = (tagged, e.freq as u64, e.saving as u64);
                        let ghost before = l1_all@;
                        l1_all.push(t);
                        proof {
                            assert(crate::level4::window_view(l1_all@) =~= crate::level4::window_view(before).push((t.0@, t.1, t.2)));
                            assert(entry_views(v@).take(j + 1) =~= entry_views(v@).take(j as int).push(entry_view(v@[j as int])));
                            assert(t.0@ =~= seq![slot as u8] + e.bytes@);
                            assert(tagged_views(slot as u8, entry_views(v@).take(j + 1))
                                =~= tagged_views(slot as u8, entry_views(v@).take(j as int)).push((t.0@, t.1, t.2)));
                        }
                        j = j + 1;
                    }
                    proof {
                        assert(entry_views(v@).take(v@.len() as int) =~= entry_views(v@));
                        assert(self.slot_views()[slot as int] == Some(entry_views(v@)));
                    }
                },
                None => {
                    proof {
                        assert(self.slot_views()[slot as int] is None);
                        assert(crate::level4::window_view(l1_all@) =~= crate::level4::window_view(l1_all@) + Seq::<(Seq<u8>, u64, u64)>::empty());
                    }
                },
            }
            slot = slot + 1;
        }
        let l1_ser = crate::level4::serialize_entries(l1_all.as_slice());
        let mut out: Vec<u8> = Vec::new();
        out.push(0x47);
        out.push(0x4E);
        out.push(0x46);
        out.push(0x54);
        out.push(SNAPSHOT_VERSION);
        #[verifier::truncate]
        let l0_len = l0_ser.len() as u32;
        crate::bytes::push_le32(&mut out, l0_len);
        crate::bytes::append_bytes(&mut out, l0_ser.as_slice());
        #[verifier::truncate]
        let l1_len = l1_ser.len() as u32;
        crate::bytes::push_le32(&mut out, l1_len);
        crate::bytes::append_bytes(&mut out, l1_ser.as_slice());
        let crc = crc32_simple(out.as_slice());
        let ghost body = out@;
        crate::bytes::push_le32(&mut out, crc);
        proof {
            assert(body =~= snapshot_body(self.l0_view(), self.tagged_l1()));
        }
        out
    }

    /// Replace the persistent tiers by those a snapshot holds; `Err` when
    /// the snapshot is too short, has another magic or version, or its CRC
    /// does not match (the tiers are replaced before the CRC is checked).
    pub fn load_snapshot_bytes(&mut self, data: &[u8]) -> (r: Result<(), String>)
        requires
            old(self).wf(),
            snapshot_in_bounds(data@),
        ensures
            final(self).wf(),
            final(self).session_ids() == old(self).session_ids(),
            forall|j: int| 0 <= j < old(self).session_ids().len() ==> #[trigger] final(self).session(j) == old(self).session(j),
            !snapshot_header_ok(data@) ==> *final(self) == *old(self) && r is Err,
            data@.len() < 9 ==> (r matches Err(e) && e@ == "snapshot too short"@),
            data@.len() >= 9 && data@.take(4) != snapshot_magic() ==> (r matches Err(e) && e@ == "bad magic"@),
            snapshot_header_ok(data@) ==> {
                &&& final(self).l0_view() == lifted_records(snapshot_l0(data@))
                &&& forall|t: ShardType| #[trigger] final(self).l1_view(t) == l1_loaded(snapshot_l1(data@), t)
                &&& (r is Ok <==> snapshot_crc_ok(data@))
            },
    {
        if data.len() < 9 {
            return Err(String::from_str("snapshot too short"));
        }
        if !(data[0] == 0x47 && data[1] == 0x4E && data[2] == 0x46 && data[3] == 0x54) {
            proof {
                assert(data@.take(4) != snapshot_magic()) by {
                    if data@.take(4) == snapshot_magic() {
                        assert(data@.take(4)[0] == data@[0]);
                        assert(data@.take(4)[1] == data@[1]);
                        assert(data@.take(4)[2] == data@[2]);
                        assert(data@.take(4)[3] == data@[3]);
                    }
                }
            }
            return Err(String::from_str("bad magic"));
        }
        proof {
            assert(data@.take(4) =~= snapshot_magic());
        }
        if data[4] != SNAPSHOT_VERSION {
            return Err(version_error(data[4]));
        }
        let mut pos: usize = 5;
        let l0_len = crate::bytes::read_le32(data, pos) as usize;
        pos = pos + 4;
        let l0_entries = crate::level4::deserialize_entries(slice_subrange(data, pos, pos + l0_len));
        pos = pos + l0_len;
        let mut l0: Vec<DictEntry> = Vec::new();
        let mut k: usize = 0;
        while k < l0_entries.len()
            invariant
                k <= l0_entries@.len(),
                entry_views(l0@) == lifted_records(crate::level4::window_view(l0_entries@).take(k as int)),
            decreases l0_entries@.len() - k,
        {
            let e = DictEntry { bytes: slice_to_vec(l0_entries[k].0.as_slice()), freq: l0_entries[k].1 as usize, saving: l0_entries[k].2 as usize };
            let ghost before = l0@;
            l0.push(e);
            proof {
                let wv = crate::level4::window_view(l0_entries@);
                assert(entry_views(l0@) =~= entry_views(before).push(entry_view(e)));
                assert(wv.take(k + 1) =~= wv.take(k as int).push(wv[k as int]));
                assert(lifted_records(wv.take(k + 1)) =~= lifted_records(wv.take(k as int)).push(entry_view(e)));
            }
            k = k + 1;
        }
        proof {
            assert(crate::level4::window_view(l0_entries@).take(l0_entries@.len() as int) =~= crate::level4::window_view(l0_entries@));
        }
        self.l0 = l0;
        self.ac_dirty = true;
        let ghost l0v = self.l0_view();
        let l1_len = crate::bytes::read_le32(data, pos) as usize;
        pos = pos + 4;
        let l1_entries = crate::level4::deserialize_entries(slice_subrange(data, pos, pos + l1_len));
        pos = pos + l1_len;
        let ghost recs = crate::level4::window_view(l1_entries@);
        let mut slot: usize = 0;
        while slot < SHARD_SLOTS
            invariant
                slot <= SHARD_SLOTS,
                self.l1_by_type@.len() == SHARD_SLOTS,
                forall|j: int| 0 <= j < slot ==> #[trigger] self.l1_by_type@[j] is None,
                self.l2_by_session == old(self).l2_by_session,
                self.cached_ac == old(self).cached_ac,
                self.l0_view() == l0v,
                self.ac_dirty,
            decreases SHARD_SLOTS - slot,
        {
            self.l1_by_type.set(slot, None);
            slot = slot + 1;
        }
        proof {
            assert forall|t: ShardType| #[trigger] self.l1_view(t) == l1_loaded(recs.take(0), t) by {
                assert(shard_tag(t) < 7);
            }
        }
        let mut k: usize = 0;
        while k < l1_entries.len()
            invariant
                k <= l1_entries@.len(),
                recs == crate::level4::window_view(l1_entries@),
                self.l1_by_type@.len() == SHARD_SLOTS,
                forall|t: ShardType| #[trigger] self.l1_view(t) == l1_loaded(recs.take(k as int), t),
                self.l2_by_session == old(self).l2_by_session,
                self.cached_ac == old(self).cached_ac,
                self.l0_view() == l0v,
                self.ac_dirty,
            decreases l1_entries@.len() - k,
        {
            proof {
                assert(recs.take(k + 1).drop_last() =~= recs.take(k as int));
                assert(recs.take(k + 1).last() == recs[k as int]);
            }
            let tagged = &l1_entries[k].0;
            if tagged.len() > 0 {
                let stype = shard_type_from_byte(tagged[0]);
                let slot = shard_slot(&stype);
                let bytes = slice_to_vec(slice_subrange(tagged.as_slice(), 1, tagged.len()));
                let e = DictEntry { bytes, freq: l1_entries[k].1 as usize, saving: l1_entries[k].2 as usize };
                let mut tier: Vec<DictEntry> = Vec::new();
                match &self.l1_by_type[slot] {
                    Some(v) => extend_entries(&mut tier, v.as_slice()),
                    None => {},
                }
                let ghost before = entry_views(tier@);
                proof {
                    lemma_shard_tag_roundtrip(stype);
                    assert(self.l1_view(stype) == l1_loaded(recs.take(k as int), stype));
                    assert(before == l1_loaded(recs.take(k as int), stype).unwrap_or(Seq::empty()));
                }
                tier.push(e);
                proof {
                    assert(entry_views(tier@) =~= before.push(entry_view(e)));
                    assert(tagged@.skip(1) =~= bytes@);
                }
                let ghost pre = *self;
                let ghost fin = entry_views(tier@);
                self.l1_by_type.set(slot, Some(tier));
                proof {
                    assert(recs[k as int] == (tagged@, l1_entries@[k as int].1, l1_entries@[k as int].2));
                    assert(recs.take(k + 1).len() > 0);
                    assert forall|t: ShardType| #[trigger] self.l1_view(t) == l1_loaded(recs.take(k + 1), t) by {
                        lemma_shard_tag_roundtrip(t);
                        lemma_shard_tag_roundtrip(stype);
                        assert(pre.l1_view(t) == l1_loaded(recs.take(k as int), t));
                        if t != stype {
                            assert(shard_tag(t) != shard_tag(stype));
                            assert(self.l1_view(t) == pre.l1_view(t));
                            assert(l1_loaded(recs.take(k + 1), t) == l1_loaded(recs.take(k as int), t));
                        } else {
                            assert(self.l1_view(t) == Some(fin));
                            assert(fin == before.push(entry_view(e)));
                            assert(l1_loaded(recs.take(k + 1), t) == Some(l1_loaded(recs.take(k as int), t).unwrap_or(Seq::empty())
                                .push((tagged@.skip(1), (l1_entries@[k as int].1 as usize) as nat, (l1_entries@[k as int].2 as usize) as nat))));
                        }
                    }
                }
            } else {
                proof {
                    assert(recs[k as int].0 == tagged@);
                    assert forall|t: ShardType| #[trigger] self.l1_view(t) == l1_loaded(recs.take(k + 1), t) by {
                        assert(l1_loaded(recs.take(k + 1), t) == l1_loaded(recs.take(k as int), t));
                    }
                }
            }
            k = k + 1;
        }
        proof {
            assert(recs.take(l1_entries@.len() as int) =~= recs);
        }
        let crc_stored = crate::bytes::read_le32(data, pos);
        let crc_computed = crc32_simple(slice_subrange(data, 0, pos));
        proof {
            assert(self.session_ids() == old(self).session_ids());
            assert(pos == snapshot_l1_end(data@));
            assert(data@.subrange(0, pos as int) =~= data@.take(pos as int));
            assert(l0v == lifted_records(snapshot_l0(data@)));
            assert(recs == snapshot_l1(data@));
        }
        if crc_stored != crc_computed {
            return Err(crc_error(crc_stored, crc_computed));
        }
        Ok(())
    }

    /// The domain entries with their shard type's tag in front of their
    /// bytes, slot by slot.
    pub closed spec fn tagged_l1(&self) -> Seq<(Seq<u8>, u64, u64)> {
        tagged_slots(self.slot_views(), SHARD_SLOTS as int)
    }

    /// The domain tiers slot by slot.
    pub closed spec fn slot_views(&self) -> Seq<Option<Seq<EntryView>>> {
        self.l1_by_type@.map_values(|o: Option<Vec<DictEntry>>| match o {
            Some(v) => Some(entry_views(v@)),
            None => None,
        })
    }

    /// Create the domain tier of a shard type when it is missing.
    fn ensure_l1(&mut self, t: &ShardType)
        requires
            old(self).wf(),
        ensures
            final(self).wf(),
            final(self).l0 == old(self).l0,
            final(self).l2_by_session == old(self).l2_by_session,
            final(self).cached_ac == old(self).cached_ac,
            final(self).last_shard_type == old(self).last_shard_type,
            final(self).last_session_id == old(self).last_session_id,
            final(self).ac_dirty == old(self).ac_dirty,
            forall|s: ShardType| s != *t ==> #[trigger] final(self).l1_view(s) == old(self).l1_view(s),
            final(self).l1_view(*t) == Some(old(self).l1_entries(*t)),
    {
        let slot = shard_slot(t);
        if self.l1_by_type[slot].is_none() {
            self.l1_by_type.set(slot, Some(Vec::new()));
            proof {
                assert(entry_views(Seq::<DictEntry>::empty()) =~= Seq::<EntryView>::empty());
            }
        }
        proof {
            assert forall|s: ShardType| s != *t implies #[trigger] self.l1_view(s) == old(self).l1_view(s) by {
                lemma_shard_tag_roundtrip(s);
                lemma_shard_tag_roundtrip(*t);
            }
        }
    }

    /// The index of a session, opened with a fresh window when missing.
    fn ensure_session(&mut self, id: &str) -> (i: usize)
        requires
            old(self).wf(),
        ensures
            final(self).wf(),
            final(self).l0 == old(self).l0,
            final(self).l1_by_type == old(self).l1_by_type,
            final(self).cached_ac == old(self).cached_ac,
            final(self).last_shard_type == old(self).last_shard_type,
            final(self).last_session_id == old(self).last_session_id,
            final(self).ac_dirty == old(self).ac_dirty,
            final(self).session_ids() == (if old(self).session_ids().contains(id@) {
                old(self).session_ids()
            } else {
                old(self).session_ids().push(id@)
            }),
            i < final(self).session_ids().len(),
            final(self).session_ids()[i as int] == id@,
            forall|j: int| 0 <= j < old(self).session_ids().len() ==> #[trigger] final(self).session(j) == old(self).session(j),
            !old(self).session_ids().contains(id@) ==> fresh(final(self).session(i as int)),
    {
        let owned = id.to_owned();
        let mut k: usize = 0;
        while k < self.l2_by_session.len()
            invariant
                k <= self.l2_by_session@.len(),
                owned@ == id@,
                *self == *old(self),
                self.wf(),
                forall|j: int| 0 <= j < k ==> (#[trigger] self.session_ids()[j]) != id@,
                self.session_ids().len() == self.l2_by_session@.len(),
            decreases self.l2_by_session@.len() - k,
        {
            if self.l2_by_session[k].0 == owned {
                proof {
                    assert(self.session_ids()[k as int] == id@);
                    assert(self.session_ids().contains(id@));
                }
                return k;
            }
            k = k + 1;
        }
        let ghost before = self.l2_by_session@;
        self.l2_by_session.push((owned, SlidingTokenizerV2::new()));
        proof {
            assert(!old(self).session_ids().contains(id@));
            assert(self.session_ids() =~= old(self).session_ids().push(id@));
            assert forall|i: int, j: int| 0 <= i < j < self.l2_by_session@.len() implies
                (#[trigger] self.l2_by_session@[i]).0@ != (#[trigger] self.l2_by_session@[j]).0@ by {
                if j == before.len() {
                    assert(self.session_ids()[i] == old(self).session_ids()[i]);
                }
            }
        }
        k
    }

    /// Let a session's window encode a shard, when its counters can absorb
    /// it (the output is not kept).
    fn feed_session(&mut self, si: usize, data: &[u8])
        requires
            old(self).wf_tiers(),
            si < old(self).session_ids().len(),
            data@.len() <= u32::MAX,
            data@.len() * 128 <= usize::MAX,
        ensures
            final(self).wf_tiers(),
            final(self).l0 == old(self).l0,
            final(self).l1_by_type == old(self).l1_by_type,
            final(self).cached_ac == old(self).cached_ac,
            final(self).session_ids() == old(self).session_ids(),
            forall|j: int| 0 <= j < old(self).session_ids().len() && j != si ==> #[trigger] final(self).session(j) == old(self).session(j),
            fed(old(self).session(si as int), data@, final(self).session(si as int)),
    {
        let ghost ids = self.session_ids();
        let (sid, mut tok) = self.l2_by_session.remove(si);
        if tok.counters_room(data.len()) {
            let _ = tok.encode(data);
        }
        self.l2_by_session.insert(si, (sid, tok));
        proof {
            self.lemma_reinserted(*old(self), ids, si as int);
        }
    }

    /// Let a session's window encode each chunk pattern seen at least
    /// PROMOTE_L3_THRESHOLD times, as far as its counters can absorb them.
    fn promote_l3_to_l2(&mut self, l3: &Vec<DictEntry>, si: usize)
        requires
            old(self).wf_tiers(),
            si < old(self).session_ids().len(),
            forall|k: int| 0 <= k < l3@.len() ==> (#[trigger] l3@[k]).bytes@.len() <= crate::tokenizer::dictionary::MAX_STR_LEN,
        ensures
            final(self).wf(),
            final(self).l0 == old(self).l0,
            final(self).l1_by_type == old(self).l1_by_type,
            final(self).session_ids() == old(self).session_ids(),
            forall|j: int| 0 <= j < old(self).session_ids().len() && j != si ==> #[trigger] final(self).session(j) == old(self).session(j),
            exists|states: Seq<SlidingTokenizerV2>| #[trigger] fed_chain(entry_views(l3@), states)
                && states[0] == old(self).session(si as int) && states.last() == final(self).session(si as int),
    {
        let ghost ids = self.session_ids();
        let ghost lv = entry_views(l3@);
        let (sid, mut tok) = self.l2_by_session.remove(si);
        let ghost t0 = tok;
        let ghost mut states: Seq<SlidingTokenizerV2> = seq![tok];
        let mut k: usize = 0;
        while k < l3.len()
            invariant
                k <= l3@.len(),
                lv == entry_views(l3@),
                tok.wf(),
                tok.stale() || tok.has_index(),
                forall|j: int| 0 <= j < l3@.len() ==> (#[trigger] l3@[j]).bytes@.len() <= crate::tokenizer::dictionary::MAX_STR_LEN,
                states.len() == k + 1,
                states[0] == t0,
                states.last() == tok,
                forall|i: int| 0 <= i < k ==> #[trigger] pattern_fed(states[i], lv[i], states[i + 1]),
            decreases l3@.len() - k,
        {
            let e = &l3[k];
            let ghost tm = tok;
            proof {
                assert(lv[k as int] == entry_view(l3@[k as int]));
            }
            if e.freq as u64 >= PROMOTE_L3_THRESHOLD && tok.counters_room(e.bytes.len()) {
                let _ = tok.encode(e.bytes.as_slice());
            }
            proof {
                assert(pattern_fed(tm, lv[k as int], tok));
                let s0 = states;
                states = states.push(tok);
                assert forall|i: int| 0 <= i < k + 1 implies #[trigger] pattern_fed(states[i], lv[i], states[i + 1]) by {
                    if i < k {
                        assert(states[i] == s0[i] && states[i + 1] == s0[i + 1]);
                    } else {
                        assert(states[i] == tm);
                    }
                }
            }
            k = k + 1;
        }
        self.l2_by_session.insert(si, (sid, tok));
        self.ac_dirty = true;
        proof {
            self.lemma_reinserted(*old(self), ids, si as int);
            assert(fed_chain(lv, states));
        }
    }

    /// A session taken out at `si` and put back, with a window that is
    /// still well formed, leaves the tiers well formed and the other
    /// sessions as they were.
    proof fn lemma_reinserted(&self, before: Self, ids: Seq<Seq<char>>, si: int)
        requires
            before.wf_tiers(),
            ids == before.session_ids(),
            0 <= si < ids.len(),
            self.l2_by_session@ == before.l2_by_session@.remove(si).insert(si, (self.l2_by_session@[si].0, self.l2_by_session@[si].1)),
            self.l2_by_session@[si].0 == before.l2_by_session@[si].0,
            self.l2_by_session@[si].1.wf(),
            self.l2_by_session@[si].1.stale() || self.l2_by_session@[si].1.has_index(),
            self.l1_by_type == before.l1_by_type,
            self.cached_ac == before.cached_ac,
        ensures
            self.wf_tiers(),
            self.session_ids() == ids,
            forall|j: int| 0 <= j < ids.len() && j != si ==> #[trigger] self.session(j) == before.session(j),
    {
        assert(self.session_ids() =~= ids);
        assert forall|i: int, j: int| 0 <= i < j < self.l2_by_session@.len() implies
            (#[trigger] self.l2_by_session@[i]).0@ != (#[trigger] self.l2_by_session@[j]).0@ by {
            assert(self.session_ids()[i] == ids[i] && self.session_ids()[j] == ids[j]);
            assert(before.l2_by_session@[i].0@ == ids[i]);
            assert(before.l2_by_session@[j].0@ == ids[j]);
        }
        assert forall|j: int| 0 <= j < ids.len() && j != si implies #[trigger] self.session(j) == before.session(j) by {
            assert(self.l2_by_session@[j] == before.l2_by_session@[j]);
        }
    }

    /// Promote a session's frequent entries (at least PROMOTE_L2_THRESHOLD)
    /// that the shard type's domain tier lacks; after a promotion the tier
    /// keeps its L1_MAX_ENTRIES entries of largest saving.
    fn promote_l2_to_l1(&mut self, t: &ShardType, si: usize)
        requires
            old(self).wf(),
            si < old(self).session_ids().len(),
        ensures
            final(self).wf(),
            final(self).l0 == old(self).l0,
            final(self).l2_by_session == old(self).l2_by_session,
            forall|s: ShardType| s != *t ==> #[trigger] final(self).l1_view(s) == old(self).l1_view(s),
            final(self).l1_view(*t) is Some,
            exists|active: Seq<EntryView>| #[trigger] active_ok(old(self).session(si as int).window_view(),
                old(self).session(si as int).cached_view(), old(self).session(si as int).stale(), active)
                && promoted(old(self).l1_entries(*t), active, final(self).l1_entries(*t)),
            distinct_bytes(old(self).l1_entries(*t)) ==> distinct_bytes(final(self).l1_entries(*t)),
    {
        let active = self.l2_by_session[si].1.active_entries_pub();
        let ghost av = entry_views(active@);
        let slot = shard_slot(t);
        let mut l1: Vec<DictEntry> = Vec::new();
        match &self.l1_by_type[slot] {
            Some(v) => extend_entries(&mut l1, v.as_slice()),
            None => {},
        }
        let ghost start = entry_views(l1@);
        proof {
            assert(start =~= old(self).l1_entries(*t));
        }
        let mut promoted_count: usize = 0;
        let mut k: usize = 0;
        while k < active.len()
            invariant
                k <= active@.len(),
                av == entry_views(active@),
                entry_views(l1@) == promote_fold(start, av.take(k as int)),
                promoted_count + start.len() == l1@.len(),
                promoted_count <= k,
            decreases active@.len() - k,
        {
            proof {
                assert(av.take(k + 1).drop_last() =~= av.take(k as int));
                assert(av.take(k + 1).last() == entry_view(active@[k as int]));
                lemma_promote_fold_grows(start, av.take(k as int));
            }
            if active[k].freq as u64 >= PROMOTE_L2_THRESHOLD && !holds_bytes(&l1, active[k].bytes.as_slice()) {
                let e = active[k].duplicate();
                let ghost before = l1@;
                l1.push(e);
                promoted_count = promoted_count + 1;
                proof {
                    assert(entry_views(l1@) =~= entry_views(before).push(entry_view(e)));
                }
            }
            k = k + 1;
        }
        proof {
            assert(av.take(active@.len() as int) =~= av);
        }
        if promoted_count > 0 {
            l1 = crate::tokenizer::rank_by_saving(&l1, L1_MAX_ENTRIES);
            self.ac_dirty = true;
        }
        let ghost fin = entry_views(l1@);
        proof {
            let acc = promote_fold(start, av);
            if promoted_count > 0 {
                assert(acc.len() != start.len());
                assert(ranked(acc, fin, L1_MAX_ENTRIES as nat));
            } else {
                assert(acc.len() == start.len());
                assert(fin == acc);
                lemma_promote_fold_grows(start, av);
                assert(acc =~= acc.subrange(0, start.len() as int));
            }
            assert(promoted(start, av, fin));
            if distinct_bytes(start) {
                lemma_promotion_distinct(start, av, fin);
            }
        }
        self.l1_by_type.set(slot, Some(l1));
        proof {
            assert forall|s: ShardType| s != *t implies #[trigger] self.l1_view(s) == old(self).l1_view(s) by {
                lemma_shard_tag_roundtrip(s);
                lemma_shard_tag_roundtrip(*t);
            }
            assert(self.l1_view(*t) == Some(fin));
            assert(self.l1_entries(*t) == fin);
            assert(self.l2_by_session@[si as int].1 == old(self).session(si as int));
            assert(active_ok(old(self).session(si as int).window_view(), old(self).session(si as int).cached_view(),
                old(self).session(si as int).stale(), av));
        }
    }

    /// The lengths of the domain tiers, slot by slot.
    pub closed spec fn slot_lens(&self) -> Seq<Option<nat>> {
        self.l1_by_type@.map_values(|o: Option<Vec<DictEntry>>| match o {
            Some(v) => Some(v@.len()),
            None => None,
        })
    }

    /// Decode a shard frame with the universal tier, the shard type's
    /// domain tier and the chunk tier the frame carries.
    pub fn decompress_shard(&mut self, data: &[u8], shard_type: &str, session_id: &str) -> (r: Result<Vec<u8>, String>)
        requires
            old(self).wf(),
        ensures
            *final(self) == *old(self),
            exists|t0: Seq<EntryView>, t1: Seq<EntryView>|
                #[trigger] decode_tiers(old(self).l0_view(), old(self).l1_entries(shard_type_of(shard_type@)), t0, t1)
                && match shard_decoded(data@, views_bytes(t0), views_bytes(t1)) {
                    Some(d) => r matches Ok(v) && v@ == d,
                    None => r is Err,
                },
            1 <= data@.len() < 3 ==> (r matches Err(e) && e@ == "frame too short"@),
            3 <= data@.len() < 5 ==> (r matches Err(e) && e@ == "frame too short for header"@),
    {
        let stype = ShardType::from_str(shard_type);
        let t0 = crate::tokenizer::codon::tier_top(self.l0.as_slice(), 63);
        let slot = shard_slot(&stype);
        let no_entries: Vec<DictEntry> = Vec::new();
        let t1 = match &self.l1_by_type[slot] {
            Some(l1) => crate::tokenizer::codon::tier_top(l1.as_slice(), 64),
            None => crate::tokenizer::codon::tier_top(no_entries.as_slice(), 64),
        };
        let ghost g0 = entry_views(t0@);
        let ghost g1 = entry_views(t1@);
        proof {
            assert(entry_views(no_entries@) =~= Seq::<EntryView>::empty());
            assert(entry_views(self.l0@) == self.l0_view());
            assert(decode_tiers(self.l0_view(), self.l1_entries(stype), g0, g1));
        }
        if data.len() == 0 {
            return Ok(Vec::new());
        }
        if data.len() < 3 {
            return Err(String::from_str("frame too short"));
        }
        if data.len() < 5 {
            return Err(String::from_str("frame too short for header"));
        }
        let pairs_len = crate::bytes::read_le16(data, 1) as usize;
        let l3_ser_len = crate::bytes::read_le16(data, 3) as usize;
        let header_end = 5 + l3_ser_len;
        if data.len() < header_end + pairs_len {
            return Err(String::from_str("frame truncated"));
        }
        let l3_ser = slice_subrange(data, 5, header_end);
        let mut entries: Vec<DictEntry> = Vec::new();
        extend_entries(&mut entries, t0.as_slice());
        extend_entries(&mut entries, t1.as_slice());
        let ghost fixed = entry_views(entries@);
        proof {
            assert(views_bytes(fixed) =~= views_bytes(g0) + views_bytes(g1));
        }
        push_chunk_entries(&mut entries, l3_ser);
        let pairs = match crate::pipeline::inflate(slice_subrange(data, header_end, header_end + pairs_len)) {
            Ok(v) => v,
            Err(e) => return Err(stream_error("inflate pairs", e)),
        };
        let literals = match crate::pipeline::inflate(slice_subrange(data, header_end + pairs_len, data.len())) {
            Ok(v) => v,
            Err(e) => return Err(stream_error("inflate literals", e)),
        };
        proof {
            crate::tokenizer::lemma_entry_bytes_views(entries@);
            assert(views_bytes(fixed + chunk_views(chunk_patterns(l3_ser@, 0))) =~= views_bytes(fixed) + chunk_patterns(l3_ser@, 0));
        }
        crate::tokenizer::codon::decode_ac_interleaved(pairs.as_slice(), literals.as_slice(), entries.as_slice())
    }
}

impl Default for FractalCompressor {
    fn default() -> (t: Self)
        ensures
            t.wf(),
            t.l0_view() == Seq::<EntryView>::empty(),
            t.session_ids() == Seq::<Seq<char>>::empty(),
    {
        Self::new()
    }
}

/// Counts of the tiered vocabulary.
pub struct FractalStats {
    pub l0_entries: usize,
    pub l1_types: usize,
    pub l1_total: usize,
    pub l2_sessions: usize,
}

/// The number of created slots among the first `k`.
pub open spec fn slot_count(s: Seq<Option<nat>>, k: int) -> nat
    decreases k,
{
    if k <= 0 {
        0
    } else {
        slot_count(s, k - 1) + if s[k - 1] is Some { 1nat } else { 0nat }
    }
}

/// The total length of the created slots among the first `k`.
pub open spec fn slot_total(s: Seq<Option<nat>>, k: int) -> nat
    decreases k,
{
    if k <= 0 {
        0
    } else {
        slot_total(s, k - 1) + match s[k - 1] {
            Some(n) => n,
            None => 0nat,
        }
    }
}

proof fn lemma_slot_total_mono(s: Seq<Option<nat>>, a: int, b: int)
    requires
        a <= b,
    ensures
        slot_total(s, a) <= slot_total(s, b),
    decreases b - a,
{
    if a < b {
        lemma_slot_total_mono(s, a, b - 1);
    }
}

/// Chunk patterns as dictionary entries: frequency 1, saving the length.
pub open spec fn chunk_views(ps: Seq<Seq<u8>>) -> Seq<EntryView> {
    ps.map_values(|p: Seq<u8>| (p, 1nat, p.len()))
}

/// Read chunk records and append their patterns as entries.
fn push_chunk_entries(entries: &mut Vec<DictEntry>, tab: &[u8])
    ensures
        entry_views(final(entries)@) == entry_views(old(entries)@) + chunk_views(chunk_patterns(tab@, 0)),
{
    let ghost start = entry_views(entries@);
    let mut pos: usize = 0;
    let mut cut = false;
    while pos < tab.len() && !cut
        invariant
            pos <= tab@.len(),
            start + chunk_views(chunk_patterns(tab@, 0)) == entry_views(entries@) + chunk_views(chunk_patterns(tab@, pos as int)),
            cut ==> chunk_patterns(tab@, pos as int) == Seq::<Seq<u8>>::empty(),
        decreases tab@.len() - pos + (if cut { 0int } else { 1int }),
    {
        let plen = tab[pos] as usize;
        if plen > tab.len() - pos - 1 {
            proof {
                assert(chunk_patterns(tab@, pos as int) =~= Seq::<Seq<u8>>::empty());
            }
            cut = true;
        } else {
            let bytes = slice_to_vec(slice_subrange(tab, pos + 1, pos + 1 + plen));
            let e = DictEntry { bytes, freq: 1, saving: plen };
            let ghost before = entries@;
            entries.push(e);
            proof {
                let rest = chunk_patterns(tab@, pos + 1 + plen);
                assert(chunk_patterns(tab@, pos as int) == seq![tab@.subrange(pos + 1, pos + 1 + plen)] + rest);
                assert(chunk_views(seq![tab@.subrange(pos + 1, pos + 1 + plen)] + rest)
                    =~= seq![entry_view(e)] + chunk_views(rest));
                assert(entry_views(entries@) =~= entry_views(before).push(entry_view(e)));
                assert(entry_views(before) + (seq![entry_view(e)] + chunk_views(rest)) =~= entry_views(entries@) + chunk_views(rest));
            }
            pos = pos + 1 + plen;
        }
    }
    proof {
        assert(chunk_patterns(tab@, pos as int) == Seq::<Seq<u8>>::empty());
        assert(chunk_views(Seq::<Seq<u8>>::empty()) =~= Seq::<EntryView>::empty());
        assert(entry_views(entries@) + Seq::<EntryView>::empty() =~= entry_views(entries@));
    }
}

/// The chunk tier's candidates: entries saving at least 2 bytes with at
/// least 4 bytes, in order.
pub open spec fn chunk_filter(es: Seq<EntryView>) -> Seq<EntryView>
    decreases es.len(),
{
    if es.len() == 0 {
        Seq::empty()
    } else {
        chunk_filter(es.drop_last()) + if es.last().2 >= 2 && es.last().0.len() >= 4 {
            seq![es.last()]
        } else {
            Seq::empty()
        }
    }
}

/// `d` is a dictionary `build` may give for `data`.
pub open spec fn built_for(data: Seq<u8>, d: Seq<DictEntry>) -> bool {
    &&& forall|k: int| 0 <= k < d.len() ==> (#[trigger] d[k]).bytes@.len() <= crate::tokenizer::dictionary::MAX_STR_LEN
    &&& data.len() == 0 ==> d.len() == 0
    &&& data.len() > 0 ==> crate::tokenizer::dictionary::is_selection(
        crate::tokenizer::dictionary::freq_spec(data), d, crate::tokenizer::dictionary::MAX_ENTRIES as nat)
}

/// `l3` is the chunk tier of `data`: the 63 candidates of its dictionary
/// with the largest savings, largest first.
pub open spec fn chunk_tier(data: Seq<u8>, l3: Seq<EntryView>) -> bool {
    exists|d: Seq<DictEntry>| #[trigger] built_for(data, d) && ranked(chunk_filter(entry_views(d)), l3, 63)
}

/// `ac` is the automaton the tiers give: from each of the universal,
/// domain and chunk tiers its entries of at least four bytes, largest
/// saving first (equal savings in tier order), at most 63, 64 and 63. There
/// is one exactly when there is some such entry and the builder succeeds
/// on those patterns.
pub open spec fn tiered_patterns(l0: Seq<EntryView>, l1: Seq<EntryView>, l3: Seq<EntryView>, ac: Option<Seq<Seq<u8>>>) -> bool {
    exists|r0: Seq<EntryView>, r1: Seq<EntryView>, r3: Seq<EntryView>| #[trigger] tiered_by(l0, l1, l3, ac, r0, r1, r3)
}

/// `ac` is the automaton over the ranked tiers `r0`, `r1`, `r3` of `l0`,
/// `l1`, `l3`.
pub open spec fn tiered_by(
    l0: Seq<EntryView>,
    l1: Seq<EntryView>,
    l3: Seq<EntryView>,
    ac: Option<Seq<Seq<u8>>>,
    r0: Seq<EntryView>,
    r1: Seq<EntryView>,
    r3: Seq<EntryView>,
) -> bool {
    &&& ranked_stable(long_views(l0), r0, 63) && ranked_stable(long_views(l1), r1, 64) && ranked_stable(long_views(l3), r3, 63)
    &&& (ac is Some <==> (r0 + r1 + r3).len() > 0 && ac_buildable(views_bytes(r0 + r1 + r3)))
    &&& (ac matches Some(p) ==> p == views_bytes(r0 + r1 + r3))
}

/// The tiers a decoder uses: from the universal and domain tiers their
/// entries of at least four bytes, ranked as the encoder ranks them.
pub open spec fn decode_tiers(l0: Seq<EntryView>, l1: Seq<EntryView>, t0: Seq<EntryView>, t1: Seq<EntryView>) -> bool {
    ranked_stable(long_views(l0), t0, 63) && ranked_stable(long_views(l1), t1, 64)
}

/// `frame` decodes to `data` with the tiers `l0` and `l1`.
pub open spec fn decodes_back(frame: Seq<u8>, l0: Seq<EntryView>, l1: Seq<EntryView>, data: Seq<u8>) -> bool {
    forall|t0: Seq<EntryView>, t1: Seq<EntryView>| #[trigger] decode_tiers(l0, l1, t0, t1)
        ==> shard_decoded(frame, views_bytes(t0), views_bytes(t1)) == Some(data)
}

/// `t` is a session's window as the call starts: the one kept under `id`,
/// or a fresh one.
pub open spec fn session_start(s: FractalCompressor, id: Seq<char>, t: SlidingTokenizerV2) -> bool {
    if s.session_ids().contains(id) {
        exists|j: int| 0 <= j < s.session_ids().len() && s.session_ids()[j] == id && #[trigger] s.session(j) == t
    } else {
        fresh(t)
    }
}

/// The pair and literal streams of a shard: the interleaved encoding with
/// the automaton, or, without one, a bare trailing count and the data.
pub open spec fn shard_streams(data: Seq<u8>, ac: Option<Seq<Seq<u8>>>) -> (Seq<u8>, Seq<u8>) {
    match ac {
        Some(p) => ac_inter_from(data, ac_leftmost_longest(p, data), 0, 0),
        None => (le16_bytes((data.len() % 0x10000) as u16), data),
    }
}

/// A shard frame: the shard type's tag, the deflated pair stream's length
/// and the chunk records' length (16 bits each, little endian), the chunk
/// records, then the deflated pair and literal streams.
pub open spec fn shard_frame(tag: u8, streams: (Seq<u8>, Seq<u8>), l3: Seq<EntryView>) -> Seq<u8> {
    let pd = deflate_spec(streams.0);
    let rec = chunk_records(l3);
    seq![tag] + le16_bytes((pd.len() % 0x10000) as u16) + le16_bytes((rec.len() % 0x10000) as u16) + rec + pd
        + deflate_spec(streams.1)
}

/// The streams of a shard were encoded with the automaton's own matches
/// and inflate back from their DEFLATE streams.
pub open spec fn streams_ok(data: Seq<u8>, ac: Option<Seq<Seq<u8>>>) -> bool {
    let st = shard_streams(data, ac);
    &&& ac matches Some(p) ==> matches_ok(p, data, ac_leftmost_longest(p, data))
    &&& inflate_spec(deflate_spec(st.0)) == Some(st.0)
    &&& inflate_spec(deflate_spec(st.1)) == Some(st.1)
}

proof fn lemma_records_one(e: EntryView)
    ensures
        chunk_records(seq![e]) == record_of(e),
{
    assert(seq![e].drop_last() =~= Seq::<EntryView>::empty());
    assert(chunk_records(Seq::<EntryView>::empty()) == Seq::<u8>::empty());
    assert(Seq::<u8>::empty() + record_of(e) =~= record_of(e));
}

proof fn lemma_records_front(es: Seq<EntryView>)
    requires
        es.len() > 0,
    ensures
        chunk_records(es) == record_of(es[0]) + chunk_records(es.skip(1)),
    decreases es.len(),
{
    if es.len() == 1 {
        assert(es.skip(1) =~= Seq::<EntryView>::empty());
        assert(es =~= seq![es[0]]);
        lemma_records_one(es[0]);
        assert(record_of(es[0]) + Seq::<u8>::empty() =~= record_of(es[0]));
    } else {
        let d = es.drop_last();
        lemma_records_front(d);
        assert(d.skip(1) =~= es.skip(1).drop_last());
        assert(es.skip(1).last() == es.last());
        assert(d[0] == es[0]);
        assert(chunk_records(es) =~= record_of(es[0]) + chunk_records(es.skip(1)));
    }
}

proof fn lemma_chunk_shift(s: Seq<u8>, i: int)
    requires
        0 <= i <= s.len(),
    ensures
        chunk_patterns(s, i) == chunk_patterns(s.skip(i), 0),
    decreases s.len() - i,
{
    if i < s.len() {
        let t = s.skip(i);
        let j = 1 + s[i] as int;
        let p = i + j;
        assert(t[0] == s[i]);
        if p <= s.len() {
            lemma_chunk_shift(s, p);
            lemma_chunk_shift(t, j);
            assert(t.skip(j) =~= s.skip(p));
            assert(t.subrange(1, j) =~= s.subrange(i + 1, p));
        }
    } else {
        assert(s.skip(i).len() == 0);
    }
}

proof fn lemma_chunk_roundtrip(es: Seq<EntryView>)
    requires
        forall|k: int| 0 <= k < es.len() ==> (#[trigger] es[k]).0.len() <= 255,
    ensures
        chunk_patterns(chunk_records(es), 0) == views_bytes(es),
    decreases es.len(),
{
    if es.len() == 0 {
        assert(views_bytes(es) =~= Seq::<Seq<u8>>::empty());
    } else {
        lemma_records_front(es);
        let e = es[0];
        let head = seq![e.0.len() as u8] + e.0;
        assert(record_of(e) == head);
        let rest = chunk_records(es.skip(1));
        let all = head + rest;
        assert(chunk_records(es) =~= all);
        assert(all[0] == e.0.len() as u8);
        assert(all.subrange(1, 1 + e.0.len() as int) =~= e.0);
        lemma_chunk_shift(all, 1 + e.0.len() as int);
        assert(all.skip(1 + e.0.len() as int) =~= rest);
        lemma_chunk_roundtrip(es.skip(1));
        assert(views_bytes(es) =~= seq![e.0] + views_bytes(es.skip(1)));
    }
}

/// Decoding a shard frame with the universal and domain tiers it was
/// encoded with gives the shard back: when the automaton was built from
/// exactly those tiers and the chunk tier, in that order (at most 254
/// patterns), the shard is shorter than 65536 bytes, the deflated pair
/// stream and the chunk records fit their 16-bit lengths, and every chunk
/// pattern fits its length byte.
pub proof fn lemma_shard_roundtrip(
    tag: u8,
    data: Seq<u8>,
    l0: Seq<EntryView>,
    l1: Seq<EntryView>,
    l3: Seq<EntryView>,
    ac: Option<Seq<Seq<u8>>>,
)
    requires
        streams_ok(data, ac),
        ac matches Some(p) ==> p == views_bytes(l0) + views_bytes(l1) + views_bytes(l3),
        views_bytes(l0).len() + views_bytes(l1).len() + views_bytes(l3).len() <= 254,
        data.len() < 0x10000,
        deflate_spec(shard_streams(data, ac).0).len() < 0x10000,
        chunk_records(l3).len() < 0x10000,
        forall|k: int| 0 <= k < l3.len() ==> (#[trigger] l3[k]).0.len() <= 255,
    ensures
        shard_decoded(shard_frame(tag, shard_streams(data, ac), l3), views_bytes(l0), views_bytes(l1)) == Some(data),
{
    let st = shard_streams(data, ac);
    let pd = deflate_spec(st.0);
    let ld = deflate_spec(st.1);
    let rec = chunk_records(l3);
    let f = shard_frame(tag, st, l3);
    let a = crate::bytes::le16_bytes((pd.len() % 0x10000) as u16);
    let b = crate::bytes::le16_bytes((rec.len() % 0x10000) as u16);
    crate::bytes::lemma_le16_roundtrip((pd.len() % 0x10000) as u16);
    crate::bytes::lemma_le16_roundtrip((rec.len() % 0x10000) as u16);
    assert(f =~= seq![tag] + a + b + rec + pd + ld);
    assert(f.subrange(1, 3) =~= a);
    assert(f.subrange(3, 5) =~= b);
    let he: int = 5 + rec.len() as int;
    let pe: int = he + pd.len();
    assert(f.subrange(5, he) =~= rec);
    assert(f.subrange(he, pe) =~= pd);
    assert(f.subrange(pe, f.len() as int) =~= ld);
    lemma_chunk_roundtrip(l3);
    let es = views_bytes(l0) + views_bytes(l1) + views_bytes(l3);
    match ac {
        Some(p) => {
            crate::tokenizer::codon::lemma_interleaved_roundtrip(data, p, ac_leftmost_longest(p, data), es);
        },
        None => {
            let pairs = st.0;
            crate::bytes::lemma_le16_roundtrip((data.len() % 0x10000) as u16);
            assert(pairs.subrange(0, 2) =~= pairs);
            assert(interleaved_prefix(pairs, data, es, 0) == Some((Seq::<u8>::empty(), 0int)));
            assert(Seq::<u8>::empty() + data.subrange(0, data.len() as int) =~= data);
        },
    }
}

/// One step of feeding chunk patterns: a pattern seen at least
/// PROMOTE_L3_THRESHOLD times is fed to the window, any other leaves it.
pub open spec fn pattern_fed(t0: SlidingTokenizerV2, e: EntryView, t1: SlidingTokenizerV2) -> bool {
    if e.1 >= PROMOTE_L3_THRESHOLD { fed(t0, e.0, t1) } else { t1 == t0 }
}

/// `states` are the windows while the chunk patterns `l3` are fed in
/// order: each next one follows from the one before by one pattern.
pub open spec fn fed_chain(l3: Seq<EntryView>, states: Seq<SlidingTokenizerV2>) -> bool {
    &&& states.len() == l3.len() + 1
    &&& forall|i: int| 0 <= i < l3.len() ==> #[trigger] pattern_fed(states[i], l3[i], states[i + 1])
}

/// `es` holds an entry with bytes `b`.
pub open spec fn has_bytes(es: Seq<EntryView>, b: Seq<u8>) -> bool {
    exists|j: int| 0 <= j < es.len() && (#[trigger] es[j]).0 == b
}

/// A domain tier with the frequent session entries (at least
/// PROMOTE_L2_THRESHOLD) it lacks appended, in order.
pub open spec fn promote_fold(l1: Seq<EntryView>, active: Seq<EntryView>) -> Seq<EntryView>
    decreases active.len(),
{
    if active.len() == 0 {
        l1
    } else {
        let acc = promote_fold(l1, active.drop_last());
        let e = active.last();
        if e.1 >= PROMOTE_L2_THRESHOLD && !has_bytes(acc, e.0) { acc.push(e) } else { acc }
    }
}

/// The domain tier after promotion: unchanged when nothing was promoted,
/// else the L1_MAX_ENTRIES entries with the largest savings.
pub open spec fn promoted(l1: Seq<EntryView>, active: Seq<EntryView>, after: Seq<EntryView>) -> bool {
    let acc = promote_fold(l1, active);
    if acc.len() == l1.len() { after == l1 } else { ranked(acc, after, L1_MAX_ENTRIES as nat) }
}

proof fn lemma_promote_fold_grows(l1: Seq<EntryView>, active: Seq<EntryView>)
    ensures
        promote_fold(l1, active).len() >= l1.len(),
        promote_fold(l1, active).subrange(0, l1.len() as int) == l1,
    decreases active.len(),
{
    if active.len() > 0 {
        lemma_promote_fold_grows(l1, active.drop_last());
        let acc = promote_fold(l1, active.drop_last());
        assert(acc.push(active.last()).subrange(0, l1.len() as int) =~= acc.subrange(0, l1.len() as int));
    }
}

/// No two entries of `es` have the same bytes.
pub open spec fn distinct_bytes(es: Seq<EntryView>) -> bool {
    forall|a: int, b: int| 0 <= a < b < es.len() ==> (#[trigger] es[a]).0 != (#[trigger] es[b]).0
}

proof fn lemma_promote_fold_members(l1: Seq<EntryView>, active: Seq<EntryView>)
    requires
        distinct_bytes(l1),
    ensures
        distinct_bytes(promote_fold(l1, active)),
        forall|k: int| 0 <= k < promote_fold(l1, active).len() ==> l1.contains(#[trigger] promote_fold(l1, active)[k])
            || (active.contains(promote_fold(l1, active)[k]) && promote_fold(l1, active)[k].1 >= PROMOTE_L2_THRESHOLD),
    decreases active.len(),
{
    if active.len() > 0 {
        let a0 = active.drop_last();
        lemma_promote_fold_members(l1, a0);
        let acc = promote_fold(l1, a0);
        let e = active.last();
        let r = promote_fold(l1, active);
        assert forall|k: int| 0 <= k < acc.len() && active.drop_last().contains(#[trigger] acc[k]) implies active.contains(acc[k]) by {
            let q = choose|q: int| 0 <= q < a0.len() && a0[q] == acc[k];
            assert(active[q] == a0[q]);
        }
        if e.1 >= PROMOTE_L2_THRESHOLD && !has_bytes(acc, e.0) {
            assert(r == acc.push(e));
            assert forall|a: int, b: int| 0 <= a < b < r.len() implies (#[trigger] r[a]).0 != (#[trigger] r[b]).0 by {
                if b == acc.len() {
                    assert(r[a] == acc[a]);
                    assert(r[b] == e);
                    if acc[a].0 == e.0 {
                        assert(has_bytes(acc, e.0));
                    }
                } else {
                    assert(r[a] == acc[a] && r[b] == acc[b]);
                }
            }
            assert forall|k: int| 0 <= k < r.len() implies l1.contains(#[trigger] r[k])
                || (active.contains(r[k]) && r[k].1 >= PROMOTE_L2_THRESHOLD) by {
                if k == acc.len() {
                    assert(active[active.len() - 1] == e);
                } else {
                    assert(r[k] == acc[k]);
                }
            }
        }
    }
}

proof fn lemma_ranked_keeps(c: Seq<EntryView>, r: Seq<EntryView>, cap: nat)
    requires
        ranked(c, r, cap),
    ensures
        distinct_bytes(c) ==> distinct_bytes(r),
        forall|k: int| 0 <= k < r.len() ==> c.contains(#[trigger] r[k]),
{
    let perm = choose|perm: Seq<int>| #[trigger] crate::tokenizer::ranked_by(c, r, cap, perm);
    assert forall|k: int| 0 <= k < r.len() implies c.contains(#[trigger] r[k]) by {
        assert(r[k] == c[perm[k]]);
        assert(0 <= perm[k] < c.len());
    }
    if distinct_bytes(c) {
        assert forall|a: int, b: int| 0 <= a < b < r.len() implies (#[trigger] r[a]).0 != (#[trigger] r[b]).0 by {
            assert(r[a] == c[perm[a]] && r[b] == c[perm[b]]);
            assert(perm[a] != perm[b]);
            if perm[a] < perm[b] {
                assert(c[perm[a]].0 != c[perm[b]].0);
            } else {
                assert(c[perm[b]].0 != c[perm[a]].0);
            }
        }
    }
}

/// Promotion never duplicates a pattern in a domain tier: a tier whose
/// entries have distinct bytes keeps distinct bytes after promotion, and
/// every entry it then holds was already in it or is a session entry seen
/// at least PROMOTE_L2_THRESHOLD times.
pub proof fn lemma_promotion_distinct(l1: Seq<EntryView>, active: Seq<EntryView>, after: Seq<EntryView>)
    requires
        distinct_bytes(l1),
        promoted(l1, active, after),
    ensures
        distinct_bytes(after),
        forall|k: int| 0 <= k < after.len() ==> l1.contains(#[trigger] after[k])
            || (active.contains(after[k]) && after[k].1 >= PROMOTE_L2_THRESHOLD),
{
    lemma_promote_fold_members(l1, active);
    let acc = promote_fold(l1, active);
    if acc.len() != l1.len() {
        lemma_ranked_keeps(acc, after, L1_MAX_ENTRIES as nat);
        assert forall|k: int| 0 <= k < after.len() implies l1.contains(#[trigger] after[k])
            || (active.contains(after[k]) && after[k].1 >= PROMOTE_L2_THRESHOLD) by {
            assert(acc.contains(after[k]));
            let q = choose|q: int| 0 <= q < acc.len() && acc[q] == after[k];
            assert(l1.contains(acc[q]) || (active.contains(acc[q]) && acc[q].1 >= PROMOTE_L2_THRESHOLD));
        }
    } else {
        assert forall|k: int| 0 <= k < after.len() implies l1.contains(#[trigger] after[k]) by {
            assert(after[k] == l1[k]);
        }
    }
}

/// The chunk tier of a buffer.
fn chunk_tier_entries(data: &[u8]) -> (l3: Vec<DictEntry>)
    requires
        data@.len() <= u32::MAX,
        data@.len() * crate::tokenizer::dictionary::MAX_STR_LEN <= usize::MAX,
    ensures
        chunk_tier(data@, entry_views(l3@)),
        forall|k: int| 0 <= k < l3@.len() ==> (#[trigger] l3@[k]).bytes@.len() <= crate::tokenizer::dictionary::MAX_STR_LEN,
{
    let raw = crate::tokenizer::dictionary::build(data);
    let ghost d = raw@;
    let mut kept: Vec<DictEntry> = Vec::new();
    let mut k: usize = 0;
    while k < raw.len()
        invariant
            k <= raw@.len(),
            d == raw@,
            entry_views(kept@) == chunk_filter(entry_views(raw@).take(k as int)),
            forall|j: int| 0 <= j < raw@.len() ==> (#[trigger] raw@[j]).bytes@.len() <= crate::tokenizer::dictionary::MAX_STR_LEN,
            forall|j: int| 0 <= j < kept@.len() ==> (#[trigger] kept@[j]).bytes@.len() <= crate::tokenizer::dictionary::MAX_STR_LEN,
        decreases raw@.len() - k,
    {
        proof {
            assert(entry_views(raw@).take(k + 1).drop_last() =~= entry_views(raw@).take(k as int));
            assert(entry_views(raw@).take(k + 1).last() == entry_view(raw@[k as int]));
        }
        if raw[k].saving >= 2 && raw[k].bytes.len() >= 4 {
            let e = raw[k].duplicate();
            let ghost before = kept@;
            kept.push(e);
            proof {
                assert(entry_views(kept@) =~= entry_views(before).push(entry_view(e)));
                assert(entry_views(kept@) =~= entry_views(before) + seq![entry_view(raw@[k as int])]);
            }
        } else {
            proof {
                assert(entry_views(kept@) =~= entry_views(kept@) + Seq::<EntryView>::empty());
            }
        }
        k = k + 1;
    }
    proof {
        assert(entry_views(raw@).take(raw@.len() as int) =~= entry_views(raw@));
    }
    let l3 = crate::tokenizer::rank_by_saving(&kept, 63);
    proof {
        assert(built_for(data@, d));
        assert forall|k: int| 0 <= k < l3@.len() implies (#[trigger] l3@[k]).bytes@.len() <= crate::tokenizer::dictionary::MAX_STR_LEN by {
            let c = entry_views(kept@);
            let perm = choose|perm: Seq<int>| #[trigger] crate::tokenizer::ranked_by(c, entry_views(l3@), 63, perm);
            assert(entry_views(l3@)[k] == c[perm[k]]);
            assert(crate::tokenizer::is_permutation(perm, c.len() as int));
            assert(0 <= perm[k] < c.len());
            assert(c[perm[k]] == entry_view(kept@[perm[k]]));
        }
    }
    l3
}

/// The chunk records of a tier.
fn chunk_records_of(l3: &[DictEntry]) -> (out: Vec<u8>)
    ensures
        out@ == chunk_records(entry_views(l3@)),
{
    let mut out: Vec<u8> = Vec::new();
    let mut k: usize = 0;
    while k < l3.len()
        invariant
            k <= l3@.len(),
            out@ == chunk_records(entry_views(l3@).take(k as int)),
        decreases l3@.len() - k,
    {
        proof {
            assert(entry_views(l3@).take(k + 1).drop_last() =~= entry_views(l3@).take(k as int));
            assert(entry_views(l3@).take(k + 1).last() == entry_view(l3@[k as int]));
        }
        let ghost before = out@;
        if l3[k].bytes.len() <= 255 {
            out.push(l3[k].bytes.len() as u8);
            crate::bytes::append_bytes(&mut out, l3[k].bytes.as_slice());
            proof {
                assert(out@ =~= before + (seq![l3@[k as int].bytes@.len() as u8] + l3@[k as int].bytes@));
            }
        } else {
            proof {
                assert(out@ =~= before + Seq::<u8>::empty());
            }
        }
        k = k + 1;
    }
    proof {
        assert(entry_views(l3@).take(l3@.len() as int) =~= entry_views(l3@));
    }
    out
}

/// The pair and literal streams of a shard.
fn shard_streams_of(data: &[u8], ac: &Option<AcIndex>) -> (r: (Vec<u8>, Vec<u8>))
    requires
        ac matches Some(a) ==> a.wf(),
    ensures
        (r.0@, r.1@) == shard_streams(data@, match ac { Some(a) => Some(a.patterns()), None => None }),
        ac matches Some(a) ==> matches_ok(a.patterns(), data@, ac_leftmost_longest(a.patterns(), data@)),
{
    match ac {
        Some(a) => crate::tokenizer::codon::encode_ac_interleaved(data, a),
        None => {
            let mut trailing: Vec<u8> = Vec::new();
            crate::bytes::push_le16(&mut trailing, (data.len() % 0x10000) as u16);
            (trailing, slice_to_vec(data))
        },
    }
}

/// Whether a tier holds an entry with these bytes.
fn holds_bytes(es: &Vec<DictEntry>, b: &[u8]) -> (r: bool)
    ensures
        r == has_bytes(entry_views(es@), b@),
{
    let mut k: usize = 0;
    while k < es.len()
        invariant
            k <= es@.len(),
            forall|j: int| 0 <= j < k ==> (#[trigger] entry_views(es@)[j]).0 != b@,
        decreases es@.len() - k,
    {
        if crate::tokenizer::same_bytes(es[k].bytes.as_slice(), b) {
            proof {
                assert(entry_views(es@)[k as int].0 == b@);
            }
            return true;
        }
        k = k + 1;
    }
    false
}

proof fn lemma_tiered(l0: Seq<DictEntry>, l1: Seq<DictEntry>, l2: Seq<DictEntry>, l3: Seq<DictEntry>, ac: Option<AcIndex>)
    requires
        l2.len() == 0,
        exists|r0: Seq<EntryView>, r1: Seq<EntryView>, r2: Seq<EntryView>, r3: Seq<EntryView>|
            #[trigger] tiers_ranked(l0, l1, l2, l3, r0, r1, r2, r3) && tiered_result(r0 + r1 + r2 + r3, ac),
    ensures
        tiered_patterns(entry_views(l0), entry_views(l1), entry_views(l3), match ac {
            Some(a) => Some(a.patterns()),
            None => None,
        }),
{
    assert(entry_views(l2) =~= Seq::<EntryView>::empty());
    assert(long_views(Seq::<EntryView>::empty()) =~= Seq::<EntryView>::empty());
    assert(long_views(entry_views(l2)) == Seq::<EntryView>::empty());
    let (r0, r1, r2, r3) = choose|r0: Seq<EntryView>, r1: Seq<EntryView>, r2: Seq<EntryView>, r3: Seq<EntryView>|
        #[trigger] tiers_ranked(l0, l1, l2, l3, r0, r1, r2, r3) && tiered_result(r0 + r1 + r2 + r3, ac);
    let perm = choose|perm: Seq<int>| #[trigger] crate::tokenizer::ranked_by(Seq::<EntryView>::empty(), r2, 64, perm)
        && forall|a: int, b: int| 0 <= a < b < 0 && Seq::<EntryView>::empty()[#[trigger] perm[a]].2 == Seq::<EntryView>::empty()[#[trigger] perm[b]].2 ==> perm[a] < perm[b];
    assert(r2.len() == 0);
    assert(r0 + r1 + r2 + r3 =~= r0 + r1 + r3);
    assert(views_bytes(r0 + r1 + r3) == views_bytes(r0 + r1 + r2 + r3));
    assert(tiered_by(entry_views(l0), entry_views(l1), entry_views(l3), match ac {
        Some(a) => Some(a.patterns()),
        None => None,
    }, r0, r1, r3));
}

/// The snapshot format's version byte.
pub const SNAPSHOT_VERSION: u8 = 5;

/// Entries as exported: bytes, frequency and saving as `u64`.
pub open spec fn exported_views(es: Seq<EntryView>) -> Seq<(Seq<u8>, u64, u64)> {
    es.map_values(|e: EntryView| (e.0, e.1 as u64, e.2 as u64))
}

/// Entries exported with a tag byte in front of their bytes.
pub open spec fn tagged_views(tag: u8, es: Seq<EntryView>) -> Seq<(Seq<u8>, u64, u64)> {
    es.map_values(|e: EntryView| (seq![tag] + e.0, e.1 as u64, e.2 as u64))
}

/// The tagged entries of the first `k` slots.
pub open spec fn tagged_slots(slots: Seq<Option<Seq<EntryView>>>, k: int) -> Seq<(Seq<u8>, u64, u64)>
    decreases k,
{
    if k <= 0 {
        Seq::empty()
    } else {
        tagged_slots(slots, k - 1) + match slots[k - 1] {
            Some(es) => tagged_views((k - 1) as u8, es),
            None => Seq::empty(),
        }
    }
}

/// The snapshot magic.
pub open spec fn snapshot_magic() -> Seq<u8> {
    seq![0x47u8, 0x4E, 0x46, 0x54]
}

/// A snapshot without its CRC.
pub open spec fn snapshot_body(l0: Seq<EntryView>, l1: Seq<(Seq<u8>, u64, u64)>) -> Seq<u8> {
    let r0 = window_records(exported_views(l0));
    let r1 = window_records(l1);
    snapshot_magic() + seq![SNAPSHOT_VERSION] + le32_bytes(r0.len() as u32) + r0 + le32_bytes(r1.len() as u32) + r1
}

/// A snapshot: its body, then the body's CRC32.
pub open spec fn snapshot_image(l0: Seq<EntryView>, l1: Seq<(Seq<u8>, u64, u64)>) -> Seq<u8> {
    snapshot_body(l0, l1) + le32_bytes(crate::codec::crc::crc32_spec(snapshot_body(l0, l1)))
}

/// The snapshot starts with the magic and the version.
pub open spec fn snapshot_header_ok(data: Seq<u8>) -> bool {
    data.len() >= 9 && data.take(4) == snapshot_magic() && data[4] == SNAPSHOT_VERSION
}

/// Where the universal records end.
pub open spec fn snapshot_l0_end(data: Seq<u8>) -> int {
    9 + le32_value(data.subrange(5, 9)) as int
}

/// Where the domain records end.
pub open spec fn snapshot_l1_end(data: Seq<u8>) -> int {
    let p = snapshot_l0_end(data);
    p + 4 + le32_value(data.subrange(p, p + 4)) as int
}

/// A snapshot with a good header holds both record sections and the CRC
/// its lengths call for.
pub open spec fn snapshot_in_bounds(data: Seq<u8>) -> bool {
    snapshot_header_ok(data) ==> snapshot_l0_end(data) + 4 <= data.len() && snapshot_l1_end(data) + 4 <= data.len()
}

/// The universal records of a snapshot.
pub open spec fn snapshot_l0(data: Seq<u8>) -> Seq<(Seq<u8>, u64, u64)> {
    crate::level4::window_parse(data.subrange(9, snapshot_l0_end(data)), 0)
}

/// The domain records of a snapshot.
pub open spec fn snapshot_l1(data: Seq<u8>) -> Seq<(Seq<u8>, u64, u64)> {
    crate::level4::window_parse(data.subrange(snapshot_l0_end(data) + 4, snapshot_l1_end(data)), 0)
}

/// The stored CRC is the CRC32 of everything before it.
pub open spec fn snapshot_crc_ok(data: Seq<u8>) -> bool {
    let p = snapshot_l1_end(data);
    le32_value(data.subrange(p, p + 4)) == crate::codec::crc::crc32_spec(data.take(p))
}

/// Records as dictionary entries.
pub open spec fn lifted_records(rs: Seq<(Seq<u8>, u64, u64)>) -> Seq<EntryView> {
    rs.map_values(|e: (Seq<u8>, u64, u64)| (e.0, (e.1 as usize) as nat, (e.2 as usize) as nat))
}

/// The domain tier of shard type `t` that tagged records load into: the
/// records whose tag names `t`, without the tag, in order; `None` when
/// there is none.
pub open spec fn l1_loaded(rs: Seq<(Seq<u8>, u64, u64)>, t: ShardType) -> Option<Seq<EntryView>>
    decreases rs.len(),
{
    if rs.len() == 0 {
        None
    } else {
        let prev = l1_loaded(rs.drop_last(), t);
        let e = rs.last();
        if e.0.len() > 0 && shard_of_tag(e.0[0]) == t {
            Some(prev.unwrap_or(Seq::empty()).push((e.0.skip(1), (e.1 as usize) as nat, (e.2 as usize) as nat)))
        } else {
            prev
        }
    }
}

/// Whether a snapshot's lengths stay within it (see `snapshot_in_bounds`).
pub fn snapshot_fits(data: &[u8]) -> (b: bool)
    ensures
        b == snapshot_in_bounds(data@),
{
    if data.len() < 9 || !(data[0] == 0x47 && data[1] == 0x4E && data[2] == 0x46 && data[3] == 0x54) || data[4] != SNAPSHOT_VERSION {
        proof {
            if data@.len() >= 9 && data@.take(4) == snapshot_magic() {
                assert(data@.take(4)[0] == data@[0]);
                assert(data@.take(4)[1] == data@[1]);
                assert(data@.take(4)[2] == data@[2]);
                assert(data@.take(4)[3] == data@[3]);
            }
        }
        return true;
    }
    proof {
        assert(data@.take(4) =~= snapshot_magic());
    }
    let l0_len = crate::bytes::read_le32(data, 5) as usize;
    if data.len() < 13 || l0_len > data.len() - 13 {
        return false;
    }
    let p = 9 + l0_len;
    let l1_len = crate::bytes::read_le32(data, p) as usize;
    data.len() - p >= 8 && l1_len <= data.len() - p - 8
}

/// The message for an unsupported snapshot version: `format!` of the
/// version in decimal.
#[verifier::external_body]
fn version_error(v: u8) -> (m: String)
    ensures
        m@ == "unsupported version "@ + crate::text::decimal(v as nat),
{
    format!("unsupported version {}", v)
}

/// The message for a CRC mismatch: `format!` of both checksums in decimal.
#[verifier::external_body]
fn crc_error(stored: u32, computed: u32) -> (m: String)
    ensures
        m@ == "CRC mismatch: stored="@ + crate::text::decimal(stored as nat) + " computed="@ + crate::text::decimal(computed as nat),
{
    format!("CRC mismatch: stored={} computed={}", stored, computed)
}

/// A tier the automaton takes as it is: at most `cap` entries, each of at
/// least four bytes, in non-increasing saving.
pub open spec fn canonical_tier(es: Seq<EntryView>, cap: nat) -> bool {
    &&& es.len() <= cap
    &&& saving_sorted(es)
    &&& forall|k: int| 0 <= k < es.len() ==> (#[trigger] es[k]).0.len() >= 4
}

proof fn lemma_long_identity(es: Seq<EntryView>)
    requires
        forall|k: int| 0 <= k < es.len() ==> (#[trigger] es[k]).0.len() >= 4,
    ensures
        long_views(es) == es,
    decreases es.len(),
{
    if es.len() > 0 {
        lemma_long_identity(es.drop_last());
        assert(es.drop_last() + seq![es.last()] =~= es);
    }
}

proof fn lemma_chunk_filter_items(es: Seq<EntryView>, bound: nat)
    requires
        forall|k: int| 0 <= k < es.len() ==> (#[trigger] es[k]).0.len() <= bound,
    ensures
        forall|k: int| 0 <= k < chunk_filter(es).len() ==> (#[trigger] chunk_filter(es)[k]).0.len() >= 4
            && chunk_filter(es)[k].0.len() <= bound,
    decreases es.len(),
{
    if es.len() > 0 {
        lemma_chunk_filter_items(es.drop_last(), bound);
        let prev = chunk_filter(es.drop_last());
        assert forall|k: int| 0 <= k < chunk_filter(es).len() implies (#[trigger] chunk_filter(es)[k]).0.len() >= 4
            && chunk_filter(es)[k].0.len() <= bound by {
            if k < prev.len() {
                assert(chunk_filter(es)[k] == prev[k]);
            } else {
                assert(chunk_filter(es)[k] == es.last());
                assert(es[es.len() - 1] == es.last());
            }
        }
    }
}

proof fn lemma_chunk_records_len(es: Seq<EntryView>)
    requires
        forall|k: int| 0 <= k < es.len() ==> (#[trigger] es[k]).0.len() <= crate::tokenizer::dictionary::MAX_STR_LEN,
    ensures
        chunk_records(es).len() <= 129 * es.len(),
    decreases es.len(),
{
    if es.len() > 0 {
        lemma_chunk_records_len(es.drop_last());
        assert(es[es.len() - 1] == es.last());
    }
}

/// The chunk tier of a shard: at most 63 entries of four to 128 bytes, in
/// non-increasing saving.
proof fn lemma_chunk_tier_shape(data: Seq<u8>, l3: Seq<EntryView>)
    requires
        chunk_tier(data, l3),
    ensures
        canonical_tier(l3, 63),
        forall|k: int| 0 <= k < l3.len() ==> (#[trigger] l3[k]).0.len() <= crate::tokenizer::dictionary::MAX_STR_LEN,
{
    let d = choose|d: Seq<DictEntry>| #[trigger] built_for(data, d) && ranked(chunk_filter(entry_views(d)), l3, 63);
    let ev = entry_views(d);
    assert forall|k: int| 0 <= k < ev.len() implies (#[trigger] ev[k]).0.len() <= crate::tokenizer::dictionary::MAX_STR_LEN by {
        assert(ev[k] == entry_view(d[k]));
    }
    lemma_chunk_filter_items(ev, crate::tokenizer::dictionary::MAX_STR_LEN as nat);
    let c = chunk_filter(ev);
    let perm = choose|perm: Seq<int>| #[trigger] crate::tokenizer::ranked_by(c, l3, 63, perm);
    assert forall|k: int| 0 <= k < l3.len() implies (#[trigger] l3[k]).0.len() >= 4
        && l3[k].0.len() <= crate::tokenizer::dictionary::MAX_STR_LEN by {
        assert(l3[k] == c[perm[k]]);
    }
    assert forall|a: int, b: int| 0 <= a < b < l3.len() implies (#[trigger] l3[a]).2 >= (#[trigger] l3[b]).2 by {
        assert(l3[a] == c[perm[a]] && l3[b] == c[perm[b]]);
    }
}

/// The frame `compress_shard` writes decodes back under the tiers it was
/// written with, from any compressor state, when the shard is shorter than
/// 65536 bytes and its deflated pair stream fits the 16-bit length.
pub proof fn lemma_compress_roundtrip(
    tag: u8,
    data: Seq<u8>,
    l0: Seq<EntryView>,
    l1: Seq<EntryView>,
    l3: Seq<EntryView>,
    ac: Option<Seq<Seq<u8>>>,
    t0: Seq<EntryView>,
    t1: Seq<EntryView>,
)
    requires
        chunk_tier(data, l3),
        tiered_patterns(l0, l1, l3, ac),
        streams_ok(data, ac),
        decode_tiers(l0, l1, t0, t1),
        data.len() < 0x10000,
        deflate_spec(shard_streams(data, ac).0).len() < 0x10000,
    ensures
        shard_decoded(shard_frame(tag, shard_streams(data, ac), l3), views_bytes(t0), views_bytes(t1)) == Some(data),
{
    lemma_chunk_tier_shape(data, l3);
    lemma_chunk_records_len(l3);
    let (r0, r1, r3) = choose|r0: Seq<EntryView>, r1: Seq<EntryView>, r3: Seq<EntryView>| #[trigger] tiered_by(l0, l1, l3, ac, r0, r1, r3);
    crate::tokenizer::lemma_stable_unique(long_views(l0), r0, t0, 63);
    crate::tokenizer::lemma_stable_unique(long_views(l1), r1, t1, 64);
    lemma_tier_kept(l3, r3, 63);
    lemma_ranked_len(long_views(l0), t0, 63);
    lemma_ranked_len(long_views(l1), t1, 64);
    assert(views_bytes(t0 + t1 + l3) =~= views_bytes(t0) + views_bytes(t1) + views_bytes(l3));
    lemma_shard_roundtrip(tag, data, t0, t1, l3, ac);
}

/// A stable ranking holds at most `cap` entries.
proof fn lemma_ranked_len(c: Seq<EntryView>, r: Seq<EntryView>, cap: nat)
    requires
        ranked_stable(c, r, cap),
    ensures
        r.len() <= cap,
{
    let perm = choose|perm: Seq<int>| #[trigger] crate::tokenizer::ranked_by(c, r, cap, perm)
        && forall|a: int, b: int| 0 <= a < b < c.len() && c[#[trigger] perm[a]].2 == c[#[trigger] perm[b]].2 ==> perm[a] < perm[b];
}

/// The automaton keeps a canonical tier as it is.
proof fn lemma_tier_kept(l: Seq<EntryView>, r: Seq<EntryView>, cap: nat)
    requires
        canonical_tier(l, cap),
        ranked_stable(long_views(l), r, cap),
    ensures
        r == l,
{
    lemma_long_identity(l);
    crate::tokenizer::lemma_stable_identity(l, r, cap);
}

/// Every entry's bytes fit a record's length byte with a tag in front, and
/// its counts fit 32 bits.
pub open spec fn entries_fit(es: Seq<EntryView>) -> bool {
    forall|k: int| 0 <= k < es.len() ==> (#[trigger] es[k]).0.len() <= 254 && es[k].1 <= u32::MAX && es[k].2 <= u32::MAX
}

proof fn lemma_lift_exported(es: Seq<EntryView>)
    requires
        entries_fit(es),
    ensures
        lifted_records(exported_views(es)) == es,
{
    assert forall|k: int| 0 <= k < es.len() implies #[trigger] lifted_records(exported_views(es))[k] == es[k] by {
        let e = es[k];
        assert(e.1 <= u32::MAX && e.2 <= u32::MAX);
        assert(((e.1 as u64) as usize) as nat == e.1);
        assert(((e.2 as u64) as usize) as nat == e.2);
    }
    assert(lifted_records(exported_views(es)) =~= es);
}

/// The tag byte of a slot names the shard type of that slot.
proof fn lemma_slot_tags(i: int)
    requires
        0 <= i < SHARD_SLOTS,
    ensures
        shard_tag(shard_of_tag(i as u8)) == i,
{
}

/// Loading tagged records after others: a block of records tagged for `t`
/// extends `t`'s tier, other blocks leave it.
proof fn lemma_loaded_block(a: Seq<(Seq<u8>, u64, u64)>, tag: u8, es: Seq<EntryView>, t: ShardType)
    requires
        entries_fit(es),
    ensures
        l1_loaded(a + tagged_views(tag, es), t) == if shard_of_tag(tag) == t && es.len() > 0 {
            Some(l1_loaded(a, t).unwrap_or(Seq::empty()) + es)
        } else {
            l1_loaded(a, t)
        },
    decreases es.len(),
{
    if es.len() == 0 {
        assert(a + tagged_views(tag, es) =~= a);
    } else {
        let d = es.drop_last();
        lemma_loaded_block(a, tag, d, t);
        let all = a + tagged_views(tag, es);
        assert(all.drop_last() =~= a + tagged_views(tag, d));
        let e = es.last();
        let rec = all.last();
        assert(rec == (seq![tag] + e.0, e.1 as u64, e.2 as u64));
        assert(rec.0.len() > 0 && rec.0[0] == tag);
        assert(rec.0.skip(1) =~= e.0);
        assert(((e.1 as u64) as usize) as nat == e.1 && ((e.2 as u64) as usize) as nat == e.2) by {
            assert(es[es.len() - 1] == e);
        }
        if shard_of_tag(tag) == t {
            if d.len() > 0 {
                assert(l1_loaded(a, t).unwrap_or(Seq::empty()) + d + seq![e] =~= l1_loaded(a, t).unwrap_or(Seq::empty()) + es);
            } else {
                assert(l1_loaded(a, t).unwrap_or(Seq::empty()) + es =~= l1_loaded(a, t).unwrap_or(Seq::empty()).push(e));
            }
        }
    }
}

/// The tier of `t` loaded from the tagged entries of the first `k` slots.
proof fn lemma_loaded_slots(slots: Seq<Option<Seq<EntryView>>>, k: int, t: ShardType)
    requires
        0 <= k <= SHARD_SLOTS,
        slots.len() == SHARD_SLOTS,
        forall|i: int| 0 <= i < SHARD_SLOTS ==> (#[trigger] slots[i] matches Some(es) ==> entries_fit(es)),
    ensures
        l1_loaded(tagged_slots(slots, k), t) == if shard_tag(t) < k && (slots[shard_tag(t) as int] matches Some(es) && es.len() > 0) {
            slots[shard_tag(t) as int]
        } else {
            None
        },
    decreases k,
{
    if k == 0 {
        assert(tagged_slots(slots, 0) =~= Seq::<(Seq<u8>, u64, u64)>::empty());
    } else {
        lemma_loaded_slots(slots, k - 1, t);
        lemma_slot_tags(k - 1);
        lemma_shard_tag_roundtrip(t);
        let prev = tagged_slots(slots, k - 1);
        match slots[k - 1] {
            Some(es) => {
                lemma_loaded_block(prev, (k - 1) as u8, es, t);
                assert(tagged_slots(slots, k) == prev + tagged_views((k - 1) as u8, es));
                if shard_of_tag((k - 1) as u8) == t {
                    assert(shard_tag(t) == k - 1);
                    assert(l1_loaded(prev, t) is None);
                    assert(Seq::<EntryView>::empty() + es =~= es);
                } else {
                    assert(shard_tag(t) != k - 1);
                }
            },
            None => {
                assert(tagged_slots(slots, k) =~= prev);
                assert(shard_tag(t) != k - 1 || slots[shard_tag(t) as int] is None);
            },
        }
    }
}

proof fn lemma_tagged_fit(slots: Seq<Option<Seq<EntryView>>>, k: int)
    requires
        0 <= k <= slots.len(),
        forall|i: int| 0 <= i < slots.len() ==> (#[trigger] slots[i] matches Some(es) ==> entries_fit(es)),
    ensures
        forall|j: int| 0 <= j < tagged_slots(slots, k).len() ==> (#[trigger] tagged_slots(slots, k)[j]).0.len() <= 255
            && tagged_slots(slots, k)[j].1 <= u32::MAX && tagged_slots(slots, k)[j].2 <= u32::MAX,
    decreases k,
{
    if k > 0 {
        lemma_tagged_fit(slots, k - 1);
        let prev = tagged_slots(slots, k - 1);
        match slots[k - 1] {
            Some(es) => {
                let blk = tagged_views((k - 1) as u8, es);
                assert(tagged_slots(slots, k) == prev + blk);
                assert forall|j: int| 0 <= j < tagged_slots(slots, k).len() implies (#[trigger] tagged_slots(slots, k)[j]).0.len() <= 255
                    && tagged_slots(slots, k)[j].1 <= u32::MAX && tagged_slots(slots, k)[j].2 <= u32::MAX by {
                    if j >= prev.len() {
                        let q = j - prev.len();
                        assert(blk[q] == (seq![(k - 1) as u8] + es[q].0, es[q].1 as u64, es[q].2 as u64));
                    }
                }
            },
            None => {
                assert(tagged_slots(slots, k) =~= prev);
            },
        }
    }
}

/// Where the parts of a snapshot image lie.
proof fn lemma_image_layout(l0: Seq<EntryView>, l1: Seq<(Seq<u8>, u64, u64)>)
    requires
        window_records(exported_views(l0)).len() <= u32::MAX,
        window_records(l1).len() <= u32::MAX,
    ensures
        ({
            let data = snapshot_image(l0, l1);
            &&& snapshot_header_ok(data)
            &&& snapshot_in_bounds(data)
            &&& snapshot_crc_ok(data)
            &&& data.subrange(9, snapshot_l0_end(data)) == window_records(exported_views(l0))
            &&& data.subrange(snapshot_l0_end(data) + 4, snapshot_l1_end(data)) == window_records(l1)
        }),
{
    let r0 = window_records(exported_views(l0));
    let r1 = window_records(l1);
    let body = snapshot_body(l0, l1);
    let data = snapshot_image(l0, l1);
    let c = crate::codec::crc::crc32_spec(body);
    crate::bytes::lemma_le32_roundtrip(r0.len() as u32);
    crate::bytes::lemma_le32_roundtrip(r1.len() as u32);
    crate::bytes::lemma_le32_roundtrip(c);
    let p0: int = 9 + r0.len() as int;
    let p1: int = p0 + 4 + r1.len() as int;
    assert(data =~= snapshot_magic() + seq![SNAPSHOT_VERSION] + le32_bytes(r0.len() as u32) + r0
        + le32_bytes(r1.len() as u32) + r1 + le32_bytes(c));
    assert(data.take(4) =~= snapshot_magic());
    assert(data.subrange(5, 9) =~= le32_bytes(r0.len() as u32));
    assert(snapshot_l0_end(data) == p0);
    assert(data.subrange(p0, p0 + 4) =~= le32_bytes(r1.len() as u32));
    assert(snapshot_l1_end(data) == p1);
    assert(data.subrange(9, p0) =~= r0);
    assert(data.subrange(p0 + 4, p1) =~= r1);
    assert(data.subrange(p1, p1 + 4) =~= le32_bytes(c));
    assert(data.take(p1) =~= body);
}

/// A compressor that loaded the snapshot `fc` saved has `fc`'s universal
/// tier, entry by entry and in order, and each of `fc`'s non-empty domain
/// tiers (the load's own contract gives `g`'s tiers from the image).
pub proof fn lemma_snapshot_reload(fc: FractalCompressor, g: FractalCompressor)
    requires
        fc.wf(),
        entries_fit(fc.l0_view()),
        forall|t: ShardType| #[trigger] fc.l1_view(t) matches Some(es) ==> entries_fit(es),
        window_records(exported_views(fc.l0_view())).len() <= u32::MAX,
        window_records(fc.tagged_l1()).len() <= u32::MAX,
        g.l0_view() == lifted_records(snapshot_l0(snapshot_image(fc.l0_view(), fc.tagged_l1()))),
        forall|t: ShardType| #[trigger] g.l1_view(t) == l1_loaded(snapshot_l1(snapshot_image(fc.l0_view(), fc.tagged_l1())), t),
    ensures
        g.l0_view() == fc.l0_view(),
        forall|t: ShardType| #[trigger] fc.l1_view(t) matches Some(es) && es.len() > 0 ==> g.l1_view(t) == fc.l1_view(t),
{
    lemma_snapshot_roundtrip(fc);
    let data = snapshot_image(fc.l0_view(), fc.tagged_l1());
    assert forall|t: ShardType| #[trigger] fc.l1_view(t) matches Some(es) && es.len() > 0 implies g.l1_view(t) == fc.l1_view(t) by {
        assert(g.l1_view(t) == l1_loaded(snapshot_l1(data), t));
    }
}

/// Loading the snapshot a compressor saves gives back its universal tier
/// and each shard type's non-empty domain tier (empty domain tiers are not
/// recreated), and the snapshot passes its CRC check; for entries whose
/// bytes fit a tagged record and whose counts fit 32 bits, and record
/// sections that fit their 32-bit lengths.
pub proof fn lemma_snapshot_roundtrip(fc: FractalCompressor)
    requires
        fc.wf(),
        entries_fit(fc.l0_view()),
        forall|t: ShardType| #[trigger] fc.l1_view(t) matches Some(es) ==> entries_fit(es),
        window_records(exported_views(fc.l0_view())).len() <= u32::MAX,
        window_records(fc.tagged_l1()).len() <= u32::MAX,
    ensures
        ({
            let data = snapshot_image(fc.l0_view(), fc.tagged_l1());
            &&& snapshot_header_ok(data)
            &&& snapshot_in_bounds(data)
            &&& snapshot_crc_ok(data)
            &&& lifted_records(snapshot_l0(data)) == fc.l0_view()
            &&& forall|t: ShardType| #[trigger] l1_loaded(snapshot_l1(data), t) == (if fc.l1_view(t) matches Some(es) && es.len() > 0 {
                fc.l1_view(t)
            } else {
                None
            })
        }),
{
    let slots = fc.slot_views();
    assert(slots.len() == SHARD_SLOTS);
    assert forall|i: int| 0 <= i < SHARD_SLOTS implies (#[trigger] slots[i] matches Some(es) ==> entries_fit(es)) by {
        lemma_slot_tags(i);
        assert(fc.l1_view(shard_of_tag(i as u8)) == slots[i]);
    }
    lemma_slots_snapshot(fc.l0_view(), slots);
    assert forall|t: ShardType| #[trigger] fc.l1_view(t) == slots[shard_tag(t) as int] by {
        assert(shard_tag(t) < SHARD_SLOTS);
    }
}

/// `lemma_snapshot_roundtrip` over the tiers' values.
#[verifier::spinoff_prover]
#[verifier::rlimit(80)]
proof fn lemma_slots_snapshot(l0: Seq<EntryView>, slots: Seq<Option<Seq<EntryView>>>)
    requires
        slots.len() == SHARD_SLOTS,
        entries_fit(l0),
        forall|i: int| 0 <= i < SHARD_SLOTS ==> (#[trigger] slots[i] matches Some(es) ==> entries_fit(es)),
        window_records(exported_views(l0)).len() <= u32::MAX,
        window_records(tagged_slots(slots, SHARD_SLOTS as int)).len() <= u32::MAX,
    ensures
        ({
            let data = snapshot_image(l0, tagged_slots(slots, SHARD_SLOTS as int));
            &&& snapshot_header_ok(data)
            &&& snapshot_in_bounds(data)
            &&& snapshot_crc_ok(data)
            &&& lifted_records(snapshot_l0(data)) == l0
            &&& forall|t: ShardType| #[trigger] l1_loaded(snapshot_l1(data), t)
                == (if slots[shard_tag(t) as int] matches Some(es) && es.len() > 0 { slots[shard_tag(t) as int] } else { None })
        }),
{
    let l1 = tagged_slots(slots, SHARD_SLOTS as int);
    let data = snapshot_image(l0, l1);
    lemma_image_layout(l0, l1);
    lemma_snapshot_l0(l0, l1);
    lemma_snapshot_l1(l0, slots);
    assert forall|t: ShardType| #[trigger] l1_loaded(snapshot_l1(data), t)
        == (if slots[shard_tag(t) as int] matches Some(es) && es.len() > 0 { slots[shard_tag(t) as int] } else { None }) by {
        lemma_loaded_slots(slots, SHARD_SLOTS as int, t);
        assert(shard_tag(t) < SHARD_SLOTS);
    }
}

proof fn lemma_snapshot_l0(l0: Seq<EntryView>, l1: Seq<(Seq<u8>, u64, u64)>)
    requires
        entries_fit(l0),
        window_records(exported_views(l0)).len() <= u32::MAX,
        window_records(l1).len() <= u32::MAX,
    ensures
        lifted_records(snapshot_l0(snapshot_image(l0, l1))) == l0,
{
    let ex = exported_views(l0);
    lemma_image_layout(l0, l1);
    assert forall|j: int| 0 <= j < ex.len() implies (#[trigger] ex[j]).0.len() <= 255 && ex[j].1 <= u32::MAX && ex[j].2 <= u32::MAX by {
        assert(l0[j].0.len() <= 254);
    }
    crate::level4::lemma_entries_roundtrip(ex);
    lemma_lift_exported(l0);
}

proof fn lemma_snapshot_l1(l0: Seq<EntryView>, slots: Seq<Option<Seq<EntryView>>>)
    requires
        slots.len() == SHARD_SLOTS,
        forall|i: int| 0 <= i < SHARD_SLOTS ==> (#[trigger] slots[i] matches Some(es) ==> entries_fit(es)),
        window_records(exported_views(l0)).len() <= u32::MAX,
        window_records(tagged_slots(slots, SHARD_SLOTS as int)).len() <= u32::MAX,
    ensures
        snapshot_l1(snapshot_image(l0, tagged_slots(slots, SHARD_SLOTS as int))) == tagged_slots(slots, SHARD_SLOTS as int),
{
    let l1 = tagged_slots(slots, SHARD_SLOTS as int);
    lemma_image_layout(l0, l1);
    lemma_tagged_fit(slots, SHARD_SLOTS as int);
    crate::level4::lemma_entries_roundtrip(l1);
}

/// An error message naming the stream that failed: `format!` of the
/// name, `": "` and the message.
#[verifier::external_body]
fn stream_error(what: &str, e: String) -> (m: String)
    ensures
        m@ == what@ + ": "@ + e@,
{
    format!("{}: {}", what, e)
}

} // verus!
