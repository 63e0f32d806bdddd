//! Pre-seeded dictionaries for three detected content categories.
//!
//! JSON, prose and log text each come with a list of patterns known to
//! recur; they enter the first-pass dictionary with a high frequency so that
//! they survive selection.

use vstd::prelude::*;
use crate::tokenizer::dictionary::{DictEntry, contains_sub, contains_window};

verus! {

#[derive(Debug, Clone, Copy, PartialEq, Eq, Structural)]
pub enum Category {
    Json,
    Text,
    Log,
    Mixed,
}

/// The number of leading bytes that detection looks at.
pub const SAMPLE_LEN: usize = 256;

/// The frequency credited to every pre-seeded entry.
pub const SEED_FREQ: usize = 50;

/// Markers whose presence in the sample classifies the input as a log.
pub open spec fn log_markers() -> Seq<Seq<u8>> {
    seq![
        seq![0x5b, 0x45, 0x52, 0x52, 0x4f, 0x52, 0x5d],
        seq![0x5b, 0x57, 0x41, 0x52, 0x4e, 0x5d],
        seq![0x5b, 0x49, 0x4e, 0x46, 0x4f, 0x5d],
        seq![0x5b, 0x44, 0x45, 0x42, 0x55, 0x47, 0x5d],
        seq![0x45, 0x78, 0x63, 0x65, 0x70, 0x74, 0x69, 0x6f, 0x6e, 0x3a],
        seq![0x45, 0x72, 0x72, 0x6f, 0x72, 0x3a],
        seq![0x46, 0x41, 0x54, 0x41, 0x4c],
        seq![0x73, 0x74, 0x61, 0x63, 0x6b, 0x20, 0x74, 0x72, 0x61, 0x63, 0x65],
        seq![0x54, 0x72, 0x61, 0x63, 0x65, 0x62, 0x61, 0x63, 0x6b],
    ]
}

/// `:{` and `":`, the signs of structured data.
pub open spec fn json_pair_markers() -> Seq<Seq<u8>> {
    seq![seq![0x3au8, 0x7bu8], seq![0x22u8, 0x3au8]]
}

/// ` the ` and ` and `, the signs of prose.
pub open spec fn prose_markers() -> Seq<Seq<u8>> {
    seq![seq![0x20u8, 0x74u8, 0x68u8, 0x65u8, 0x20u8], seq![0x20u8, 0x61u8, 0x6eu8, 0x64u8, 0x20u8]]
}

/// Some marker of `ms` occurs in `s`.
pub open spec fn any_marker(s: Seq<u8>, ms: Seq<Seq<u8>>) -> bool {
    exists|k: int| 0 <= k < ms.len() && contains_sub(s, #[trigger] ms[k])
}

/// The first `SAMPLE_LEN` bytes.
pub open spec fn sample_of(buf: Seq<u8>) -> Seq<u8> {
    if buf.len() < SAMPLE_LEN { buf } else { buf.take(SAMPLE_LEN as int) }
}

/// The first byte above 0x20 of `s` is an opening brace or bracket.
pub open spec fn opens_structure(s: Seq<u8>) -> bool {
    exists|i: int|
        0 <= i < s.len() && (#[trigger] s[i]) > 0x20 && (forall|k: int| 0 <= k < i ==> s[k] <= 0x20) && (s[i] == 0x7b
            || s[i] == 0x5b)
}

/// The category of a buffer, judged from its first 256 bytes: a log marker
/// makes it a log; otherwise a leading `{` or `[` (after whitespace and
/// control bytes) makes it JSON; otherwise signs of both structure and prose
/// make it mixed; otherwise it is text.
pub open spec fn detect_spec(buf: Seq<u8>) -> Category {
    let s = sample_of(buf);
    if any_marker(s, log_markers()) {
        Category::Log
    } else if opens_structure(s) {
        Category::Json
    } else if any_marker(s, json_pair_markers()) && any_marker(s, prose_markers()) {
        Category::Mixed
    } else {
        Category::Text
    }
}

/// The patterns pre-seeded for each category.
pub open spec fn category_patterns(c: Category) -> Seq<Seq<u8>> {
    match c {
        Category::Json => seq![
            seq![0x7b, 0x22],
            seq![0x22, 0x3a, 0x22],
            seq![0x22, 0x2c, 0x22],
            seq![0x3a, 0x6e, 0x75, 0x6c, 0x6c],
            seq![0x3a, 0x74, 0x72, 0x75, 0x65],
            seq![0x3a, 0x66, 0x61, 0x6c, 0x73, 0x65],
            seq![0x22, 0x73, 0x74, 0x61, 0x74, 0x75, 0x73, 0x22, 0x3a],
            seq![0x22, 0x65, 0x72, 0x72, 0x6f, 0x72, 0x22, 0x3a],
            seq![0x22, 0x64, 0x61, 0x74, 0x61, 0x22, 0x3a],
            seq![0x22, 0x6d, 0x65, 0x73, 0x73, 0x61, 0x67, 0x65, 0x22, 0x3a],
            seq![0x22, 0x74, 0x69, 0x6d, 0x65, 0x73, 0x74, 0x61, 0x6d, 0x70, 0x22, 0x3a],
            seq![0x22, 0x69, 0x64, 0x22, 0x3a],
            seq![0x22, 0x74, 0x79, 0x70, 0x65, 0x22, 0x3a],
            seq![0x22, 0x6e, 0x61, 0x6d, 0x65, 0x22, 0x3a],
        ],
        Category::Text => seq![
            seq![0x20, 0x74, 0x68, 0x65, 0x20],
            seq![0x20, 0x61, 0x6e, 0x64, 0x20],
            seq![0x20, 0x6f, 0x66, 0x20],
            seq![0x20, 0x74, 0x6f, 0x20],
            seq![0x20, 0x69, 0x6e, 0x20],
            seq![0x20, 0x69, 0x73, 0x20],
            seq![0x20, 0x66, 0x6f, 0x72, 0x20],
            seq![0x20, 0x69, 0x74, 0x20],
            seq![0x20, 0x62, 0x65, 0x20],
            seq![0x20, 0x74, 0x68, 0x61, 0x74, 0x20],
            seq![0x20, 0x77, 0x69, 0x74, 0x68, 0x20],
            seq![0x20, 0x74, 0x68, 0x69, 0x73, 0x20],
            seq![0x20, 0x61, 0x72, 0x65, 0x20],
            seq![0x20, 0x61, 0x73, 0x20],
            seq![0x20, 0x77, 0x61, 0x73, 0x20],
            seq![0x20, 0x68, 0x61, 0x76, 0x65, 0x20],
            seq![0x20, 0x6e, 0x6f, 0x74, 0x20],
            seq![0x20, 0x66, 0x72, 0x6f, 0x6d, 0x20],
            seq![0x20, 0x6f, 0x72, 0x20],
            seq![0x20, 0x61, 0x6e, 0x20],
            seq![0x20, 0x63, 0x61, 0x6e, 0x20],
            seq![0x20, 0x79, 0x6f, 0x75, 0x20],
            seq![0x20, 0x77, 0x65, 0x20],
            seq![0x20, 0x74, 0x68, 0x65, 0x79, 0x20],
            seq![0x20, 0x77, 0x68, 0x69, 0x63, 0x68, 0x20],
            seq![0x20, 0x77, 0x69, 0x6c, 0x6c, 0x20],
            seq![0x20, 0x6f, 0x6e, 0x20],
            seq![0x20, 0x61, 0x74, 0x20],
            seq![0x20, 0x62, 0x79, 0x20],
            seq![0x20, 0x62, 0x75, 0x74, 0x20],
        ],
        Category::Log => seq![
            seq![0x5b, 0x45, 0x52, 0x52, 0x4f, 0x52, 0x5d],
            seq![0x5b, 0x57, 0x41, 0x52, 0x4e, 0x5d],
            seq![0x5b, 0x49, 0x4e, 0x46, 0x4f, 0x5d],
            seq![0x5b, 0x44, 0x45, 0x42, 0x55, 0x47, 0x5d],
            seq![0x45, 0x78, 0x63, 0x65, 0x70, 0x74, 0x69, 0x6f, 0x6e, 0x3a],
            seq![0x45, 0x72, 0x72, 0x6f, 0x72, 0x3a],
            seq![0x57, 0x61, 0x72, 0x6e, 0x69, 0x6e, 0x67, 0x3a],
            seq![0x61, 0x74, 0x20],
            seq![0x63, 0x61, 0x75, 0x73, 0x65, 0x64, 0x20, 0x62, 0x79],
            seq![0x73, 0x74, 0x61, 0x63, 0x6b, 0x20, 0x74, 0x72, 0x61, 0x63, 0x65],
        ],
        Category::Mixed => seq![
            seq![0x20, 0x74, 0x68, 0x65, 0x20],
            seq![0x20, 0x61, 0x6e, 0x64, 0x20],
            seq![0x3a, 0x6e, 0x75, 0x6c, 0x6c],
            seq![0x3a, 0x74, 0x72, 0x75, 0x65],
            seq![0x3a, 0x66, 0x61, 0x6c, 0x73, 0x65],
            seq![0x22, 0x3a, 0x22],
        ],
    }
}

/// Every pattern of `pats` is at most 16 bytes long.
spec fn all_short(pats: Seq<Seq<u8>>) -> bool
    decreases pats.len(),
{
    pats.len() == 0 || (pats.last().len() <= 16 && all_short(pats.drop_last()))
}

proof fn lemma_all_short(pats: Seq<Seq<u8>>)
    requires
        all_short(pats),
    ensures
        forall|j: int| 0 <= j < pats.len() ==> (#[trigger] pats[j]).len() <= 16,
    decreases pats.len(),
{
    if pats.len() > 0 {
        lemma_all_short(pats.drop_last());
        assert forall|j: int| 0 <= j < pats.len() implies (#[trigger] pats[j]).len() <= 16 by {
            if j < pats.len() - 1 {
                assert(pats[j] == pats.drop_last()[j]);
            }
        }
    }
}

/// No pre-seeded pattern is longer than 16 bytes.
proof fn lemma_pattern_lengths(c: Category)
    ensures
        forall|j: int| 0 <= j < category_patterns(c).len() ==> (#[trigger] category_patterns(c)[j]).len() <= 16,
{
    reveal_with_fuel(all_short, 31);
    assert(all_short(category_patterns(c)));
    lemma_all_short(category_patterns(c));
}

fn marker_list() -> (v: Vec<Vec<u8>>)
    ensures
        v@.map_values(|x: Vec<u8>| x@) == log_markers(),
{
    let v: Vec<Vec<u8>> = vec![
                vec![0x5b, 0x45, 0x52, 0x52, 0x4f, 0x52, 0x5d],
                vec![0x5b, 0x57, 0x41, 0x52, 0x4e, 0x5d],
                vec![0x5b, 0x49, 0x4e, 0x46, 0x4f, 0x5d],
                vec![0x5b, 0x44, 0x45, 0x42, 0x55, 0x47, 0x5d],
                vec![0x45, 0x78, 0x63, 0x65, 0x70, 0x74, 0x69, 0x6f, 0x6e, 0x3a],
                vec![0x45, 0x72, 0x72, 0x6f, 0x72, 0x3a],
                vec![0x46, 0x41, 0x54, 0x41, 0x4c],
                vec![0x73, 0x74, 0x61, 0x63, 0x6b, 0x20, 0x74, 0x72, 0x61, 0x63, 0x65],
                vec![0x54, 0x72, 0x61, 0x63, 0x65, 0x62, 0x61, 0x63, 0x6b],
            ];
    assert(v@.map_values(|x: Vec<u8>| x@) =~= log_markers());
    v
}

fn pattern_list(c: Category) -> (v: Vec<Vec<u8>>)
    ensures
        v@.map_values(|x: Vec<u8>| x@) == category_patterns(c),
{
    match c {
        Category::Json => {
            let v: Vec<Vec<u8>> = vec![
                vec![0x7b, 0x22],
                vec![0x22, 0x3a, 0x22],
                vec![0x22, 0x2c, 0x22],
                vec![0x3a, 0x6e, 0x75, 0x6c, 0x6c],
                vec![0x3a, 0x74, 0x72, 0x75, 0x65],
                vec![0x3a, 0x66, 0x61, 0x6c, 0x73, 0x65],
                vec![0x22, 0x73, 0x74, 0x61, 0x74, 0x75, 0x73, 0x22, 0x3a],
                vec![0x22, 0x65, 0x72, 0x72, 0x6f, 0x72, 0x22, 0x3a],
                vec![0x22, 0x64, 0x61, 0x74, 0x61, 0x22, 0x3a],
                vec![0x22, 0x6d, 0x65, 0x73, 0x73, 0x61, 0x67, 0x65, 0x22, 0x3a],
                vec![0x22, 0x74, 0x69, 0x6d, 0x65, 0x73, 0x74, 0x61, 0x6d, 0x70, 0x22, 0x3a],
                vec![0x22, 0x69, 0x64, 0x22, 0x3a],
                vec![0x22, 0x74, 0x79, 0x70, 0x65, 0x22, 0x3a],
                vec![0x22, 0x6e, 0x61, 0x6d, 0x65, 0x22, 0x3a],
            ];
            assert(v@.map_values(|x: Vec<u8>| x@) =~= category_patterns(c));
            v
        },
        Category::Text => {
            let v: Vec<Vec<u8>> = vec![
                vec![0x20, 0x74, 0x68, 0x65, 0x20],
                vec![0x20, 0x61, 0x6e, 0x64, 0x20],
                vec![0x20, 0x6f, 0x66, 0x20],
                vec![0x20, 0x74, 0x6f, 0x20],
                vec![0x20, 0x69, 0x6e, 0x20],
                vec![0x20, 0x69, 0x73, 0x20],
                vec![0x20, 0x66, 0x6f, 0x72, 0x20],
                vec![0x20, 0x69, 0x74, 0x20],
                vec![0x20, 0x62, 0x65, 0x20],
                vec![0x20, 0x74, 0x68, 0x61, 0x74, 0x20],
                vec![0x20, 0x77, 0x69, 0x74, 0x68, 0x20],
                vec![0x20, 0x74, 0x68, 0x69, 0x73, 0x20],
                vec![0x20, 0x61, 0x72, 0x65, 0x20],
                vec![0x20, 0x61, 0x73, 0x20],
                vec![0x20, 0x77, 0x61, 0x73, 0x20],
                vec![0x20, 0x68, 0x61, 0x76, 0x65, 0x20],
                vec![0x20, 0x6e, 0x6f, 0x74, 0x20],
                vec![0x20, 0x66, 0x72, 0x6f, 0x6d, 0x20],
                vec![0x20, 0x6f, 0x72, 0x20],
                vec![0x20, 0x61, 0x6e, 0x20],
                vec![0x20, 0x63, 0x61, 0x6e, 0x20],
                vec![0x20, 0x79, 0x6f, 0x75, 0x20],
                vec![0x20, 0x77, 0x65, 0x20],
                vec![0x20, 0x74, 0x68, 0x65, 0x79, 0x20],
                vec![0x20, 0x77, 0x68, 0x69, 0x63, 0x68, 0x20],
                vec![0x20, 0x77, 0x69, 0x6c, 0x6c, 0x20],
                vec![0x20, 0x6f, 0x6e, 0x20],
                vec![0x20, 0x61, 0x74, 0x20],
                vec![0x20, 0x62, 0x79, 0x20],
                vec![0x20, 0x62, 0x75, 0x74, 0x20],
            ];
            assert(v@.map_values(|x: Vec<u8>| x@) =~= category_patterns(c));
            v
        },
        Category::Log => {
            let v: Vec<Vec<u8>> = vec![
                vec![0x5b, 0x45, 0x52, 0x52, 0x4f, 0x52, 0x5d],
                vec![0x5b, 0x57, 0x41, 0x52, 0x4e, 0x5d],
                vec![0x5b, 0x49, 0x4e, 0x46, 0x4f, 0x5d],
                vec![0x5b, 0x44, 0x45, 0x42, 0x55, 0x47, 0x5d],
                vec![0x45, 0x78, 0x63, 0x65, 0x70, 0x74, 0x69, 0x6f, 0x6e, 0x3a],
                vec![0x45, 0x72, 0x72, 0x6f, 0x72, 0x3a],
                vec![0x57, 0x61, 0x72, 0x6e, 0x69, 0x6e, 0x67, 0x3a],
                vec![0x61, 0x74, 0x20],
                vec![0x63, 0x61, 0x75, 0x73, 0x65, 0x64, 0x20, 0x62, 0x79],
                vec![0x73, 0x74, 0x61, 0x63, 0x6b, 0x20, 0x74, 0x72, 0x61, 0x63, 0x65],
            ];
            assert(v@.map_values(|x: Vec<u8>| x@) =~= category_patterns(c));
            v
        },
        Category::Mixed => {
            let v: Vec<Vec<u8>> = vec![
                vec![0x20, 0x74, 0x68, 0x65, 0x20],
                vec![0x20, 0x61, 0x6e, 0x64, 0x20],
                vec![0x3a, 0x6e, 0x75, 0x6c, 0x6c],
                vec![0x3a, 0x74, 0x72, 0x75, 0x65],
                vec![0x3a, 0x66, 0x61, 0x6c, 0x73, 0x65],
                vec![0x22, 0x3a, 0x22],
            ];
            assert(v@.map_values(|x: Vec<u8>| x@) =~= category_patterns(c));
            v
        },
    }
}

/// Some marker of `ms` occurs in `s`.
fn any_marker_in(s: &[u8], ms: &Vec<Vec<u8>>) -> (r: bool)
    ensures
        r == any_marker(s@, ms@.map_values(|x: Vec<u8>| x@)),
{
    let ghost mv = ms@.map_values(|x: Vec<u8>| x@);
    let mut k: usize = 0;
    while k < ms.len()
        invariant
            k <= ms@.len(),
            mv == ms@.map_values(|x: Vec<u8>| x@),
            forall|j: int| 0 <= j < k ==> !contains_sub(s@, #[trigger] mv[j]),
        decreases ms@.len() - k,
    {
        if contains_window(s, ms[k].as_slice()) {
            assert(mv[k as int] == ms@[k as int]@);
            return true;
        }
        k = k + 1;
    }
    false
}

/// The position of the first byte above 0x20, if any.
fn first_visible(s: &[u8]) -> (r: Option<usize>)
    ensures
        match r {
            Some(i) => i < s@.len() && s@[i as int] > 0x20 && forall|k: int| 0 <= k < i ==> s@[k] <= 0x20,
            None => forall|k: int| 0 <= k < s@.len() ==> s@[k] <= 0x20,
        },
{
    let mut i: usize = 0;
    while i < s.len()
        invariant
            i <= s@.len(),
            forall|k: int| 0 <= k < i ==> s@[k] <= 0x20,
        decreases s@.len() - i,
    {
        if s[i] > 0x20 {
            return Some(i);
        }
        i = i + 1;
    }
    None
}

/// Only the first 256 bytes decide the category.
pub proof fn lemma_detect_sample(buf: Seq<u8>)
    ensures
        detect_spec(buf) == detect_spec(sample_of(buf)),
{
    if buf.len() >= SAMPLE_LEN {
        assert(sample_of(sample_of(buf)) =~= sample_of(buf));
    }
}

/// Detect the category of a buffer from its first 256 bytes.
pub fn detect(buf: &[u8]) -> (c: Category)
    ensures
        c == detect_spec(buf@),
{
    let m = if buf.len() < SAMPLE_LEN { buf.len() } else { SAMPLE_LEN };
    let sample = vstd::slice::slice_subrange(buf, 0, m);
    proof {
        if buf@.len() < SAMPLE_LEN {
            assert(sample@ =~= buf@);
        } else {
            assert(sample@ =~= buf@.take(SAMPLE_LEN as int));
        }
    }
    let markers = marker_list();
    if any_marker_in(sample, &markers) {
        return Category::Log;
    }
    match first_visible(sample) {
        Some(i) => {
            if sample[i] == 0x7b || sample[i] == 0x5b {
                return Category::Json;
            }
            proof {
                assert forall|j: int| 0 <= j < sample@.len() && (#[trigger] sample@[j]) > 0x20 && (forall|k: int| 0 <= k < j ==> sample@[k] <= 0x20)
                    implies !(sample@[j] == 0x7b || sample@[j] == 0x5b) by {
                    if j < i {
                    } else if j > i {
                        assert(sample@[i as int] <= 0x20);
                    }
                }
            }
        },
        None => {},
    }
    let pair_markers: Vec<Vec<u8>> = vec![vec![0x3a, 0x7b], vec![0x22, 0x3a]];
    let prose: Vec<Vec<u8>> = vec![vec![0x20, 0x74, 0x68, 0x65, 0x20], vec![0x20, 0x61, 0x6e, 0x64, 0x20]];
    proof {
        assert(pair_markers@.map_values(|x: Vec<u8>| x@) =~= json_pair_markers());
        assert(prose@.map_values(|x: Vec<u8>| x@) =~= prose_markers());
    }
    if any_marker_in(sample, &pair_markers) && any_marker_in(sample, &prose) {
        return Category::Mixed;
    }
    Category::Text
}

/// The entries seeded from a pattern list: each pattern longer than two
/// bytes, with frequency `SEED_FREQ` and the saving that frequency implies.
pub open spec fn seed_entries(pats: Seq<Seq<u8>>) -> Seq<(Seq<u8>, nat, nat)>
    decreases pats.len(),
{
    if pats.len() == 0 {
        Seq::empty()
    } else {
        let p = pats.last();
        seed_entries(pats.drop_last()) + if p.len() > 2 {
            seq![(p, SEED_FREQ as nat, ((p.len() - 2) * SEED_FREQ) as nat)]
        } else {
            Seq::empty()
        }
    }
}

/// The pre-seeded dictionary entries of a category.
pub fn preseed(category: &Category) -> (r: Vec<DictEntry>)
    ensures
        crate::tokenizer::dictionary::entry_views(r@) == seed_entries(category_patterns(*category)),
{
    let pats = pattern_list(*category);
    let ghost pv = pats@.map_values(|x: Vec<u8>| x@);
    proof {
        lemma_pattern_lengths(*category);
        assert forall|j: int| 0 <= j < pats@.len() implies (#[trigger] pats@[j])@.len() <= 16 by {
            assert(pv[j] == pats@[j]@);
        }
    }
    let mut out: Vec<DictEntry> = Vec::new();
    let mut k: usize = 0;
    while k < pats.len()
        invariant
            k <= pats@.len(),
            pv == pats@.map_values(|x: Vec<u8>| x@),
            pv == category_patterns(*category),
            forall|j: int| 0 <= j < pats@.len() ==> (#[trigger] pats@[j])@.len() <= 16,
            crate::tokenizer::dictionary::entry_views(out@) == seed_entries(pv.take(k as int)),
        decreases pats@.len() - k,
    {
        let p = &pats[k];
        let ghost o0 = out@;
        proof {
            assert(pv.take(k + 1).drop_last() =~= pv.take(k as int));
            assert(pv.take(k + 1).last() == p@);
        }
        if p.len() > 2 {
            let e = DictEntry { bytes: vstd::slice::slice_to_vec(p.as_slice()), freq: SEED_FREQ, saving: (p.len() - 2) * SEED_FREQ };
            out.push(e);
            proof {
                assert(crate::tokenizer::dictionary::entry_views(out@) =~= crate::tokenizer::dictionary::entry_views(o0)
                    .push(crate::tokenizer::dictionary::entry_view(e)));
            }
        } else {
            proof {
                assert(seed_entries(pv.take(k + 1)) =~= seed_entries(pv.take(k as int)));
            }
        }
        k = k + 1;
    }
    proof {
        assert(pv.take(pats@.len() as int) =~= pv);
    }
    out
}


proof fn lemma_seed_entries_bounded(pats: Seq<Seq<u8>>)
    requires
        forall|j: int| 0 <= j < pats.len() ==> (#[trigger] pats[j]).len() <= 16,
    ensures
        forall|k: int| 0 <= k < seed_entries(pats).len() ==> (#[trigger] seed_entries(pats)[k]).0.len() <= 16
            && seed_entries(pats)[k].2 <= 700,
    decreases pats.len(),
{
    if pats.len() > 0 {
        let init = pats.drop_last();
        assert forall|j: int| 0 <= j < init.len() implies (#[trigger] init[j]).len() <= 16 by {
            assert(init[j] == pats[j]);
        }
        lemma_seed_entries_bounded(init);
        let s0 = seed_entries(init);
        let s1 = seed_entries(pats);
        assert(pats.last() == pats[pats.len() - 1]);
        assert forall|k: int| 0 <= k < s1.len() implies (#[trigger] s1[k]).0.len() <= 16 && s1[k].2 <= 700 by {
            if k < s0.len() {
                assert(s1[k] == s0[k]);
            }
        }
    }
}

/// Pre-seeded entries are at most 16 bytes long and save at most 700 bytes.
pub proof fn lemma_seed_bounds(c: Category)
    ensures
        forall|k: int| 0 <= k < seed_entries(category_patterns(c)).len() ==> (#[trigger] seed_entries(category_patterns(c))[k]).0.len()
            <= 16 && seed_entries(category_patterns(c))[k].2 <= 700,
{
    lemma_pattern_lengths(c);
    lemma_seed_entries_bounded(category_patterns(c));
}

} // verus!
