//! GN compression core: varint and frame codecs, ANS entropy coding,
//! codon-table tokenization, dictionary learning, sliding-window and tiered
//! vocabularies, the framed pipeline and the sidecar protocol.

pub mod bytes;
pub mod codec;
pub mod tokenizer;
pub mod pipeline;
pub mod level4;
pub mod sliding_v2_l4;
pub mod static_dict;
pub mod fractal;
pub mod sidecar;
pub mod text;
pub mod vtc;

use vstd::prelude::*;

verus! {

} // verus!
