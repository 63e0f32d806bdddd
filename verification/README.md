# glasik_core

A verified compression core for LLM conversation traffic: codon-table
tokenization over learned dictionaries, sliding-window dictionaries shared
between encoder and decoder, a prefix-indexed vocabulary tokenizer, a tiered
(universal / domain / session / chunk) vocabulary with self-contained shard
frames, and a framed pipeline (tokens, optionally DEFLATE, CRC32-checked
frames). Every function of the library carries a Verus contract; the
round-trip properties of the formats are stated and proved as lemmas next
to the code they are about. Each says on which inputs it holds: those whose
lengths fit the fields the formats store them in (32-bit stream and payload
lengths, 16-bit shard lengths, one-byte entry lengths), codon ids within
1-254, and, for back-references, inputs without the marker byte 0x02.

Content tags (`src/vtc.rs`) name a shard frame by the SHA-256 of its shard
type and pair stream.

Layout:

- `src/codec/` – varints, rANS entropy coding, CRC32, frames, token-level
  back-references.
- `src/tokenizer/` – dictionaries, codon tables and Aho-Corasick encodings,
  content pre-seeding, the prefix-indexed tokenizer, sliding windows (v1,
  v2) and the hybrid encoder with a published vocabulary.
- `src/pipeline.rs`, `src/level4.rs`, `src/static_dict.rs`,
  `src/sliding_v2_l4.rs`, `src/fractal.rs`, `src/sidecar.rs` – the framed
  pipeline, compressed window snapshots, the bundled static dictionary, the
  snapshot-keeping window, the tiered vocabulary and the sidecar protocol.
- `app/` – the sidecar binary: stdin/stdout, files and JSON snapshots.
- `tests/` – executable tests of the library.
