# surch_index

Index building blocks for a Lucene-style search engine, written in Verus:
the functions of the library carry `requires`/`ensures` contracts that
Verus proves. The few small functions that call an outside crate or std
(`fst`, `blake3`, `crc32fast`, `constant_time_eq`, and std string, vector
and byte calls) are marked `external_body`: their contracts are trusted,
not proved, and each one's doc comment says what it claims of the call.

## Layout

- `src/` — the verified library.
  - `text`, `string_map`: string order and an ordered name-to-value map.
  - `field_infos`, `field_infos_codec`, `segment_field_infos`: field
    metadata and its binary encoding.
  - `live_docs`: the deleted-document bitset.
  - `stored_fields`: stored documents and their encoding.
  - `data_io`, `codec_util`: little/big-endian readers and writers, codec
    headers and footers (CRC-32 through `crc32fast`).
  - `segment_infos`, `commit_format`, `segment_manifest`: commit points and
    their files.
  - `roaring`: a roaring set of doc ids and its intersection.
  - `postings`, `term_dictionary`, `utf8_order`: the postings builder, the
    per-field FST term dictionary (through `fst`) with flat postings
    channels, block statistics and prefix scans.
  - `disk_cursor`, `p2_integrity`: the block directory of on-disk postings,
    the block-wise cursor, and the page digests (BLAKE3) that attest them.
  - `field_length`, `subfield_column`, `memory`: per-field length norms,
    sub-field value columns and memory gauges.
  - `mapping`, `mapping_laws`: index mappings, their JSON model and the
    round trip between them.
- `app/` — the plain Rust around the library: JSON conversion with
  `serde_json`, error types with `thiserror`, file reads and environment
  switches.
- `tests/` — the tests, run against the compiled library.

The laws that span several functions (round trips of the encodings, the
read-after-write of the sub-field column, the prefix range of the term
dictionary, ...) are public proof functions named `law_*`.
