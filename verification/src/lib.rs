//! Lucene-style index building blocks: field metadata, live documents,
//! stored fields, segment bookkeeping, postings and mappings.

pub mod text;
pub mod field_infos;
pub mod live_docs;
pub mod stored_fields;
pub mod data_io;
pub mod field_infos_codec;
pub mod string_map;
pub mod segment_field_infos;
pub mod codec_util;
pub mod segment_infos;
pub mod commit_format;
pub mod segment_manifest;
pub mod roaring;
pub mod postings;
pub mod mapping;
pub mod memory;
pub mod p2_integrity;
pub mod field_length;
pub mod mapping_laws;
pub mod disk_cursor;
pub mod subfield_column;
pub mod utf8_order;
pub mod term_dictionary;
