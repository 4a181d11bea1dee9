//! Source-map plumbing for bundlers: sources with optional source maps,
//! concatenation, and the Base64-VLQ `mappings` format.

pub mod error;
pub mod vlq;
pub mod text;
pub mod mapping;
pub mod encoder;
pub mod helpers;
pub mod source_map;
pub mod stream;
pub mod index_map;
pub mod concat_source;
pub mod sourcemap_api;
pub mod builder_sources;
pub mod fx_maps;
pub mod combined;
pub mod roundtrip;
