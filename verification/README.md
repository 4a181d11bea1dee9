# rspack_sources

Source-map plumbing for bundlers, verified with Verus: sources that may
carry a source map, their concatenation, and the Base64-VLQ `mappings`
format.

Layout of `src/`:

- `vlq`, `mapping`, `encoder`: Base64 VLQ numbers and the two encodings of
  `mappings` (with columns, lines only), each stated as a function on
  mapping lists.
- `source_map`, `stream`, `helpers`: a source map of plain values, decoding
  its `mappings`, and streaming a text with or without a map as chunks;
  gathering a stream back into a map.
- `roundtrip`: decoding what either encoder writes gives back what it
  wrote, and so does decoding the map gathered from a stream.
- `combined`: streaming a text whose map points into a source that has a
  map of its own.
- `concat_source`: concatenating streams and sources.
- `builder_sources`, `sourcemap_api`: sources whose maps are built with the
  `sourcemap` crate (original files, concatenations, sources read through an
  inner map, a cache of maps), and what the crate's builder and map are
  trusted to do.
- `fx_maps`, `index_map`: the `rustc_hash` and `hashbrown` maps that the
  logic keeps, behind small types whose contents have names.

`app/` holds what Verus does not take: `Display` and `std::error::Error`,
and JSON text for source maps.
