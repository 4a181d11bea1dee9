use rspack_sources::combined::stream_chunks_of_combined_source_map;
use rspack_sources::concat_source::{concat_streams, ChunkSource, ConcatSource};
use rspack_sources::helpers::get_map;
use rspack_sources::mapping::{MapOptions, Mapping, OriginalLocation};
use rspack_sources::source_map::{decode_mappings, SourceMap};
use rspack_sources::stream::{
    stream_chunks_default, stream_chunks_of_raw_source, stream_chunks_of_source_map, ChunkStream,
};

fn orig(source: u32, line: u32, column: u32) -> Option<OriginalLocation> {
    Some(OriginalLocation { source_index: source, original_line: line, original_column: column, name_index: None })
}

fn chunks(s: &ChunkStream) -> Vec<(Option<String>, u32, u32, Option<OriginalLocation>)> {
    s.chunks
        .iter()
        .map(|c| (c.text.clone(), c.mapping.generated_line, c.mapping.generated_column, c.mapping.original))
        .collect()
}

fn sources(s: &ChunkStream) -> Vec<(u32, String, Option<String>)> {
    s.sources.iter().map(|e| (e.index, e.source.clone(), e.content.clone())).collect()
}

fn map(mappings: &str, sources: &[&str], contents: &[&str], names: &[&str]) -> SourceMap {
    SourceMap::new(
        None,
        mappings.to_string(),
        sources.iter().map(|s| s.to_string()).collect(),
        contents.iter().map(|s| s.to_string()).collect(),
        names.iter().map(|s| s.to_string()).collect(),
    )
}

#[test]
fn raw_source_streams_its_lines() {
    let s = stream_chunks_of_raw_source("a\nb");
    assert_eq!(
        chunks(&s),
        vec![(Some("a\n".to_string()), 1, 0, None), (Some("b".to_string()), 2, 0, None)]
    );
    assert!(s.sources.is_empty() && s.names.is_empty());
    assert_eq!((s.info.generated_line, s.info.generated_column), (2, 1));
    let texts: Vec<String> = s.chunks.iter().map(|c| c.text.clone().unwrap()).collect();
    assert_eq!(texts.concat(), "a\nb");
}

#[test]
fn decode_mappings_reads_segments() {
    let m = map("AAAA,EAAE;AACA", &["a.js"], &[], &[]);
    let mut it = decode_mappings(&m);
    let mut got: Vec<Mapping> = Vec::new();
    while let Some(x) = it.next() {
        got.push(x);
    }
    assert_eq!(
        got,
        vec![
            Mapping { generated_line: 1, generated_column: 0, original: orig(0, 1, 0) },
            Mapping { generated_line: 1, generated_column: 2, original: orig(0, 1, 2) },
            Mapping { generated_line: 2, generated_column: 0, original: orig(0, 2, 2) },
        ]
    );
}

#[test]
fn source_map_streams_mapped_chunks() {
    let m = map("AAAA;AACA", &["a.js"], &["x\ny\n"], &[]);
    let s = stream_chunks_of_source_map("x\ny\n", &m, &MapOptions::new(true));
    assert_eq!(
        chunks(&s),
        vec![
            (Some("x\n".to_string()), 1, 0, orig(0, 1, 0)),
            (Some("y\n".to_string()), 2, 0, orig(0, 2, 0)),
        ]
    );
    assert_eq!(sources(&s), vec![(0, "a.js".to_string(), Some("x\ny\n".to_string()))]);
    assert_eq!((s.info.generated_line, s.info.generated_column), (3, 0));
}

#[test]
fn source_map_streams_columns_within_a_line() {
    let m = map("AAAA,EAAE", &["a.js"], &[], &[]);
    let s = stream_chunks_of_source_map("abcd", &m, &MapOptions::new(true));
    assert_eq!(
        chunks(&s),
        vec![
            (Some("ab".to_string()), 1, 0, orig(0, 1, 0)),
            (Some("cd".to_string()), 1, 2, orig(0, 1, 2)),
        ]
    );
}

#[test]
fn stream_default_without_a_map_is_raw() {
    let a = stream_chunks_default("p\nq", None, &MapOptions::new(true));
    let b = stream_chunks_of_raw_source("p\nq");
    assert_eq!(chunks(&a), chunks(&b));
}

#[test]
fn concatenation_moves_later_parts_down() {
    let first = stream_chunks_of_raw_source("a\n");
    let m = map("AAAA", &["b.js"], &[], &[]);
    let second = stream_chunks_of_source_map("b\n", &m, &MapOptions::new(true));
    let s = concat_streams(vec![first, second], &MapOptions::new(true));
    assert_eq!(
        chunks(&s),
        vec![(Some("a\n".to_string()), 1, 0, None), (Some("b\n".to_string()), 2, 0, orig(0, 1, 0))]
    );
    assert_eq!(sources(&s), vec![(0, "b.js".to_string(), None)]);
}

#[test]
fn concat_source_text_and_map() {
    let mut c = ConcatSource::new(vec![ChunkSource::Raw("a\n".to_string())]);
    c.add(ChunkSource::Mapped("b\n".to_string(), map("AAAA", &["b.js"], &["B\n"], &[])));
    assert_eq!(c.source(), "a\nb\n");
    assert_eq!(c.size(), 4);
    assert_eq!(c.buffer(), b"a\nb\n".to_vec());
    let m = get_map(&c, &MapOptions::new(true)).unwrap();
    assert_eq!(m.mappings(), ";AAAA");
    assert_eq!(m.sources(), &vec!["b.js".to_string()]);
    assert_eq!(m.sources_content(), &vec!["B\n".to_string()]);
}

#[test]
fn combined_map_points_through_the_inner_map() {
    let outer = map("AAAA", &["inner.js"], &[], &[]);
    let inner = map("AAAA", &["orig.js"], &[], &[]);
    let s = stream_chunks_of_combined_source_map(
        "ab\n",
        &outer,
        "inner.js",
        Some("AB\n"),
        &inner,
        false,
        &MapOptions::new(true),
    );
    assert_eq!(chunks(&s), vec![(Some("ab\n".to_string()), 1, 0, orig(0, 1, 0))]);
    assert_eq!(sources(&s), vec![(0, "orig.js".to_string(), None)]);
}

#[test]
fn combined_map_keeps_other_sources() {
    let outer = map("AAAA;ACAA", &["inner.js", "other.js"], &[], &[]);
    let inner = map("AAAA", &["orig.js"], &[], &[]);
    let s = stream_chunks_of_combined_source_map(
        "a\nb\n",
        &outer,
        "inner.js",
        Some("A\n"),
        &inner,
        false,
        &MapOptions::new(true),
    );
    assert_eq!(
        chunks(&s),
        vec![(Some("a\n".to_string()), 1, 0, orig(1, 1, 0)), (Some("b\n".to_string()), 2, 0, orig(0, 1, 0))]
    );
    assert_eq!(
        sources(&s),
        vec![(0, "other.js".to_string(), None), (1, "orig.js".to_string(), None)]
    );
}

#[test]
fn combined_map_drops_unmapped_inner_chunks_when_asked() {
    let outer = map("AAAA", &["inner.js"], &[], &[]);
    let inner = map("A", &[], &[], &[]);
    let kept = stream_chunks_of_combined_source_map(
        "ab\n",
        &outer,
        "inner.js",
        Some("AB\n"),
        &inner,
        false,
        &MapOptions::new(true),
    );
    let removed = stream_chunks_of_combined_source_map(
        "ab\n",
        &outer,
        "inner.js",
        Some("AB\n"),
        &inner,
        true,
        &MapOptions::new(true),
    );
    assert_eq!(chunks(&removed), vec![(Some("ab\n".to_string()), 1, 0, None)]);
    assert_eq!(chunks(&kept).len(), 1);
    assert_eq!(kept.chunks[0].text.as_deref(), Some("ab\n"));
}

fn joined(s: &ChunkStream) -> String {
    s.chunks.iter().filter_map(|c| c.text.clone()).collect::<Vec<String>>().concat()
}

#[test]
fn streaming_gives_back_the_text() {
    let m = map("AAAA,EAAE;ACAA,CAAC", &["a.js"], &[], &[]);
    let text = "abcd\nxy\nz";
    let full = stream_chunks_of_source_map(text, &m, &MapOptions::new(true));
    assert_eq!(joined(&full), text);
    let lines = stream_chunks_of_source_map(text, &m, &MapOptions::new(false));
    assert_eq!(joined(&lines), text);
    let mut c = ConcatSource::new(vec![ChunkSource::Raw("p\nq".to_string())]);
    c.add(ChunkSource::Mapped(text.to_string(), m));
    let streamed = c.stream_chunks(&MapOptions::new(true));
    assert_eq!(joined(&streamed), c.source());
    assert_eq!(joined(&streamed), "p\nqabcd\nxy\nz");
}

#[test]
fn combined_stream_gives_back_the_text() {
    let outer = map("AAAA,CAAC;ACAA", &["inner.js", "other.js"], &[], &[]);
    let inner = map("AAAA,CAAC", &["orig.js"], &[], &[]);
    let s = stream_chunks_of_combined_source_map(
        "ab\ncd\n",
        &outer,
        "inner.js",
        Some("AB\n"),
        &inner,
        false,
        &MapOptions::new(true),
    );
    assert_eq!(joined(&s), "ab\ncd\n");
}

#[test]
fn concat_sources_compare_by_their_parts() {
    let a = ConcatSource::new(vec![ChunkSource::Raw("x\n".to_string())]);
    let b = ConcatSource::new(vec![ChunkSource::Raw("x\n".to_string())]);
    let c = ConcatSource::new(vec![ChunkSource::Raw("y\n".to_string())]);
    assert_eq!(a, b);
    assert_ne!(a, c);
    assert_eq!(ConcatSource::default(), ConcatSource::new(vec![]));
}

#[test]
fn concat_ends_where_its_text_ends() {
    let mut c = ConcatSource::new(vec![ChunkSource::Raw("ab\ncd".to_string())]);
    c.add(ChunkSource::Raw("ef\ng".to_string()));
    let s = c.stream_chunks(&MapOptions::new(true));
    assert_eq!((s.info.generated_line, s.info.generated_column), (3, 1));
    let single = ConcatSource::new(vec![ChunkSource::Raw("x\ny".to_string())]);
    let a = single.stream_chunks(&MapOptions::new(true));
    let b = stream_chunks_of_raw_source("x\ny");
    assert_eq!(chunks(&a), chunks(&b));
    let empty = ConcatSource::new(vec![]);
    let e = empty.stream_chunks(&MapOptions::new(true));
    assert_eq!((e.info.generated_line, e.info.generated_column), (1, 0));
}

#[test]
fn empty_text_streams_with_any_map() {
    let m = map("not a mapping", &["a.js"], &[], &[]);
    let s = stream_chunks_of_source_map("", &m, &MapOptions::new(true));
    assert!(s.chunks.is_empty() && s.sources.is_empty());
    assert_eq!((s.info.generated_line, s.info.generated_column), (1, 0));
}

#[test]
fn combined_without_the_inner_source_is_the_plain_stream() {
    let outer = map("AAAA,CAAC;ACAA", &["a.js", "b.js"], &[], &[]);
    let inner = map("AAAA", &["orig.js"], &[], &[]);
    let combined = stream_chunks_of_combined_source_map(
        "ab\ncd\n",
        &outer,
        "inner.js",
        Some("X\n"),
        &inner,
        false,
        &MapOptions::new(true),
    );
    let plain = stream_chunks_of_source_map("ab\ncd\n", &outer, &MapOptions::new(true));
    assert_eq!(chunks(&combined), chunks(&plain));
    assert_eq!(sources(&combined), sources(&plain));
}

#[test]
fn mappings_that_decode_are_told_apart() {
    assert!(map("AAAA,CAAC;ACAA", &["a.js"], &[], &[]).mappings_decode());
    assert!(map("", &[], &[], &[]).mappings_decode());
    assert!(!map("AA", &[], &[], &[]).mappings_decode());
    assert!(!map("AAAA,g", &[], &[], &[]).mappings_decode());
}
