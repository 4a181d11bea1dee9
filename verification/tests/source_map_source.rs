use rspack_sources::builder_sources::{
    BoxSource, CachedSource, ConcatSource, MapOptions, OriginalSource, RawSource, Source,
    SourceMap, SourceMapSource, SourceMapSourceOptions,
};

fn parsed(json: &str) -> SourceMap {
    SourceMap::from_slice(json.as_bytes()).unwrap()
}

#[test]
fn raw_source_has_no_map() {
    let s = RawSource::from("abc".to_string());
    assert!(!s.is_buffer());
    assert!(s.map(&MapOptions::default()).is_none());
    assert_eq!(s.size(), 3);
    let b = RawSource::from(vec![104, 105]);
    assert!(b.is_buffer());
    assert_eq!(b.source(), "hi");
    assert_eq!(b.buffer(), b"hi");
}

#[test]
fn original_source_keeps_its_name() {
    let s = OriginalSource::new("a;", "x.js");
    assert_eq!(s.get_name(), "x.js");
    assert_eq!(s.buffer(), b"a;");
}

#[test]
fn original_source_without_contents() {
    let s = OriginalSource::new("a\nb", "x.js");
    let mut o = MapOptions::default();
    o.include_source_contents = false;
    let m = s.map(&o).unwrap();
    assert_eq!(m.source_contents(), vec![None]);
    assert_eq!(m.to_json().unwrap(), "{\"version\":3,\"sources\":[\"x.js\"],\"names\":[],\"mappings\":\"AAAA;AACA\"}");
}

#[test]
fn source_map_read_from_json() {
    let m = parsed(r#"{"version":3,"file":"out.js","sources":["a.js"],"names":["n"],"mappings":"AAAAA,EAAE"}"#);
    assert_eq!(m.get_file(), Some("out.js".to_string()));
    assert_eq!(m.sources(), vec!["a.js".to_string()]);
    assert_eq!(m.names(), vec!["n".to_string()]);
    let ts = m.tokens();
    assert_eq!(ts.len(), 2);
    assert_eq!((ts[0].dst_line, ts[0].dst_col, ts[0].src_id, ts[0].name_id), (0, 0, 0, 0));
    assert_eq!((ts[1].dst_line, ts[1].dst_col, ts[1].src_col, ts[1].name_id), (0, 2, 2, u32::MAX));
    let t = m.lookup_token(0, 3).unwrap();
    assert_eq!(t.dst_col, 2);
    assert!(m.lookup_token(0, 1).map(|t| t.dst_col) == Some(0));
}

#[test]
fn source_map_from_bad_json_is_an_error() {
    assert!(SourceMap::from_slice(b"not json").is_err());
}

#[test]
fn source_map_source_without_inner_map_gives_its_map() {
    let map = parsed(r#"{"version":3,"sources":["a.js"],"names":[],"mappings":"AAAA"}"#);
    let s = SourceMapSource::new(SourceMapSourceOptions {
        source: "x\n",
        name: "out.js",
        source_map: map,
        original_source: None,
        inner_source_map: None,
        remove_original_source: false,
    });
    assert_eq!(s.source(), "x\n");
    assert_eq!(s.size(), 2);
    let m = s.map(&MapOptions::default()).unwrap();
    assert_eq!(m.sources(), vec!["a.js".to_string()]);
    assert_eq!(m.tokens().len(), 1);
}

#[test]
fn source_map_source_reads_through_its_inner_map() {
    let map = parsed(r#"{"version":3,"sources":["mid.js"],"names":[],"mappings":"AAAA,EAAE"}"#);
    let inner = parsed(
        r#"{"version":3,"file":"mid.js","sources":["orig.js"],"sourcesContent":["ORIG"],"names":["f"],"mappings":"AAIAA"}"#,
    );
    let s = SourceMapSource::new(SourceMapSourceOptions {
        source: "abcd",
        name: "out.js",
        source_map: map,
        original_source: None,
        inner_source_map: Some(inner),
        remove_original_source: false,
    });
    let m = s.map(&MapOptions::default()).unwrap();
    assert_eq!(m.get_file(), Some("out.js".to_string()));
    assert_eq!(m.sources(), vec!["orig.js".to_string()]);
    assert_eq!(m.names(), vec!["f".to_string()]);
    assert_eq!(m.source_contents(), vec![Some("ORIG".to_string())]);
    let ts = m.tokens();
    assert_eq!(ts.len(), 2);
    assert_eq!((ts[0].dst_col, ts[0].src_line, ts[0].src_col, ts[0].name_id), (0, 4, 0, 0));
    assert_eq!((ts[1].dst_col, ts[1].src_line, ts[1].src_col, ts[1].name_id), (2, 4, 0, 0));
}

#[test]
fn source_map_source_can_leave_out_inner_contents() {
    let map = parsed(r#"{"version":3,"sources":["mid.js"],"names":[],"mappings":"AAAA"}"#);
    let inner = parsed(
        r#"{"version":3,"file":"mid.js","sources":["orig.js"],"sourcesContent":["ORIG"],"names":[],"mappings":"AAAA"}"#,
    );
    let s = SourceMapSource::new(SourceMapSourceOptions {
        source: "a",
        name: "out.js",
        source_map: map,
        original_source: None,
        inner_source_map: Some(inner),
        remove_original_source: true,
    });
    let m = s.map(&MapOptions::default()).unwrap();
    assert_eq!(m.sources(), vec!["orig.js".to_string()]);
    assert_eq!(m.source_contents(), vec![None]);
}

#[test]
fn cached_source_gives_the_same_map_again() {
    let c = CachedSource::new(OriginalSource::new("a;\nb", "x.js"));
    let first = c.map(&MapOptions::default()).unwrap().to_json();
    let second = c.map(&MapOptions::default()).unwrap().to_json();
    assert_eq!(first, second);
    assert_eq!(c.size(), 4);
    assert_eq!(c.source(), "a;\nb");
    let inner = c.into_inner();
    assert_eq!(inner.get_name(), "x.js");
}

#[test]
fn concat_source_buffer_is_its_parts() {
    let c = ConcatSource::new(vec![
        BoxSource::from(RawSource::from("ab".to_string())),
        BoxSource::from(OriginalSource::new("cd", "y.js")),
    ]);
    assert_eq!(c.buffer(), b"abcd");
    assert_eq!(c.size(), 4);
}

#[test]
fn raw_bytes_that_are_not_utf8_are_replaced() {
    let b = RawSource::from(vec![0x61, 0xff, 0x62]);
    assert_eq!(b.source(), "a\u{FFFD}b");
    assert_eq!(b.size(), 3);
}

#[test]
fn map_options_compare_by_value() {
    let a = MapOptions::default();
    let b = a.clone();
    assert_eq!(a, b);
    assert_ne!(a, MapOptions { columns: false, ..MapOptions::default() });
}
