use rspack_sources::builder_sources::{
    BoxSource, ConcatSource, MapOptions, OriginalSource, RawSource, Source, SourceMap,
};

fn raw(s: &str) -> BoxSource {
    BoxSource::from(RawSource::from(s.to_string()))
}

fn original(source: &str, name: &str) -> BoxSource {
    BoxSource::from(OriginalSource::new(source, name))
}

fn lines_only() -> MapOptions {
    let mut o = MapOptions::default();
    o.columns = false;
    o
}

fn json_of(text: &str) -> String {
    SourceMap::from_slice(text.as_bytes()).unwrap().to_json().unwrap()
}

#[test]
fn concat_source_should_concat_two_sources() {
    let mut source = ConcatSource::new(vec![
        raw("Hello World\n"),
        original("console.log('test');\nconsole.log('test2');\n", "console.js"),
    ]);
    source.add(original("Hello2\n", "hello.md"));

    let expected_source = "Hello World\nconsole.log('test');\nconsole.log('test2');\nHello2\n";
    assert_eq!(source.size(), 62);
    assert_eq!(source.source(), expected_source);

    let expected_map1 = json_of(
        r#"{
        "version": 3,
        "mappings": ";AAAA;AACA;AACA,ACFA;AACA",
        "names": [],
        "sources": ["console.js", "hello.md"],
        "sourcesContent": [
          "console.log('test');\nconsole.log('test2');\n",
          "Hello2\n"
        ]
      }"#,
    );
    assert_eq!(source.map(&lines_only()).unwrap().to_json().unwrap(), expected_map1);

    let expected_map2 = json_of(
        r#"{
        "version": 3,
        "mappings": ";AAAA,oBAAoB;AACpB,qBAAqB;ACDrB",
        "names": [],
        "sources": ["console.js", "hello.md"],
        "sourcesContent": [
          "console.log('test');\nconsole.log('test2');\n",
          "Hello2\n"
        ]
      }"#,
    );
    assert_eq!(
        source.map(&MapOptions::default()).unwrap().to_json().unwrap(),
        expected_map2
    );
}

#[test]
fn concat_source_should_be_able_to_handle_strings_for_all_methods() {
    let mut source = ConcatSource::new(vec![
        raw("Hello World\n"),
        original("console.log('test');\nconsole.log('test2');\n", "console.js"),
    ]);
    let inner_source = ConcatSource::new(vec![raw("("), raw("'string'"), raw(")")]);
    source.add(raw("console"));
    source.add(raw("."));
    source.add(raw("log"));
    source.add(BoxSource::from(inner_source));
    let expected_source =
        "Hello World\nconsole.log('test');\nconsole.log('test2');\nconsole.log('string')";
    let expected_map1 = json_of(
        r#"{
        "version": 3,
        "mappings": ";AAAA;AACA;AACA",
        "names": [],
        "sources": ["console.js"],
        "sourcesContent": ["console.log('test');\nconsole.log('test2');\n"]
      }"#,
    );
    assert_eq!(source.size(), 76);
    assert_eq!(source.source(), expected_source);
    assert_eq!(source.buffer(), expected_source.as_bytes());
    assert_eq!(source.map(&lines_only()).unwrap().to_json().unwrap(), expected_map1);
}

#[test]
fn concat_source_should_return_null_as_map_when_only_generated_code_is_concatenated() {
    let source = ConcatSource::new(vec![
        raw("Hello World\n"),
        BoxSource::from(RawSource::from("Hello World\n".to_string())),
        raw(""),
    ]);

    let result_text = source.source();
    let result_map = source.map(&MapOptions::default()).unwrap();
    let result_list_map = source.map(&lines_only()).unwrap();

    assert_eq!(result_text, "Hello World\nHello World\n");
    assert_eq!(
        result_map.to_json().unwrap(),
        "{\"version\":3,\"sources\":[],\"names\":[],\"mappings\":\"\"}"
    );
    assert_eq!(
        result_list_map.to_json().unwrap(),
        "{\"version\":3,\"sources\":[],\"names\":[],\"mappings\":\"\"}"
    );
}

#[test]
fn concat_source_should_allow_to_concat_buffer_sources() {
    let source = ConcatSource::new(vec![
        raw("a"),
        BoxSource::from(RawSource::from(Vec::from("b"))),
        raw("c"),
    ]);
    assert_eq!(source.source(), "abc");
    assert_eq!(
        source.map(&MapOptions::default()).unwrap().to_json().unwrap(),
        "{\"version\":3,\"sources\":[],\"names\":[],\"mappings\":\"\"}",
    );
}
