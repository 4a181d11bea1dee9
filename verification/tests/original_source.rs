use rspack_sources::builder_sources::{MapOptions, OriginalSource, Source};

fn options(columns: bool) -> MapOptions {
    let mut o = MapOptions::default();
    o.columns = columns;
    o
}

#[test]
fn should_handle_multiline_string() {
    let source = OriginalSource::new("Line1\n\nLine3\n", "file.js");
    let result_text = source.source();
    let result_map = source.map(&options(true)).unwrap();
    let result_list_map = source.map(&options(false)).unwrap();

    assert_eq!(result_text, "Line1\n\nLine3\n");
    assert_eq!(result_map.sources(), vec!["file.js".to_string()]);
    assert_eq!(result_list_map.sources(), result_map.sources());
    assert_eq!(
        result_map.source_contents(),
        vec![Some("Line1\n\nLine3\n".to_string())],
    );
    assert_eq!(result_list_map.source_contents(), result_map.source_contents());
    assert_eq!(
        result_map.to_json().unwrap(),
        "{\"version\":3,\"sources\":[\"file.js\"],\"sourcesContent\":[\"Line1\\n\\nLine3\\n\"],\"names\":[],\"mappings\":\"AAAA;AACA;AACA\"}"
    );
    assert_eq!(
        result_list_map.to_json().unwrap(),
        "{\"version\":3,\"sources\":[\"file.js\"],\"sourcesContent\":[\"Line1\\n\\nLine3\\n\"],\"names\":[],\"mappings\":\"AAAA;AACA;AACA;AACA\"}"
    );
}

#[test]
fn should_handle_empty_string() {
    let source = OriginalSource::new("", "file.js");
    let result_text = source.source();
    let result_map = source.map(&options(true)).unwrap();
    let result_list_map = source.map(&options(false)).unwrap();

    assert_eq!(result_text, "");
    assert_eq!(
        result_map.to_json().unwrap(),
        "{\"version\":3,\"sources\":[\"file.js\"],\"sourcesContent\":[\"\"],\"names\":[],\"mappings\":\"\"}"
    );
    assert_eq!(
        result_list_map.to_json().unwrap(),
        "{\"version\":3,\"sources\":[\"file.js\"],\"sourcesContent\":[\"\"],\"names\":[],\"mappings\":\"AAAA\"}"
    );
}

#[test]
fn should_return_the_correct_size_for_unicode_files() {
    let source = OriginalSource::new("😋", "file.js");
    assert_eq!(source.size(), 4);
}

#[test]
fn should_split_code_into_statements() {
    let input = "if (hello()) { world(); hi(); there(); } done();\nif (hello()) { world(); hi(); there(); } done();";
    let source = OriginalSource::new(input, "file.js");
    assert_eq!(source.source(), input);
    assert_eq!(
        source.map(&MapOptions::default()).unwrap().to_json().unwrap(),
        "{\"version\":3,\"sources\":[\"file.js\"],\"sourcesContent\":[\"if (hello()) { world(); hi(); there(); } done();\\nif (hello()) { world(); hi(); there(); } done();\"],\"names\":[],\"mappings\":\"AAAA,aAAa,UAAU,MAAM,SAAS,EAAE,QAAQ;AAChD,aAAa,UAAU,MAAM,SAAS,EAAE,QAAQ\"}"
    );
}

#[test]
fn original_source() {
    let input = r#"import { createElement } from "react";
import { render } from "react-dom";
const div = createElement("div", null, {});
render(div, document.getElementById("app"));
"#;
    let original_source = OriginalSource::new(input, "app.js");
    let source_map = original_source
        .map(&options(true))
        .expect("should generate");
    assert_eq!(
        source_map.to_json().unwrap(),
        "{\"version\":3,\"sources\":[\"app.js\"],\"sourcesContent\":[\"import { createElement } from \\\"react\\\";\\nimport { render } from \\\"react-dom\\\";\\nconst div = createElement(\\\"div\\\", null, {});\\nrender(div, document.getElementById(\\\"app\\\"));\\n\"],\"names\":[],\"mappings\":\"AAAA,OAAO,iBAAiB,cAAc;AACtC,OAAO,UAAU,kBAAkB;AACnC,uCAAuC,EAAE,EAAE;AAC3C,4CAA4C\"}"
    );
    assert_eq!(original_source.source(), input);
}
