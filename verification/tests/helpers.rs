use rspack_sources::helpers::{
    encode_mappings, get_generated_source_info, split_into_lines, split_into_potential_tokens,
};
use rspack_sources::mapping::{MapOptions, Mapping, OriginalLocation};

fn at(line: u32, column: u32, original: Option<(u32, u32, u32, Option<u32>)>) -> Mapping {
    Mapping {
        generated_line: line,
        generated_column: column,
        original: original.map(|(s, l, c, n)| OriginalLocation {
            source_index: s,
            original_line: l,
            original_column: c,
            name_index: n,
        }),
    }
}

fn tokens(s: &str) -> Vec<String> {
    let mut it = split_into_potential_tokens(s);
    let mut out = Vec::new();
    while let Some(t) = it.next() {
        out.push(t.to_string());
    }
    out
}

#[test]
fn split_into_lines_keeps_newlines() {
    assert_eq!(split_into_lines("a\nb\n\nc"), vec!["a\n", "b\n", "\n", "c"]);
    assert_eq!(split_into_lines("abc\n"), vec!["abc\n"]);
    assert!(split_into_lines("").is_empty());
}

#[test]
fn split_into_lines_joins_back_to_the_text() {
    let text = "x = 1;\n\n  y();\nlast";
    assert_eq!(split_into_lines(text).concat(), text);
}

#[test]
fn potential_tokens_split_at_statements() {
    assert_eq!(tokens("if (a) { b; }\nc;"), vec!["if (a) { ", "b; }\n", "c;"]);
    assert_eq!(tokens("\n\n"), vec!["\n", "\n"]);
    assert!(tokens("").is_empty());
}

#[test]
fn potential_tokens_join_back_to_the_text() {
    let text = "function f() { return 1; }\nf();\n;; {x}";
    assert_eq!(tokens(text).concat(), text);
}

#[test]
fn generated_source_info_gives_where_the_text_ends() {
    let info = get_generated_source_info("a\nbc");
    assert_eq!((info.generated_line, info.generated_column), (2, 2));
    let info = get_generated_source_info("");
    assert_eq!((info.generated_line, info.generated_column), (1, 0));
    let info = get_generated_source_info("a\n");
    assert_eq!((info.generated_line, info.generated_column), (2, 0));
}

#[test]
fn encode_mappings_with_columns() {
    let ms = vec![
        at(1, 0, Some((0, 1, 0, None))),
        at(1, 5, Some((0, 1, 5, None))),
        at(2, 0, Some((0, 2, 0, None))),
    ];
    assert_eq!(encode_mappings(&ms, &MapOptions::new(true)), "AAAA,KAAK;AACL");
}

#[test]
fn encode_mappings_lines_only() {
    let ms = vec![
        at(1, 0, Some((0, 1, 0, None))),
        at(1, 5, Some((0, 1, 5, None))),
        at(2, 0, Some((0, 2, 0, None))),
    ];
    assert_eq!(encode_mappings(&ms, &MapOptions::new(false)), "AAAA;AACA");
}

#[test]
fn encode_mappings_with_names_and_unmapped_segments() {
    let ms = vec![at(1, 0, Some((0, 1, 0, Some(0)))), at(1, 3, None)];
    assert_eq!(encode_mappings(&ms, &MapOptions::new(true)), "AAAAA,G");
}

#[test]
fn encode_mappings_of_nothing_is_empty() {
    assert_eq!(encode_mappings(&[], &MapOptions::new(true)), "");
    assert_eq!(encode_mappings(&[], &MapOptions::new(false)), "");
}

#[test]
fn encoded_mappings_are_ascii() {
    let ms = vec![
        at(1, 0, Some((0, 1, 0, Some(2)))),
        at(3, 70, Some((1, 9, 33, None))),
        at(3, 90, None),
    ];
    assert!(encode_mappings(&ms, &MapOptions::new(true)).is_ascii());
    assert!(encode_mappings(&ms, &MapOptions::new(false)).is_ascii());
}

fn decode(mappings: String) -> Vec<Mapping> {
    let m = rspack_sources::source_map::SourceMap::new(None, mappings, vec![], vec![], vec![]);
    m.decoded_mappings()
}

#[test]
fn encoded_mappings_decode_back() {
    let ms = vec![
        at(1, 0, Some((0, 1, 0, None))),
        at(1, 4, Some((0, 1, 4, Some(0)))),
        at(1, 6, None),
        at(3, 2, Some((1, 5, 2, None))),
    ];
    let text = encode_mappings(&ms, &MapOptions::new(true));
    assert_eq!(decode(text), ms);
}

#[test]
fn encoded_lines_decode_to_their_lines() {
    let ms = vec![
        at(1, 0, Some((0, 1, 0, None))),
        at(1, 4, Some((0, 2, 4, Some(0)))),
        at(2, 3, None),
        at(4, 2, Some((1, 5, 2, Some(1)))),
    ];
    let text = encode_mappings(&ms, &MapOptions::new(false));
    assert_eq!(
        decode(text),
        vec![at(1, 0, Some((0, 1, 0, None))), at(4, 0, Some((1, 5, 0, None)))]
    );
}

#[test]
fn end_of_two_texts_follows_from_each() {
    let a = get_generated_source_info("ab\ncd");
    let b = get_generated_source_info("ef");
    let ab = get_generated_source_info("ab\ncdef");
    assert_eq!((ab.generated_line, ab.generated_column), (a.generated_line, a.generated_column + b.generated_column));
    let c = get_generated_source_info("x\nyz");
    let ac = get_generated_source_info("ab\ncdx\nyz");
    assert_eq!((ac.generated_line, ac.generated_column), (a.generated_line + c.generated_line - 1, c.generated_column));
}
