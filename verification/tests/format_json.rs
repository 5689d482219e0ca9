use rapid_view::format::json::{parse, path_expression, prettify, value_bytes_for_entry};
use rapid_view::format::{Offset, PathSegment, StyleKind};

fn offset_of(src: &[u8], byte: u8) -> Offset {
    src.iter().position(|&b| b == byte).unwrap() as Offset
}

#[test]
fn json_empty_object() {
    let out = parse(b"{}", None);
    assert!(out.error.is_none());
    assert_eq!(out.paths.entries.len(), 1);
}

#[test]
fn json_empty_array() {
    let out = parse(b"[]", None);
    assert!(out.error.is_none());
    assert_eq!(out.paths.entries.len(), 1);
}

#[test]
fn json_scalar_document() {
    let out = parse(b"42", None);
    assert!(out.error.is_none());
    assert_eq!(out.paths.entries.len(), 1);
}

#[test]
fn json_nested_path_lookup() {
    let src = br#"{"a":{"b":[1,2,3]}}"#;
    let out = parse(src, None);
    assert!(out.error.is_none(), "error: {:?}", out.error);

    let pos = offset_of(src, b'2');
    let entry = out.paths.lookup(pos).unwrap();
    let path = out.paths.path_of(entry);
    assert_eq!(path.len(), 3);
    assert!(matches!(path[2], PathSegment::Index(1)));

    let jq = path_expression(&path, &out.names);
    assert_eq!(jq, ".a.b[1]");
}

#[test]
fn json_weird_key_needs_brackets() {
    let src = br#"{"has space":1}"#;
    let out = parse(src, None);
    assert!(out.error.is_none());
    let pos = offset_of(src, b'1');
    let entry = out.paths.lookup(pos).unwrap();
    let path = out.paths.path_of(entry);
    assert_eq!(path_expression(&path, &out.names), r#".["has space"]"#);
}

#[test]
fn json_leading_index_prepends_dot() {
    let src = b"[10,20,30]";
    let out = parse(src, None);
    let pos = offset_of(src, b'2');
    let entry = out.paths.lookup(pos).unwrap();
    let path = out.paths.path_of(entry);
    assert_eq!(path_expression(&path, &out.names), ".[1]");
}

#[test]
fn json_root_lookup_empty_path() {
    let src = b"   {   }   ";
    let out = parse(src, None);
    let entry = out.paths.lookup(0).unwrap();
    let path = out.paths.path_of(entry);
    assert!(path.is_empty());
    assert_eq!(path_expression(&path, &out.names), ".");
}

#[test]
fn json_line_index_simple() {
    let src = b"{\n  \"a\": 1\n}";
    let out = parse(src, None);
    assert_eq!(out.line_starts, vec![0, 2, 11]);
}

#[test]
fn json_unicode_escape_in_key() {
    // {"é":1}  → key "é"
    let src = br#"{"\u00e9":1}"#;
    let out = parse(src, None);
    assert!(out.error.is_none(), "error: {:?}", out.error);
    let pos = offset_of(src, b'1');
    let entry = out.paths.lookup(pos).unwrap();
    let path = out.paths.path_of(entry);
    assert_eq!(path_expression(&path, &out.names), r#".["é"]"#);
}

#[test]
fn json_surrogate_pair_in_key() {
    // U+1F600 GRINNING FACE = 😀
    let src = br#"{"\uD83D\uDE00":1}"#;
    let out = parse(src, None);
    assert!(out.error.is_none(), "error: {:?}", out.error);
    let pos = offset_of(src, b'1');
    let entry = out.paths.lookup(pos).unwrap();
    let path = out.paths.path_of(entry);
    assert_eq!(path_expression(&path, &out.names), r#".["😀"]"#);
}

#[test]
fn json_styles_cover_tokens() {
    let src = br#"{"a":1,"b":"x","c":true,"d":null}"#;
    let out = parse(src, None);
    assert!(out.error.is_none());
    let counts = |k: StyleKind| out.styles.iter().filter(|s| s.kind == k).count();
    assert_eq!(counts(StyleKind::Key), 4);
    assert_eq!(counts(StyleKind::Number), 1);
    assert_eq!(counts(StyleKind::String), 1);
    assert_eq!(counts(StyleKind::Bool), 1);
    assert_eq!(counts(StyleKind::Null), 1);
}

#[test]
fn json_lookup_inside_key_returns_field_path() {
    let src = br#"{"a":1}"#;
    let out = parse(src, None);
    let pos = offset_of(src, b'a');
    let entry = out.paths.lookup(pos).unwrap();
    let path = out.paths.path_of(entry);
    assert_eq!(path_expression(&path, &out.names), ".a");
}

fn value_bytes_at(src: &[u8], offset: Offset) -> &[u8] {
    let out = parse(src, None);
    let entry_idx = out.paths.lookup(offset).expect("offset has a path entry");
    let entry = out.paths.entries[entry_idx as usize];
    value_bytes_for_entry(src, &entry)
}

#[test]
fn json_value_bytes_for_root_is_whole_doc_trimmed() {
    let src = b"  { \"a\": 1 }  ";
    assert_eq!(value_bytes_at(src, 0), b"{ \"a\": 1 }");
}

#[test]
fn json_value_bytes_for_object_field_skips_key() {
    let src = br#"{"a":{"b":[1,2,3]}}"#;
    let pos = offset_of(src, b'b');
    assert_eq!(value_bytes_at(src, pos), b"[1,2,3]");
}

#[test]
fn json_value_bytes_for_array_element() {
    let src = b"[10,20,30]";
    let pos = offset_of(src, b'2');
    assert_eq!(value_bytes_at(src, pos), b"20");
}

#[test]
fn json_value_bytes_for_nested_object_value() {
    let src = br#"{"a": {"b": 1}, "c": 2}"#;
    let pos = offset_of(src, b'a');
    assert_eq!(value_bytes_at(src, pos), b"{\"b\": 1}");
}

#[test]
fn json_value_bytes_for_pretty_field_keeps_value() {
    let src = b"{\n  \"a\": 42\n}";
    let pos = offset_of(src, b'a');
    assert_eq!(value_bytes_at(src, pos), b"42");
}

#[test]
fn json_lenient_on_trailing_garbage() {
    let out = parse(b"{}  garbage", None);
    assert!(out.error.is_none());
}

// --- prettifier ---

fn run_pretty(src: &[u8]) -> String {
    String::from_utf8(prettify(src)).unwrap()
}

#[test]
fn pretty_empty_containers_stay_inline() {
    assert_eq!(run_pretty(b"{}"), "{}");
    assert_eq!(run_pretty(b"[]"), "[]");
    assert_eq!(run_pretty(b"{  }"), "{}");
    assert_eq!(run_pretty(b"[ \n ]"), "[]");
}

#[test]
fn pretty_object_with_one_field() {
    assert_eq!(run_pretty(br#"{"a":1}"#), "{\n  \"a\": 1\n}");
}

#[test]
fn pretty_nested_object() {
    let got = run_pretty(br#"{"a":{"b":1}}"#);
    assert_eq!(got, "{\n  \"a\": {\n    \"b\": 1\n  }\n}");
}

#[test]
fn pretty_array_with_items() {
    let got = run_pretty(b"[1,2,3]");
    assert_eq!(got, "[\n  1,\n  2,\n  3\n]");
}

#[test]
fn pretty_mixed_nesting() {
    let got = run_pretty(br#"{"a":1,"b":[1,2,{"c":3}]}"#);
    let expected =
        "{\n  \"a\": 1,\n  \"b\": [\n    1,\n    2,\n    {\n      \"c\": 3\n    }\n  ]\n}";
    assert_eq!(got, expected);
}

#[test]
fn pretty_strings_are_copied_verbatim_including_escapes() {
    let got = run_pretty(br#"{"k":"hello\"world\\x"}"#);
    assert_eq!(got, "{\n  \"k\": \"hello\\\"world\\\\x\"\n}");
}

#[test]
fn pretty_input_whitespace_is_collapsed() {
    let got = run_pretty(b"{\n  \"a\"  :   1  }");
    assert_eq!(got, "{\n  \"a\": 1\n}");
}

#[test]
fn pretty_already_pretty_stays_pretty() {
    let input = "{\n  \"a\": 1,\n  \"b\": 2\n}";
    let got = run_pretty(input.as_bytes());
    assert_eq!(got, input);
}

#[test]
fn pretty_literals_and_numbers() {
    let got = run_pretty(b"[true,false,null,-1.5e10]");
    assert_eq!(got, "[\n  true,\n  false,\n  null,\n  -1.5e10\n]");
}

#[test]
fn pretty_empty_nested() {
    let got = run_pretty(br#"{"a":{},"b":[]}"#);
    assert_eq!(got, "{\n  \"a\": {},\n  \"b\": []\n}");
}

#[test]
fn a_key_without_a_colon_is_skipped() {
    let src = b"\"a\"x";
    let entry = rapid_view::format::PathEntry { start: 0, end: 4, parent: 0, segment: PathSegment::Key(0) };
    assert_eq!(value_bytes_for_entry(src, &entry), b"x");
    let field = b" \"a\" : 1";
    let entry = rapid_view::format::PathEntry { start: 0, end: 8, parent: 0, segment: PathSegment::Key(0) };
    assert_eq!(value_bytes_for_entry(field, &entry), b"1");
}
