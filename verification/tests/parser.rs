use rapid_view::parser::{jq_path, parse, value_bytes_for_entry, Offset, PathSegment, StyleKind};

fn offset_of(src: &[u8], byte: u8) -> Offset {
    src.iter().position(|&b| b == byte).unwrap() as Offset
}

#[test]
fn parser_empty_object() {
    let out = parse(b"{}");
    assert!(out.error.is_none());
    assert_eq!(out.paths.entries.len(), 1);
}

#[test]
fn parser_empty_array() {
    let out = parse(b"[]");
    assert!(out.error.is_none());
    assert_eq!(out.paths.entries.len(), 1);
}

#[test]
fn parser_scalar_document() {
    let out = parse(b"42");
    assert!(out.error.is_none());
    assert_eq!(out.paths.entries.len(), 1);
}

#[test]
fn parser_nested_path_lookup() {
    let src = br#"{"a":{"b":[1,2,3]}}"#;
    let out = parse(src);
    assert!(out.error.is_none(), "error: {:?}", out.error);

    let pos = offset_of(src, b'2');
    let entry = out.paths.lookup(pos).unwrap();
    let path = out.paths.path_of(entry);
    assert_eq!(path.len(), 3);
    assert!(matches!(path[2], PathSegment::Index(1)));

    let jq = jq_path(&path, &out.keys);
    assert_eq!(jq, ".a.b[1]");
}

#[test]
fn parser_weird_key_needs_brackets() {
    let src = br#"{"has space":1}"#;
    let out = parse(src);
    assert!(out.error.is_none());
    let pos = offset_of(src, b'1');
    let entry = out.paths.lookup(pos).unwrap();
    let path = out.paths.path_of(entry);
    assert_eq!(jq_path(&path, &out.keys), r#".["has space"]"#);
}

#[test]
fn parser_leading_index_prepends_dot() {
    let src = b"[10,20,30]";
    let out = parse(src);
    let pos = offset_of(src, b'2'); // hits the '2' in 20
    let entry = out.paths.lookup(pos).unwrap();
    let path = out.paths.path_of(entry);
    assert_eq!(jq_path(&path, &out.keys), ".[1]");
}

#[test]
fn parser_root_lookup_empty_path() {
    let src = b"   {   }   ";
    let out = parse(src);
    // Click on the leading whitespace (offset 0)
    let entry = out.paths.lookup(0).unwrap();
    let path = out.paths.path_of(entry);
    assert!(path.is_empty());
    assert_eq!(jq_path(&path, &out.keys), ".");
}

#[test]
fn parser_line_index_simple() {
    let src = b"{\n  \"a\": 1\n}";
    let out = parse(src);
    assert_eq!(out.line_starts, vec![0, 2, 11]);
}

#[test]
fn parser_unicode_escape_in_key() {
    // {"\u00e9":1}  → key "é"
    let src = br#"{"\u00e9":1}"#;
    let out = parse(src);
    assert!(out.error.is_none(), "error: {:?}", out.error);
    let pos = offset_of(src, b'1');
    let entry = out.paths.lookup(pos).unwrap();
    let path = out.paths.path_of(entry);
    assert_eq!(jq_path(&path, &out.keys), r#".["é"]"#);
}

#[test]
fn parser_surrogate_pair_in_key() {
    // U+1F600 GRINNING FACE = \uD83D\uDE00
    let src = br#"{"\uD83D\uDE00":1}"#;
    let out = parse(src);
    assert!(out.error.is_none(), "error: {:?}", out.error);
    let pos = offset_of(src, b'1');
    let entry = out.paths.lookup(pos).unwrap();
    let path = out.paths.path_of(entry);
    assert_eq!(jq_path(&path, &out.keys), r#".["😀"]"#);
}

#[test]
fn parser_styles_cover_tokens() {
    let src = br#"{"a":1,"b":"x","c":true,"d":null}"#;
    let out = parse(src);
    assert!(out.error.is_none());
    let counts = |k: StyleKind| out.styles.iter().filter(|s| s.kind == k).count();
    assert_eq!(counts(StyleKind::Key), 4);
    assert_eq!(counts(StyleKind::Number), 1);
    assert_eq!(counts(StyleKind::String), 1);
    assert_eq!(counts(StyleKind::Bool), 1);
    assert_eq!(counts(StyleKind::Null), 1);
}

#[test]
fn parser_lookup_inside_key_returns_field_path() {
    // Clicking on the `a` character of the key should give [.a].
    let src = br#"{"a":1}"#;
    let out = parse(src);
    let pos = offset_of(src, b'a');
    let entry = out.paths.lookup(pos).unwrap();
    let path = out.paths.path_of(entry);
    assert_eq!(jq_path(&path, &out.keys), ".a");
}

fn value_bytes_at(src: &[u8], offset: Offset) -> &[u8] {
    let out = parse(src);
    let entry_idx = out.paths.lookup(offset).expect("offset has a path entry");
    let entry = out.paths.entries[entry_idx as usize];
    value_bytes_for_entry(src, &entry)
}

#[test]
fn parser_value_bytes_for_root_is_whole_doc_trimmed() {
    let src = b"  { \"a\": 1 }  ";
    // Clicking on leading whitespace gives root.
    assert_eq!(value_bytes_at(src, 0), b"{ \"a\": 1 }");
}

#[test]
fn parser_value_bytes_for_object_field_skips_key() {
    let src = br#"{"a":{"b":[1,2,3]}}"#;
    let pos = offset_of(src, b'b'); // click on key "b"
    // Should give the value of "b", which is the array.
    assert_eq!(value_bytes_at(src, pos), b"[1,2,3]");
}

#[test]
fn parser_value_bytes_for_array_element() {
    let src = b"[10,20,30]";
    let pos = offset_of(src, b'2'); // hits the "2" in 20
    assert_eq!(value_bytes_at(src, pos), b"20");
}

#[test]
fn parser_value_bytes_for_nested_object_value() {
    let src = br#"{"a": {"b": 1}, "c": 2}"#;
    // Click on the "a" key — the value is the nested object.
    let pos = offset_of(src, b'a');
    assert_eq!(value_bytes_at(src, pos), b"{\"b\": 1}");
}

#[test]
fn parser_value_bytes_for_pretty_field_keeps_value() {
    let src = b"{\n  \"a\": 42\n}";
    let pos = offset_of(src, b'a');
    assert_eq!(value_bytes_at(src, pos), b"42");
}

#[test]
fn parser_lenient_on_trailing_garbage() {
    let out = parse(b"{}  garbage");
    // Document parses successfully; we stop at the end of the value.
    assert!(out.error.is_none());
}

#[test]
fn a_field_of_another_shape_is_unchanged() {
    let src = b"\"a\"x";
    let entry = rapid_view::parser::PathEntry { start: 0, end: 4, parent: 0, segment: PathSegment::Key(0) };
    assert_eq!(value_bytes_for_entry(src, &entry), b"\"a\"x");
    let field = b" \"a\" : 1";
    let entry = rapid_view::parser::PathEntry { start: 0, end: 8, parent: 0, segment: PathSegment::Key(0) };
    assert_eq!(value_bytes_for_entry(field, &entry), b"1");
}
