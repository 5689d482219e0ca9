use rapid_view::format::xml::{parse, path_expression, prettify, value_bytes_for_entry};
use rapid_view::format::{Offset, PathSegment, StyleKind};

fn offset_of(src: &[u8], byte: u8) -> Offset {
    src.iter().position(|&b| b == byte).unwrap() as Offset
}

#[test]
fn empty_doc_is_root_only() {
    let out = parse(b"", None);
    assert!(out.error.is_none());
    assert_eq!(out.paths.entries.len(), 1);
    assert!(matches!(out.paths.entries[0].segment, PathSegment::Root));
}

#[test]
fn single_self_closing() {
    let src = b"<root/>";
    let out = parse(src, None);
    assert!(out.error.is_none());
    assert_eq!(out.paths.entries.len(), 2);
    let path = out.paths.path_of(1);
    assert_eq!(path_expression(&path, &out.names), "/root");
}

#[test]
fn xml_nested_path_lookup() {
    let src = b"<root><a><b>x</b></a></root>";
    let out = parse(src, None);
    assert!(out.error.is_none(), "error: {:?}", out.error);
    // Click on `x`.
    let pos = offset_of(src, b'x');
    let entry = out.paths.lookup(pos).unwrap();
    let path = out.paths.path_of(entry);
    assert_eq!(path_expression(&path, &out.names), "/root/a/b");
}

#[test]
fn sibling_predicate_only_when_ambiguous() {
    let src = b"<root><a/><a/><b/></root>";
    let out = parse(src, None);
    // a is repeated → expect [1], [2]. b is unique → no predicate.
    let mut got = Vec::new();
    for (i, e) in out.paths.entries.iter().enumerate() {
        if matches!(e.segment, PathSegment::Element { .. }) {
            let p = out.paths.path_of(i as u32);
            got.push(path_expression(&p, &out.names));
        }
    }
    assert_eq!(got, vec!["/root", "/root/a[1]", "/root/a[2]", "/root/b"]);
}

#[test]
fn attribute_path() {
    let src = br#"<root><a name="foo"/></root>"#;
    let out = parse(src, None);
    assert!(out.error.is_none());
    // Click inside `name`.
    let pos = src.iter().position(|&b| b == b'n').unwrap() as u32;
    let entry = out.paths.lookup(pos).unwrap();
    let path = out.paths.path_of(entry);
    assert_eq!(path_expression(&path, &out.names), "/root/a/@name");
}

#[test]
fn root_click_on_whitespace_gives_slash() {
    let src = b"   <a/>   ";
    let out = parse(src, None);
    let entry = out.paths.lookup(0).unwrap();
    let path = out.paths.path_of(entry);
    assert!(path.is_empty());
    assert_eq!(path_expression(&path, &out.names), "/");
}

#[test]
fn comments_and_pi_are_styled() {
    let src = b"<?xml version=\"1.0\"?><!-- hi --><a/>";
    let out = parse(src, None);
    assert!(out.error.is_none());
    let has = |k: StyleKind| out.styles.iter().any(|s| s.kind == k);
    assert!(has(StyleKind::Pi));
    assert!(has(StyleKind::Comment));
    assert!(has(StyleKind::Tag));
}

#[test]
fn cdata_is_styled() {
    let src = b"<a><![CDATA[hello]]></a>";
    let out = parse(src, None);
    assert!(out.error.is_none());
    assert!(out.styles.iter().any(|s| s.kind == StyleKind::CData));
}

#[test]
fn value_bytes_for_element() {
    let src = b"<root><a>hi</a></root>";
    let out = parse(src, None);
    let pos = offset_of(src, b'h');
    let entry_idx = out.paths.lookup(pos).unwrap();
    let entry = out.paths.entries[entry_idx as usize];
    assert_eq!(value_bytes_for_entry(src, &entry), b"<a>hi</a>");
}

#[test]
fn value_bytes_for_attribute() {
    let src = br#"<a name="foo"/>"#;
    let out = parse(src, None);
    let pos = src.iter().position(|&b| b == b'n').unwrap() as u32;
    let entry_idx = out.paths.lookup(pos).unwrap();
    let entry = out.paths.entries[entry_idx as usize];
    assert_eq!(value_bytes_for_entry(src, &entry), b"foo");
}

#[test]
fn pretty_block_element() {
    let src = b"<root><a/><b/></root>";
    let out = String::from_utf8(prettify(src)).unwrap();
    assert_eq!(out, "<root>\n  <a/>\n  <b/>\n</root>\n");
}

#[test]
fn pretty_mixed_content_preserved() {
    let src = b"<p>Hello <b>world</b>!</p>";
    let out = String::from_utf8(prettify(src)).unwrap();
    // p has non-ws text, so it stays as mixed — no whitespace added inside.
    assert_eq!(out, "<p>Hello <b>world</b>!</p>\n");
}

#[test]
fn pretty_nested_block_with_text() {
    let src = b"<root>\n  <a>hi</a>\n</root>";
    let out = String::from_utf8(prettify(src)).unwrap();
    assert_eq!(out, "<root>\n  <a>hi</a>\n</root>\n");
}

#[test]
fn pretty_keeps_xml_declaration() {
    let src = b"<?xml version=\"1.0\"?><root/>";
    let out = String::from_utf8(prettify(src)).unwrap();
    assert_eq!(out, "<?xml version=\"1.0\"?>\n<root/>\n");
}

#[test]
fn pretty_with_comment() {
    let src = b"<root><!-- note --><a/></root>";
    let out = String::from_utf8(prettify(src)).unwrap();
    assert_eq!(out, "<root>\n  <!-- note -->\n  <a/>\n</root>\n");
}

#[test]
fn unmatched_close_recovers() {
    let src = b"<root><a></b></root>";
    let out = parse(src, None);
    // Lenient: parse completes without panic.
    let _ = out;
}

#[test]
fn line_starts_tracked() {
    let src = b"<a>\n<b/>\n</a>";
    let out = parse(src, None);
    assert_eq!(out.line_starts, vec![0, 4, 9]);
}
