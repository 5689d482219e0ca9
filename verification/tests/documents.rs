use rapid_view::columns::{byte_offset_to_char_col, char_range_to_byte_range, chars_of_line, utf16_spans};
use rapid_view::doc::{ByteSource, Document};
use rapid_view::format::{
    content_label, path_label, Format, ParseErrorKind, PathSegment, StyleKind, StyleSpan, ROOT_PARENT,
};
use rapid_view::search::find_matches;
use rapid_view::text::{chars_of, push_decimal, push_hex, push_scalar, trim_chars};

fn json(text: &[u8]) -> std::sync::Arc<Document> {
    Document::from_source(Format::Json, ByteSource::from_vec(text.to_vec()), None)
}

#[test]
fn owned_bytes_are_kept() {
    let source = ByteSource::from_vec(b"[1, 2]".to_vec());
    assert_eq!(source.len(), 6);
    assert_eq!(source.as_slice(), b"[1, 2]");
    assert_eq!(source.clone().as_slice(), b"[1, 2]");
}

#[test]
fn mapped_bytes_are_read() {
    let mut map = memmap2::MmapMut::map_anon(7).unwrap();
    map.copy_from_slice(b"{\"a\":1}");
    let source = ByteSource::Mmap(std::sync::Arc::new(map.make_read_only().unwrap()));
    assert_eq!(source.len(), 7);
    assert_eq!(source.as_slice(), b"{\"a\":1}");
    let doc = Document::from_source(Format::Json, source, None);
    assert!(doc.output.error.is_none());
    assert_eq!(doc.output.names.get(0), b"a");
}

#[test]
fn line_bytes_drop_the_line_ending() {
    let doc = json(b"[1,\r\n22,\n333]");
    assert_eq!(doc.line_count(), 3);
    assert_eq!(doc.line_bytes(0), b"[1,");
    assert_eq!(doc.line_bytes(1), b"22,");
    assert_eq!(doc.line_bytes(2), b"333]");
    assert_eq!(doc.max_line_bytes, 4);
}

#[test]
fn lines_go_on_after_the_value() {
    let doc = json(b"1\n2");
    assert!(doc.output.error.is_none());
    assert_eq!(doc.output.line_starts, vec![0, 2]);
    assert_eq!(json(b"{}\n").line_bytes(0), b"{}");
    // A broken document is scanned up to the error.
    let broken = json(b"?\n");
    assert_eq!(broken.output.line_starts, vec![0]);
    assert_eq!(broken.line_bytes(0), b"?");
    assert_eq!(json(b"1\r").line_bytes(0), b"1\r");
    assert_eq!(json(b"1\r\n").line_bytes(0), b"1");
}

#[test]
fn errors_say_what_and_where() {
    let cases: [(&[u8], u32, ParseErrorKind); 9] = [
        (b"", 0, ParseErrorKind::UnexpectedEof),
        (b"[1", 2, ParseErrorKind::UnexpectedEof),
        (b"\"abc", 4, ParseErrorKind::UnexpectedEof),
        (b"?", 0, ParseErrorKind::UnexpectedByte(b'?')),
        (b"[1 2]", 3, ParseErrorKind::UnexpectedByte(b'2')),
        (b"{\"a\" 1}", 5, ParseErrorKind::UnexpectedByte(b'1')),
        (b"tru", 3, ParseErrorKind::UnexpectedEof),
        (b"-x", 1, ParseErrorKind::InvalidNumber),
        (b"{\"\\q\":1}", 4, ParseErrorKind::InvalidEscape),
    ];
    for (text, offset, kind) in cases {
        let error = json(text).output.error.unwrap();
        assert_eq!(error.offset, offset, "{:?}", text);
        assert_eq!(error.kind, kind, "{:?}", text);
    }
}

#[test]
fn an_unclosed_tag_is_an_error() {
    let doc = Document::from_source(Format::Xml, ByteSource::from_vec(b"<a x=1 ".to_vec()), None);
    let error = doc.output.error.as_ref().unwrap();
    assert_eq!(error.offset, 7);
    assert_eq!(error.kind, ParseErrorKind::UnexpectedEof);
}

#[test]
fn broken_documents_keep_what_was_parsed() {
    let doc = json(b"{\"a\": {\"b\": 1}, \"c\" 2}");
    assert!(doc.output.error.is_some());
    let entries = &doc.output.paths.entries;
    assert_eq!(entries.len(), 4);
    assert_eq!(entries[0].parent, ROOT_PARENT);
    assert!(matches!(entries[2].segment, PathSegment::Key(_)));
    assert_eq!(entries[2].parent, 1);
}

#[test]
fn labels_name_the_dialect() {
    assert_eq!(path_label(Format::Json), "jq");
    assert_eq!(path_label(Format::Xml), "XPath");
    assert_eq!(content_label(Format::Json), "JSON");
    assert_eq!(content_label(Format::Xml), "XML");
}

#[test]
fn matches_do_not_overlap() {
    assert_eq!(find_matches(b"aAaAa", b"aa"), vec![0, 2]);
    assert_eq!(find_matches(b"xyz", b"q"), Vec::<u32>::new());
    assert_eq!(find_matches(b"\xc3\x89", b"\xc3\xa9"), Vec::<u32>::new());
}

#[test]
fn columns_count_characters() {
    let line = "a\u{e9}\u{20ac}\u{1f600}".as_bytes();
    let chars = chars_of_line(line);
    assert_eq!(chars.len(), 4);
    assert_eq!(byte_offset_to_char_col(line, 0), 0);
    assert_eq!(byte_offset_to_char_col(line, 3), 2);
    assert_eq!(byte_offset_to_char_col(line, 6), 3);
    assert_eq!(byte_offset_to_char_col(line, 99), 4);
    // In the middle of a character the byte offset stands in.
    assert_eq!(byte_offset_to_char_col(line, 2), 2);
    assert_eq!(char_range_to_byte_range(&chars, 1, 3), (1, 6));
    assert_eq!(char_range_to_byte_range(&chars, 3, 9), (6, 10));
    assert_eq!(chars_of_line(b"\xff"), Vec::<char>::new());
}

#[test]
fn spans_are_in_utf16_units() {
    let chars = chars_of("\u{1f600}ab");
    let spans = [
        StyleSpan { start: 10, end: 14, kind: StyleKind::String },
        StyleSpan { start: 14, end: 15, kind: StyleKind::Number },
    ];
    assert_eq!(utf16_spans(&chars, 10, &spans), vec![(0, 2, StyleKind::String), (2, 3, StyleKind::Number)]);
}

#[test]
fn numbers_are_written_in_decimal_and_hex() {
    let mut out = String::new();
    push_decimal(&mut out, 0);
    push_decimal(&mut out, 1_234_567_890);
    push_hex(&mut out, 0x1f, 4);
    assert_eq!(out, "01234567890001f");
    let mut bytes = Vec::new();
    push_scalar(&mut bytes, 0x1f600);
    assert_eq!(bytes, "\u{1f600}".as_bytes());
}

#[test]
fn trimming_takes_unicode_space() {
    assert_eq!(trim_chars(&chars_of("\u{a0} \tx y\u{2003}\n")), "x y");
    assert_eq!(trim_chars(&chars_of(" \u{3000}")), "");
}
