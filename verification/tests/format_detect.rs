use rapid_view::format::{detect, Format};

#[test]
fn detect_json_vs_xml() {
    assert_eq!(detect(b"{\"a\":1}"), Format::Json);
    assert_eq!(detect(b"[]"), Format::Json);
    assert_eq!(detect(b"  42"), Format::Json);
    assert_eq!(detect(b"<root/>"), Format::Xml);
    assert_eq!(detect(b"\n  <?xml version=\"1.0\"?><a/>"), Format::Xml);
    assert_eq!(detect(b"\xEF\xBB\xBF<a/>"), Format::Xml);
    assert_eq!(detect(b""), Format::Json);
}
