use rapid_view::pretty::prettify;

fn run(src: &[u8]) -> String {
    String::from_utf8(prettify(src)).unwrap()
}

#[test]
fn empty_containers_stay_inline() {
    assert_eq!(run(b"{}"), "{}");
    assert_eq!(run(b"[]"), "[]");
    assert_eq!(run(b"{  }"), "{}");
    assert_eq!(run(b"[ \n ]"), "[]");
}

#[test]
fn object_with_one_field() {
    assert_eq!(run(br#"{"a":1}"#), "{\n  \"a\": 1\n}");
}

#[test]
fn nested_object() {
    let got = run(br#"{"a":{"b":1}}"#);
    assert_eq!(got, "{\n  \"a\": {\n    \"b\": 1\n  }\n}");
}

#[test]
fn array_with_items() {
    let got = run(b"[1,2,3]");
    assert_eq!(got, "[\n  1,\n  2,\n  3\n]");
}

#[test]
fn mixed_nesting() {
    let got = run(br#"{"a":1,"b":[1,2,{"c":3}]}"#);
    let expected = "{\n  \"a\": 1,\n  \"b\": [\n    1,\n    2,\n    {\n      \"c\": 3\n    }\n  ]\n}";
    assert_eq!(got, expected);
}

#[test]
fn strings_are_copied_verbatim_including_escapes() {
    let got = run(br#"{"k":"hello\"world\\x"}"#);
    assert_eq!(got, "{\n  \"k\": \"hello\\\"world\\\\x\"\n}");
}

#[test]
fn input_whitespace_is_collapsed() {
    let got = run(b"{\n  \"a\"  :   1  }");
    assert_eq!(got, "{\n  \"a\": 1\n}");
}

#[test]
fn already_pretty_stays_pretty() {
    let input = "{\n  \"a\": 1,\n  \"b\": 2\n}";
    let got = run(input.as_bytes());
    assert_eq!(got, input);
}

#[test]
fn literals_and_numbers() {
    let got = run(b"[true,false,null,-1.5e10]");
    assert_eq!(got, "[\n  true,\n  false,\n  null,\n  -1.5e10\n]");
}

#[test]
fn empty_nested() {
    let got = run(br#"{"a":{},"b":[]}"#);
    assert_eq!(got, "{\n  \"a\": {},\n  \"b\": []\n}");
}
