use rapid_view::format::markdown::{parse, path_expression, prettify, value_bytes_for_entry};
use rapid_view::format::{NameInterner, ParseOutput, PathSegment, StyleKind};

fn entries_paths(out: &ParseOutput) -> Vec<String> {
    out.paths
        .entries
        .iter()
        .enumerate()
        .filter_map(|(i, e)| match e.segment {
            PathSegment::Heading { .. } => {
                let p = out.paths.path_of(i as u32);
                Some(path_expression(&p, &out.names))
            }
            _ => None,
        })
        .collect()
}

#[test]
fn markdown_empty_doc_has_only_root() {
    let out = parse(b"", None);
    assert!(out.error.is_none());
    assert_eq!(out.paths.entries.len(), 1);
    assert!(matches!(out.paths.entries[0].segment, PathSegment::Root));
}

#[test]
fn single_h1() {
    let out = parse(b"# Hello\n", None);
    assert_eq!(entries_paths(&out), vec!["/Hello"]);
}

#[test]
fn markdown_nested_headers_form_tree() {
    let src = b"# Intro\n\n## Setup\n\n## Usage\n\n### Example\n\n# Reference\n";
    let out = parse(src, None);
    assert_eq!(
        entries_paths(&out),
        vec![
            "/Intro",
            "/Intro/Setup",
            "/Intro/Usage",
            "/Intro/Usage/Example",
            "/Reference",
        ]
    );
}

#[test]
fn closing_hashes_are_stripped_from_title() {
    let out = parse(b"## Title ##\n", None);
    assert_eq!(entries_paths(&out), vec!["/Title"]);
}

#[test]
fn markdown_hash_without_space_is_not_a_header() {
    let out = parse(b"#nope\n", None);
    assert!(entries_paths(&out).is_empty());
}

#[test]
fn seven_hashes_is_not_a_header() {
    let out = parse(b"####### nope\n", None);
    assert!(entries_paths(&out).is_empty());
}

#[test]
fn lookup_in_section_body_returns_section_path() {
    let src = b"# Intro\nbody text here\n## Setup\nmore text\n";
    let out = parse(src, None);
    let pos = src.iter().position(|&b| b == b'b').unwrap() as u32;
    let idx = out.paths.lookup(pos).unwrap();
    let p = out.paths.path_of(idx);
    assert_eq!(path_expression(&p, &out.names), "/Intro");
}

#[test]
fn lookup_in_nested_section_returns_innermost() {
    let src = b"# A\n## B\ninside B\n";
    let out = parse(src, None);
    let pos = src.iter().position(|&b| b == b'i').unwrap() as u32;
    let idx = out.paths.lookup(pos).unwrap();
    let p = out.paths.path_of(idx);
    assert_eq!(path_expression(&p, &out.names), "/A/B");
}

#[test]
fn h1_end_set_at_next_h1_start() {
    let src = b"# A\nbody\n# B\n";
    let out = parse(src, None);
    let a = &out.paths.entries[1];
    let b_off = src.windows(3).position(|w| w == b"# B").unwrap();
    assert_eq!(a.end, b_off as u32);
}

#[test]
fn h2_closes_when_followed_by_h1() {
    let src = b"# A\n## B\nbody\n# C\n";
    let out = parse(src, None);
    // entries: 0=root, 1=#A, 2=##B, 3=#C
    let b_h2 = &out.paths.entries[2];
    let c_off = src.windows(3).position(|w| w == b"# C").unwrap();
    assert_eq!(b_h2.end, c_off as u32);
}

#[test]
fn fenced_code_styled_and_hides_inner_headers() {
    let src = b"prefix\n```rust\n# not a heading\n```\n# Real\n";
    let out = parse(src, None);
    assert!(
        out.styles.iter().any(|s| s.kind == StyleKind::CodeBlock),
        "expected a code-block style span"
    );
    assert_eq!(entries_paths(&out), vec!["/Real"]);
}

#[test]
fn tilde_fence_works() {
    let src = b"~~~\n# inner\n~~~\n";
    let out = parse(src, None);
    assert!(out.styles.iter().any(|s| s.kind == StyleKind::CodeBlock));
    assert!(entries_paths(&out).is_empty());
}

#[test]
fn unclosed_fence_extends_to_eof() {
    let src = b"```\nfoo\nbar\n";
    let out = parse(src, None);
    let cb = out
        .styles
        .iter()
        .find(|s| s.kind == StyleKind::CodeBlock)
        .expect("code block span");
    assert_eq!(cb.start, 0);
    assert_eq!(cb.end as usize, src.len());
}

#[test]
fn markdown_inline_code_styled() {
    let src = b"call `foo()` here\n";
    let out = parse(src, None);
    let code = out
        .styles
        .iter()
        .find(|s| s.kind == StyleKind::Code)
        .expect("inline-code span");
    let s = &src[code.start as usize..code.end as usize];
    assert_eq!(s, b"`foo()`");
}

#[test]
fn dangling_backtick_is_plain_text() {
    let src = b"unmatched ` backtick\n";
    let out = parse(src, None);
    assert!(out.styles.iter().all(|s| s.kind != StyleKind::Code));
}

#[test]
fn markdown_prettify_is_verbatim() {
    let src = b"# Title\n\nBody text.\n";
    assert_eq!(prettify(src), src.to_vec());
}

#[test]
fn value_bytes_for_h1_section_spans_to_eof_when_last() {
    let src = b"# A\nhello\n";
    let out = parse(src, None);
    let a = out.paths.entries[1];
    assert_eq!(value_bytes_for_entry(src, &a), src);
}

#[test]
fn value_bytes_for_root_trimmed() {
    let src = b"  \n# A\n";
    let out = parse(src, None);
    let root = out.paths.entries[0];
    assert_eq!(value_bytes_for_entry(src, &root), b"# A");
}

#[test]
fn line_starts_track_newlines() {
    let src = b"# A\n\nbody\n";
    let out = parse(src, None);
    assert_eq!(out.line_starts, vec![0, 4, 5, 10]);
}

#[test]
fn path_expression_empty_is_slash() {
    let names = NameInterner::default();
    assert_eq!(path_expression(&[], &names), "/");
}
