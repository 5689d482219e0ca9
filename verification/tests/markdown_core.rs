use rapid_view::markdown_core::{
    find_table_run, parse, parse_table_separator, path_expression, prettify, split_table_row, BlockKind, CellAlign,
    ParseOutput, PathSegment, StyleKind,
};

fn parse_md(s: &[u8]) -> ParseOutput {
    parse(s, None)
}

fn heading_paths(out: &ParseOutput) -> Vec<String> {
    out.paths
        .entries
        .iter()
        .enumerate()
        .filter_map(|(i, e)| match e.segment {
            PathSegment::Heading { .. } => {
                let p = out.paths.path_of(i as u32);
                Some(path_expression(&p, &out.names))
            }
            _ => None,
        })
        .collect()
}

#[test]
fn lib_empty_doc_has_only_root() {
    let out = parse_md(b"");
    assert_eq!(out.paths.entries.len(), 1);
    assert!(matches!(out.paths.entries[0].segment, PathSegment::Root));
}

#[test]
fn lib_nested_headers_form_tree() {
    let src = b"# Intro\n## Setup\n## Usage\n### Example\n# Reference\n";
    let out = parse_md(src);
    assert_eq!(
        heading_paths(&out),
        vec![
            "/Intro",
            "/Intro/Setup",
            "/Intro/Usage",
            "/Intro/Usage/Example",
            "/Reference",
        ]
    );
}

#[test]
fn closing_hashes_stripped() {
    let out = parse_md(b"## Title ##\n");
    assert_eq!(heading_paths(&out), vec!["/Title"]);
}

#[test]
fn lib_hash_without_space_is_not_a_header() {
    let out = parse_md(b"#nope\n");
    assert!(heading_paths(&out).is_empty());
}

#[test]
fn fenced_code_hides_inner_headers() {
    let src = b"```\n# not a heading\n```\n# Real\n";
    let out = parse_md(src);
    assert_eq!(heading_paths(&out), vec!["/Real"]);
    assert!(out.styles.iter().any(|s| s.kind == StyleKind::CodeBlock));
}

#[test]
fn lib_inline_code_styled() {
    let out = parse_md(b"call `foo()` here\n");
    let span = out
        .styles
        .iter()
        .find(|s| s.kind == StyleKind::Code)
        .expect("inline code span");
    let bytes = &b"call `foo()` here\n"[span.start as usize..span.end as usize];
    assert_eq!(bytes, b"`foo()`");
}

#[test]
fn lookup_inside_section_returns_section() {
    let src = b"# A\n## B\ninside B\n";
    let out = parse_md(src);
    let pos = src.iter().position(|&b| b == b'i').unwrap() as u32;
    let idx = out.paths.lookup(pos).unwrap();
    let p = out.paths.path_of(idx);
    assert_eq!(path_expression(&p, &out.names), "/A/B");
}

#[test]
fn blocks_classify_paragraph_and_blank() {
    let out = parse_md(b"hello\n\nworld\n");
    let kinds: Vec<_> = out.blocks.iter().map(|b| b.kind).collect();
    assert_eq!(
        kinds,
        vec![BlockKind::Paragraph, BlockKind::Blank, BlockKind::Paragraph]
    );
}

#[test]
fn blocks_classify_blockquote() {
    let out = parse_md(b"> quoted\nplain\n");
    let kinds: Vec<_> = out.blocks.iter().map(|b| b.kind).collect();
    assert_eq!(kinds, vec![BlockKind::BlockquoteLine, BlockKind::Paragraph]);
}

#[test]
fn blocks_classify_unordered_list() {
    let out = parse_md(b"- one\n- two\n");
    let kinds: Vec<_> = out.blocks.iter().map(|b| b.kind).collect();
    assert!(matches!(kinds[0], BlockKind::ListItem { ordered: false, .. }));
    assert!(matches!(kinds[1], BlockKind::ListItem { ordered: false, .. }));
}

#[test]
fn blocks_classify_ordered_list() {
    let out = parse_md(b"1. one\n2. two\n");
    let kinds: Vec<_> = out.blocks.iter().map(|b| b.kind).collect();
    assert!(matches!(kinds[0], BlockKind::ListItem { ordered: true, .. }));
    assert!(matches!(kinds[1], BlockKind::ListItem { ordered: true, .. }));
}

#[test]
fn blocks_classify_hr() {
    let out = parse_md(b"---\n");
    assert_eq!(out.blocks[0].kind, BlockKind::HorizontalRule);
}

#[test]
fn blocks_classify_table() {
    let out = parse_md(b"| a | b |\n| - | - |\n| 1 | 2 |\n");
    for b in &out.blocks {
        assert_eq!(b.kind, BlockKind::TableLine);
    }
}

#[test]
fn blocks_classify_fenced_code() {
    let out = parse_md(b"```\nfoo\n```\n");
    for b in &out.blocks {
        assert_eq!(b.kind, BlockKind::FencedCode);
    }
}

#[test]
fn blocks_classify_headings() {
    let out = parse_md(b"# A\n## B\nbody\n");
    let kinds: Vec<_> = out.blocks.iter().map(|b| b.kind).collect();
    assert_eq!(
        kinds,
        vec![
            BlockKind::Heading { level: 1 },
            BlockKind::Heading { level: 2 },
            BlockKind::Paragraph
        ]
    );
}

#[test]
fn lib_prettify_is_verbatim() {
    let src = b"# Title\n\nBody.\n";
    assert_eq!(prettify(src), src.to_vec());
}

#[test]
fn star_list_works() {
    let out = parse_md(b"* one\n* two\n");
    let kinds: Vec<_> = out.blocks.iter().map(|b| b.kind).collect();
    assert!(matches!(kinds[0], BlockKind::ListItem { ordered: false, .. }));
}

#[test]
fn underscore_hr() {
    let out = parse_md(b"___\n");
    assert_eq!(out.blocks[0].kind, BlockKind::HorizontalRule);
}

#[test]
fn find_table_run_picks_contiguous_range() {
    let out = parse_md(b"para\n| a | b |\n| - | - |\nafter\n");
    // blocks: [Paragraph, TableLine, TableLine, Paragraph]
    assert_eq!(find_table_run(&out.blocks, 0), None);
    assert_eq!(find_table_run(&out.blocks, 1), Some((1, 3)));
    assert_eq!(find_table_run(&out.blocks, 3), None);
}

#[test]
fn split_table_row_basic() {
    assert_eq!(split_table_row("| a | b | c |"), vec!["a", "b", "c"]);
}

#[test]
fn split_table_row_no_outer_pipes() {
    assert_eq!(split_table_row("a | b | c"), vec!["a", "b", "c"]);
}

#[test]
fn split_table_row_trailing_pipe_only() {
    assert_eq!(split_table_row("a | b |"), vec!["a", "b"]);
    assert_eq!(split_table_row("a \\|"), vec!["a |"]);
}

#[test]
fn split_table_row_escaped_pipe() {
    assert_eq!(split_table_row("| a\\|b | c |"), vec!["a|b", "c"]);
}

#[test]
fn split_table_row_trims_whitespace() {
    assert_eq!(split_table_row("|   x   |  y  |"), vec!["x", "y"]);
}

#[test]
fn parse_separator_all_alignments() {
    assert_eq!(
        parse_table_separator("| :--- | ---: | :---: | --- |"),
        Some(vec![
            CellAlign::Left,
            CellAlign::Right,
            CellAlign::Center,
            CellAlign::Left,
        ])
    );
}

#[test]
fn parse_separator_rejects_non_separator() {
    assert_eq!(parse_table_separator("| header | row |"), None);
    assert_eq!(parse_table_separator("| :no | --- |"), None);
}
