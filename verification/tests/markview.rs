use rapid_view::doc::ByteSource;
use rapid_view::markdown_core::{parse, CellAlign, StyleKind};
use rapid_view::markview::rendered::{build, render_inline, Block, Run, RunKind};
use rapid_view::markview::source::source_spans;
use rapid_view::markview::window::{open_document, Mode, WindowState};
use rapid_view::text::chars_of;

const SAMPLE: &str = "# Sample Document\n\nA paragraph with **bold**, *italic*, `code`, and [a link](https://example.com).\n\n## List\n\n- one\n- two\n\n```rust\nfn main() {}\n```\n";

fn inline(text: &str) -> Vec<(RunKind, String, String)> {
    render_inline(&chars_of(text)).into_iter().map(|run| (run.kind, run.text, run.url)).collect()
}

fn plain(text: &str) -> (RunKind, String, String) {
    (RunKind::Plain, text.to_string(), String::new())
}

fn blocks(text: &str) -> Vec<Block> {
    build(text.as_bytes(), &parse(text.as_bytes(), None))
}

fn joined(runs: &[Run]) -> String {
    runs.iter().map(|run| run.text.as_str()).collect()
}

#[test]
fn loads_fixture() {
    let doc = open_document(ByteSource::from_vec(SAMPLE.as_bytes().to_vec()), None).unwrap();
    assert!(doc.bytes.len() > 0);
    assert!(!doc.output.blocks.is_empty());
}

#[test]
fn inline_marks_become_runs() {
    assert_eq!(
        inline("a `b` **c** *d* [e](f)"),
        vec![
            plain("a "),
            (RunKind::Code, "b".to_string(), String::new()),
            plain(" "),
            (RunKind::Bold, "c".to_string(), String::new()),
            plain(" "),
            (RunKind::Italic, "d".to_string(), String::new()),
            plain(" "),
            (RunKind::Link, "e".to_string(), "f".to_string()),
        ]
    );
}

#[test]
fn text_without_marks_is_one_run() {
    assert_eq!(inline("nothing to see"), vec![plain("nothing to see")]);
    assert!(inline("").is_empty());
}

#[test]
fn marks_that_do_not_close_stay() {
    assert_eq!(inline("a ** b"), vec![plain("a ** b")]);
    assert_eq!(inline("[x] y"), vec![plain("[x] y")]);
}

#[test]
fn headings_paragraphs_and_blanks() {
    let out = blocks("# Title\n\nfirst\nsecond\n");
    assert!(matches!(&out[0], Block::Heading { level: 1, text } if text == "Title"));
    assert!(matches!(&out[1], Block::Blank));
    match &out[2] {
        Block::Paragraph { runs } => assert_eq!(joined(runs), "first second"),
        other => panic!("unexpected block: {:?}", other),
    }
}

#[test]
fn hard_breaks_take_two_spaces_or_a_backslash() {
    let joined_text = |text: &str| match &blocks(text)[0] {
        Block::Paragraph { runs } => joined(runs),
        other => panic!("unexpected block: {:?}", other),
    };
    assert_eq!(joined_text("a  \nb\n"), "a\u{2028}b");
    assert_eq!(joined_text("a\\\nb\n"), "a\u{2028}b");
    assert_eq!(joined_text("a \nb\n"), "a b");
    assert_eq!(joined_text("a\u{a0}\nb\n"), "a b");
}

#[test]
fn lists_get_bullets_and_numbers() {
    let out = blocks("- one\n1. two\n");
    match &out[0] {
        Block::ListItem { depth, prefix, runs } => {
            assert_eq!(*depth, 0);
            assert_eq!(prefix, "\u{2022}\t");
            assert_eq!(joined(runs), "one");
        }
        other => panic!("unexpected block: {:?}", other),
    }
    match &out[1] {
        Block::ListItem { prefix, runs, .. } => {
            assert_eq!(prefix, "1.\t");
            assert_eq!(joined(runs), "two");
        }
        other => panic!("unexpected block: {:?}", other),
    }
}

#[test]
fn quotes_lose_their_markers() {
    match &blocks("> one\n> two\n")[0] {
        Block::Quote { runs } => assert_eq!(joined(runs), "one two"),
        other => panic!("unexpected block: {:?}", other),
    }
}

#[test]
fn fences_show_their_lines() {
    match &blocks("```rust\nlet a = 1;\nlet b = 2;\n```\n")[0] {
        Block::Code { text } => assert_eq!(text, "let a = 1;\u{2028}let b = 2;"),
        other => panic!("unexpected block: {:?}", other),
    }
}

#[test]
fn rules_are_rules() {
    assert!(matches!(&blocks("---\n")[0], Block::Rule));
}

#[test]
fn tables_are_split_into_cells() {
    match &blocks("| a | b |\n|:--|--:|\n| 1 | **2** |\n")[0] {
        Block::Table { header, aligns, rows } => {
            assert!(*header);
            assert_eq!(aligns, &vec![CellAlign::Left, CellAlign::Right]);
            assert_eq!(rows.len(), 2);
            assert_eq!(joined(&rows[0][0]), "a");
            assert_eq!(rows[1][1][0].kind, RunKind::Bold);
        }
        other => panic!("unexpected block: {:?}", other),
    }
}

#[test]
fn the_source_view_colors_headings_and_code() {
    let text = "# \u{1f600}\n\n`x`\n";
    let out = parse(text.as_bytes(), None);
    let spans = source_spans(text.as_bytes(), &out);
    assert_eq!(spans, vec![(0, 4, StyleKind::Heading), (6, 9, StyleKind::Code)]);
    assert!(source_spans(b"# \xff\n", &parse(b"# \xff\n", None)).is_empty());
}

#[test]
fn the_toggle_switches_views_and_back() {
    let mut state = WindowState::new();
    assert!(state.is_blank());
    assert!(!state.toggle_mode());
    assert_eq!(state.title(), "Markview");
    assert_eq!(state.begin_load("/docs/a.md".to_string()), "Markview \u{2014} loading a.md\u{2026}");
    let doc = open_document(ByteSource::from_vec(SAMPLE.as_bytes().to_vec()), None).unwrap();
    state.document_ready(doc, "/docs/a.md".to_string());
    assert_eq!(state.title(), "Markview \u{2014} a.md");
    assert_eq!(state.toggle_title(), "Source");
    assert!(state.toggle_mode());
    assert_eq!(state.mode, Mode::Source);
    assert_eq!(state.toggle_title(), "Rendered");
    assert!(state.toggle_mode());
    assert_eq!(state.mode, Mode::Rendered);
    assert!(!state.begin_paste("  "));
    assert!(state.begin_paste("# x"));
    assert!(state.doc.is_none());
    state.clear();
    assert!(state.is_blank());
}
