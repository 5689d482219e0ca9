use std::sync::Arc;

use rapid_view::doc::{ByteSource, Document};
use rapid_view::doc_view::{self, DocView, KeyAction};
use rapid_view::format::{Format, StyleKind};
use rapid_view::json_view::{self, JsonView};
use rapid_view::window::{open_document, reparse_document};

fn doc_of(text: &[u8]) -> Arc<Document> {
    open_document(ByteSource::from_vec(text.to_vec()), None).unwrap()
}

fn view_of(text: &[u8]) -> DocView {
    let mut view = DocView::new();
    view.set_document(doc_of(text));
    view
}

fn text_view(text: &[u8]) -> DocView {
    let mut view = DocView::new();
    view.set_document(reparse_document(Format::Xml, ByteSource::from_vec(text.to_vec()), None).unwrap());
    view
}

fn csv_view(text: &[u8]) -> DocView {
    let output = rapid_view::format::csv::parse(text, b',', None);
    let mut longest: u32 = 0;
    for line in text.split(|&b| b == b'\n') {
        longest = longest.max(line.len() as u32);
    }
    let mut view = DocView::new();
    view.set_document(Arc::new(Document {
        bytes: ByteSource::from_vec(text.to_vec()),
        format: Format::Json,
        output,
        max_line_bytes: longest,
    }));
    view
}

#[test]
fn doc_view_line_for_offset_finds_containing_line() {
    let starts = vec![0u32, 10, 20, 35];
    assert_eq!(doc_view::line_for_offset(0, &starts), 0);
    assert_eq!(doc_view::line_for_offset(5, &starts), 0);
    assert_eq!(doc_view::line_for_offset(9, &starts), 0);
    assert_eq!(doc_view::line_for_offset(10, &starts), 1);
    assert_eq!(doc_view::line_for_offset(15, &starts), 1);
    assert_eq!(doc_view::line_for_offset(34, &starts), 2);
    assert_eq!(doc_view::line_for_offset(35, &starts), 3);
    assert_eq!(doc_view::line_for_offset(1000, &starts), 3);
}

#[test]
fn doc_view_line_for_offset_empty_is_zero() {
    assert_eq!(doc_view::line_for_offset(0, &[]), 0);
    assert_eq!(doc_view::line_for_offset(42, &[]), 0);
}

#[test]
fn json_view_line_for_offset_finds_containing_line() {
    let starts = vec![0u32, 10, 20, 35];
    assert_eq!(json_view::line_for_offset(0, &starts), 0);
    assert_eq!(json_view::line_for_offset(5, &starts), 0);
    assert_eq!(json_view::line_for_offset(9, &starts), 0);
    assert_eq!(json_view::line_for_offset(10, &starts), 1);
    assert_eq!(json_view::line_for_offset(15, &starts), 1);
    assert_eq!(json_view::line_for_offset(34, &starts), 2);
    assert_eq!(json_view::line_for_offset(35, &starts), 3);
    assert_eq!(json_view::line_for_offset(1000, &starts), 3);
}

#[test]
fn json_view_line_for_offset_empty_is_zero() {
    assert_eq!(json_view::line_for_offset(0, &[]), 0);
    assert_eq!(json_view::line_for_offset(42, &[]), 0);
}

#[test]
fn a_new_view_is_empty() {
    let view = DocView::new();
    assert!(view.doc.is_none());
    assert_eq!(view.last_click_offset(), None);
    assert!(view.csv_table_mode());
    assert_eq!(view.layout_chars(), 0);
    assert_eq!(view.current_path_expression(), ".");
    assert_eq!(view.current_subtree(), None);
    assert_eq!(view.scroll_target(0), None);
    assert_eq!(view.point_to_byte_offset(0, 0), None);
    assert_eq!(view.clicked_line(), None);
    assert!(view.match_bands(0, 0, 80).is_empty());
    assert!(view.drawn_line(0, 0, 80).is_none());
}

#[test]
fn path_and_subtree_follow_the_click() {
    let mut view = view_of(b"{\"a\": {\"b c\": [10, 20]}}\n");
    assert_eq!(view.current_path_expression(), ".");
    assert_eq!(view.current_subtree().unwrap(), "{\"a\": {\"b c\": [10, 20]}}\n");
    view.set_last_click_offset(Some(19));
    assert_eq!(view.current_path_expression(), ".a.[\"b c\"][1]");
    assert_eq!(view.current_subtree().unwrap(), "20");
    view.set_last_click_offset(Some(8));
    assert_eq!(view.current_path_expression(), ".a.[\"b c\"]");
    assert_eq!(view.current_subtree().unwrap(), "[10, 20]");
}

#[test]
fn the_subtree_without_a_click_is_the_document() {
    assert_eq!(view_of(b"<a/><b/>").current_subtree().unwrap(), "<a/><b/>");
    let mut broken = view_of(b"[1,");
    assert_eq!(broken.current_subtree().unwrap(), "[1,");
    // The root of a broken document has no end, so it contains nothing.
    broken.set_last_click_offset(Some(0));
    assert_eq!(broken.current_subtree().unwrap(), "[1,");
    let mut json = JsonView::new();
    json.set_document(reparse_document(Format::Json, ByteSource::from_vec(b"[1,".to_vec()), None).unwrap());
    assert_eq!(json.current_json_subtree().unwrap(), "[1,");
}

#[test]
fn huge_moves_stop_at_the_ends() {
    let mut view = text_view(b"ab\ncd");
    view.set_last_click_offset(Some(4));
    view.move_cursor(i64::MAX, i64::MAX);
    assert_eq!(view.last_click_offset(), Some(5));
    view.move_cursor(i64::MIN, i64::MIN);
    assert_eq!(view.last_click_offset(), Some(0));
    view.apply_key(KeyAction::Move { dline: 9, dcol: 1 });
    assert_eq!(view.last_click_offset(), Some(4));
}

#[test]
fn xml_subtree_is_the_element() {
    let mut view = view_of(b"<r><i>1</i><i k=\"v\">2</i></r>");
    view.set_last_click_offset(Some(20));
    assert_eq!(view.current_path_expression(), "/r/i[2]");
    assert_eq!(view.current_subtree().unwrap(), "<i k=\"v\">2</i>");
    view.set_last_click_offset(Some(14));
    assert_eq!(view.current_path_expression(), "/r/i[2]/@k");
    assert_eq!(view.current_subtree().unwrap(), "v");
}

#[test]
fn invalid_utf8_in_a_subtree_becomes_the_replacement_character() {
    let mut view = view_of(b"[\"\xff\"]");
    view.set_last_click_offset(Some(1));
    assert_eq!(view.current_subtree().unwrap(), "\"\u{fffd}\"");
}

#[test]
fn csv_subtree_is_the_field_and_the_path_a_pipeline() {
    let mut view = csv_view(b"name,age\nalice,30\n");
    assert_eq!(view.current_subtree().unwrap(), "name,age\nalice,30\n");
    view.set_last_click_offset(Some(15));
    assert_eq!(view.current_path_expression(), "xsv slice -i 0 | xsv select age");
    assert_eq!(view.current_subtree().unwrap(), "30");
}

#[test]
fn csv_clicks_outside_cells_give_the_record() {
    let mut view = csv_view(b"name,age\nalice,30\n\nbob,7\n");
    // A header delimiter and the header's line ending.
    for off in [4, 8] {
        view.set_last_click_offset(Some(off));
        assert_eq!(view.current_subtree().unwrap(), "name,age");
        assert_eq!(view.current_path_expression(), "xsv table");
    }
    // A delimiter and the line ending of a data row.
    for off in [14, 17] {
        view.set_last_click_offset(Some(off));
        assert_eq!(view.current_subtree().unwrap(), "alice,30");
        assert_eq!(view.current_path_expression(), "xsv slice -i 0");
    }
    // An empty record.
    view.set_last_click_offset(Some(18));
    assert_eq!(view.current_subtree().unwrap(), "");
    assert_eq!(view.current_path_expression(), "xsv slice -i 1");
    // Behind the last record.
    view.set_last_click_offset(Some(25));
    assert_eq!(view.current_subtree().unwrap(), "name,age\nalice,30\n\nbob,7\n");
    assert_eq!(view.current_path_expression(), "xsv table");
}

#[test]
fn search_is_case_insensitive_and_wraps() {
    let mut view = view_of(b"[\"Needle\", \"x\", \"needle\"]");
    assert_eq!(view.search("NEEDLE"), 2);
    assert_eq!(view.search.matches, vec![2, 17]);
    assert_eq!(view.scroll_to_current_match(), Some(2));
    assert_eq!(view.last_click_offset(), Some(2));
    assert_eq!(view.search_next(), Some((1, 2)));
    assert_eq!(view.last_click_offset(), Some(17));
    assert_eq!(view.search_next(), Some((0, 2)));
    assert_eq!(view.search_prev(), Some((1, 2)));
    view.clear_search();
    assert_eq!(view.search_next(), None);
    assert_eq!(view.search_prev(), None);
    assert_eq!(view.scroll_to_current_match(), None);
    assert_eq!(view.search(""), 0);
}

#[test]
fn cursor_moves_stay_in_the_document() {
    let mut view = text_view(b"ab\ncdef\r\ng");
    view.move_cursor(0, 0);
    assert_eq!(view.last_click_offset(), Some(0));
    view.move_cursor(0, -1);
    assert_eq!(view.last_click_offset(), Some(0));
    view.move_cursor(0, 5);
    assert_eq!(view.last_click_offset(), Some(2));
    view.move_cursor(1, 0);
    assert_eq!(view.last_click_offset(), Some(5));
    view.move_cursor_eol();
    assert_eq!(view.last_click_offset(), Some(7));
    view.move_cursor_bol();
    assert_eq!(view.last_click_offset(), Some(3));
    view.move_cursor(9, 9);
    assert_eq!(view.last_click_offset(), Some(10));
    view.move_cursor_to(-3, 1);
    assert_eq!(view.last_click_offset(), Some(1));
}

#[test]
fn keys_move_like_vim() {
    assert_eq!(doc_view::key_action(false, "h", "h"), KeyAction::Move { dline: 0, dcol: -1 });
    assert_eq!(doc_view::key_action(false, "l", "l"), KeyAction::Move { dline: 0, dcol: 1 });
    assert_eq!(doc_view::key_action(false, "k", "k"), KeyAction::Move { dline: -1, dcol: 0 });
    assert_eq!(doc_view::key_action(false, "j", "j"), KeyAction::Move { dline: 1, dcol: 0 });
    assert_eq!(doc_view::key_action(false, "", "\u{f700}"), KeyAction::Move { dline: -1, dcol: 0 });
    assert_eq!(doc_view::key_action(false, "", "\u{f701}"), KeyAction::Move { dline: 1, dcol: 0 });
    assert_eq!(doc_view::key_action(false, "", "\u{f702}"), KeyAction::Move { dline: 0, dcol: -1 });
    assert_eq!(doc_view::key_action(false, "", "\u{f703}"), KeyAction::Move { dline: 0, dcol: 1 });
    assert_eq!(doc_view::key_action(false, "0", "0"), KeyAction::LineStart);
    assert_eq!(doc_view::key_action(false, "$", "4"), KeyAction::LineEnd);
    assert_eq!(doc_view::key_action(false, "n", "n"), KeyAction::NextMatch);
    assert_eq!(doc_view::key_action(false, "N", "n"), KeyAction::PrevMatch);
    assert_eq!(doc_view::key_action(false, "/", "/"), KeyAction::ShowSearch);
    assert_eq!(doc_view::key_action(false, "q", "q"), KeyAction::Ignore);
    assert_eq!(doc_view::key_action(true, "j", "j"), KeyAction::Ignore);

    let mut view = text_view(b"one\ntwo\nthree");
    view.apply_key(doc_view::key_action(false, "G", "g"));
    assert_eq!(view.last_click_offset(), Some(8));
    view.apply_key(doc_view::key_action(false, "$", "4"));
    assert_eq!(view.last_click_offset(), Some(13));
    view.apply_key(doc_view::key_action(false, "g", "g"));
    assert_eq!(view.last_click_offset(), Some(0));
    view.apply_key(KeyAction::ShowSearch);
    assert_eq!(view.last_click_offset(), Some(0));
}

#[test]
fn clicks_count_characters_not_bytes() {
    let view = view_of("[\n\"h\u{e9}\u{1f600}x\"]".as_bytes());
    // Columns on the second line: quote, h, é (2 bytes), emoji (4 bytes), x.
    assert_eq!(view.point_to_byte_offset(1, 0), Some(2));
    assert_eq!(view.point_to_byte_offset(1, 3), Some(6));
    assert_eq!(view.point_to_byte_offset(1, 4), Some(10));
    assert_eq!(view.point_to_byte_offset(1, 99), Some(13));
    assert_eq!(view.point_to_byte_offset(2, 0), None);
    assert_eq!(view.scroll_target(10), Some((1, 4)));
}

#[test]
fn a_plain_line_is_drawn_from_its_first_visible_column() {
    let view = view_of(b"{\"key\": 12345}");
    let drawn = view.drawn_line(0, 1, 10).unwrap();
    assert_eq!(drawn.col, 1);
    assert_eq!(drawn.text, "\"key\": 12");
    assert_eq!(drawn.spans, vec![(0, 5, StyleKind::Key), (7, 9, StyleKind::Number)]);
}

#[test]
fn match_bands_mark_the_current_match() {
    let mut view = view_of(b"[\"aaaa\", \"aaaa\"]\n[]");
    assert_eq!(view.search("aaaa"), 2);
    view.search_next();
    let bands = view.match_bands(0, 0, 80);
    assert_eq!(bands.len(), 2);
    assert_eq!((bands[0].col_start, bands[0].col_end, bands[0].current), (2, 6, false));
    assert_eq!((bands[1].col_start, bands[1].col_end, bands[1].current), (10, 14, true));
    assert!(view.match_bands(1, 0, 80).is_empty());
    assert_eq!(view.clicked_line(), Some(0));
}

#[test]
fn table_mode_draws_aligned_cells() {
    let mut view = csv_view(b"name,age\nalice,30\n");
    assert_eq!(view.layout_chars(), 10);
    let row = view.drawn_line(1, 0, 80).unwrap();
    assert_eq!(row.col, 0);
    assert_eq!(row.text.trim_end(), "alice  30");
    assert_eq!(view.scroll_target(15), Some((1, 7)));
    assert_eq!(view.point_to_byte_offset(1, 7), Some(15));
    view.set_csv_table_mode(false);
    let raw = view.drawn_line(1, 0, 80).unwrap();
    assert_eq!(raw.text, "alice,30");
    assert_eq!(view.layout_chars(), 8);
    view.reset_table_mode();
    assert!(view.csv_table_mode());
}

#[test]
fn clearing_the_document_forgets_the_click() {
    let mut view = view_of(b"[1]");
    view.set_last_click_offset(Some(1));
    view.clear_document();
    assert!(view.doc.is_none());
    assert_eq!(view.last_click_offset(), None);
}

#[test]
fn layout_width_is_limited() {
    let mut text = vec![b' '; 9_000];
    text.push(b'1');
    assert_eq!(view_of(&text).layout_chars(), 8_000);
}

#[test]
fn the_json_view_speaks_jq() {
    let mut view = JsonView::new();
    assert_eq!(view.current_jq_expression(), ".");
    assert_eq!(view.current_json_subtree(), None);
    view.set_document(reparse_document(Format::Json, ByteSource::from_vec(b"{\"k\":[true]}".to_vec()), None).unwrap());
    view.set_last_click_offset(Some(6));
    assert_eq!(view.last_click_offset(), Some(6));
    assert_eq!(view.current_jq_expression(), ".k[0]");
    assert_eq!(view.current_json_subtree().unwrap(), "true");
    assert_eq!(view.point_to_byte_offset(0, 6), Some(6));
    assert_eq!(view.scroll_target(6), Some((0, 6)));
    assert_eq!(view.clicked_line(), Some(0));
    let drawn = view.drawn_line(0, 0, 80).unwrap();
    assert_eq!(drawn.text, "{\"k\":[true]}");
    assert_eq!(drawn.spans, vec![(1, 4, StyleKind::Key), (6, 10, StyleKind::Bool)]);
    view.apply_key(KeyAction::LineEnd);
    assert_eq!(view.last_click_offset(), Some(12));
    assert_eq!(view.search("RUE"), 1);
    assert_eq!(view.match_bands(0, 0, 80).len(), 1);
    assert_eq!(view.scroll_to_current_match(), Some(7));
    assert_eq!(view.search_next(), Some((0, 1)));
    assert_eq!(view.search_prev(), Some((0, 1)));
    view.clear_search();
    assert_eq!(view.search_next(), None);
    view.clear_document();
    assert_eq!(view.last_click_offset(), None);
}
