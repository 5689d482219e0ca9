use rapid_view::format::csv::{
    byte_of_visual_col, looks_numeric, parse, path_expression, record_cells, render_row, value_bytes_for_entry,
    visual_col_of_byte, MAX_COL_CHARS,
};
use rapid_view::format::{ParseOutput, PathSegment, StyleKind};

fn parse_csv(src: &[u8]) -> ParseOutput {
    parse(src, b',', None)
}

fn expr_at(out: &ParseOutput, offset: u32) -> String {
    let entry = out.paths.lookup(offset).unwrap();
    let path = out.paths.path_of(entry);
    path_expression(&path, &out.names)
}

const SIMPLE: &[u8] = b"name,age,city\nalice,30,sf\nbob,7,\"new york, ny\"\n";

#[test]
fn line_starts_are_record_starts() {
    let out = parse_csv(SIMPLE);
    assert_eq!(out.line_starts, vec![0, 14, 26, 47]);
    assert!(out.error.is_none());
}

#[test]
fn quoted_newline_does_not_split_record() {
    let src = b"a,b\n1,\"x\ny\"\n2,z\n";
    let out = parse_csv(src);
    // Header, row with embedded newline, row "2,z" — 3 records
    // (+ the phantom line after the trailing newline).
    assert_eq!(out.line_starts, vec![0, 4, 12, 16]);
}

#[test]
fn widths_are_content_max_capped() {
    let out = parse_csv(SIMPLE);
    let meta = out.csv.as_ref().unwrap();
    // name/alice/bob → 5; age/30/7 → 3; city/sf/"new york, ny" → 14.
    assert_eq!(meta.col_widths, vec![5, 3, 14]);
    assert_eq!(meta.col_origins, vec![0, 7, 12]);
    assert_eq!(meta.table_width, 26);

    let long = format!("h\n{}\n", "x".repeat(200));
    let out = parse_csv(long.as_bytes());
    let meta = out.csv.as_ref().unwrap();
    assert_eq!(meta.col_widths, vec![MAX_COL_CHARS]);
}

#[test]
fn cell_path_is_slice_and_select() {
    let out = parse_csv(SIMPLE);
    let pos = SIMPLE.windows(2).position(|w| w == b"sf").unwrap() as u32;
    assert_eq!(expr_at(&out, pos), "xsv slice -i 0 | xsv select city");
}

#[test]
fn header_cell_path_is_select() {
    let out = parse_csv(SIMPLE);
    assert_eq!(expr_at(&out, 0), "xsv select name");
}

#[test]
fn gutter_click_resolves_to_row() {
    let out = parse_csv(SIMPLE);
    // Offset of the comma after "alice" — the delimiter belongs to
    // no cell, so lookup walks up to the row ("alice" is the first
    // data row → index 0).
    let comma = 14 + 5;
    assert_eq!(expr_at(&out, comma), "xsv slice -i 0");
}

#[test]
fn weird_header_names_are_quoted() {
    let src = b"first name,\"a,b\"\nx,y\n";
    let out = parse_csv(src);
    let pos = src.iter().position(|&b| b == b'x').unwrap() as u32;
    assert_eq!(expr_at(&out, pos), "xsv slice -i 0 | xsv select \"first name\"");
    let pos = src.iter().position(|&b| b == b'y').unwrap() as u32;
    assert_eq!(expr_at(&out, pos), "xsv slice -i 0 | xsv select \"a,b\"");
}

#[test]
fn duplicate_and_empty_headers_go_positional() {
    let src = b"a,a,\n1,2,3\n";
    let out = parse_csv(src);
    let pos = src.iter().position(|&b| b == b'1').unwrap() as u32;
    assert_eq!(expr_at(&out, pos), "xsv slice -i 0 | xsv select a");
    let pos = src.iter().position(|&b| b == b'2').unwrap() as u32;
    assert_eq!(expr_at(&out, pos), "xsv slice -i 0 | xsv select 2");
    let pos = src.iter().position(|&b| b == b'3').unwrap() as u32;
    assert_eq!(expr_at(&out, pos), "xsv slice -i 0 | xsv select 3");
}

#[test]
fn ragged_row_gets_positional_columns() {
    let src = b"a\n1,2\n";
    let out = parse_csv(src);
    let pos = src.iter().position(|&b| b == b'2').unwrap() as u32;
    assert_eq!(expr_at(&out, pos), "xsv slice -i 0 | xsv select 2");
    let meta = out.csv.as_ref().unwrap();
    assert_eq!(meta.col_widths.len(), 2);
}

#[test]
fn root_path_is_table() {
    let out = parse_csv(b"");
    let entry = out.paths.lookup(0).unwrap();
    let path = out.paths.path_of(entry);
    assert_eq!(path_expression(&path, &out.names), "xsv table");
}

#[test]
fn value_bytes_cell_row_root() {
    let out = parse_csv(SIMPLE);
    let bytes = SIMPLE;
    // Cell: quoted field comes back verbatim, quotes included.
    let pos = bytes.windows(4).position(|w| w == b"new ").unwrap() as u32;
    let entry_idx = out.paths.lookup(pos).unwrap();
    let entry = out.paths.entries[entry_idx as usize];
    assert_eq!(value_bytes_for_entry(bytes, &entry), b"\"new york, ny\"");
    // Row: whole record without the trailing newline.
    let row_idx = out.paths.entries[entry_idx as usize].parent;
    let row = out.paths.entries[row_idx as usize];
    assert_eq!(value_bytes_for_entry(bytes, &row), b"bob,7,\"new york, ny\"");
}

#[test]
fn crlf_is_stripped_from_fields() {
    let src = b"a,b\r\n1,2\r\n";
    let out = parse_csv(src);
    let meta = out.csv.as_ref().unwrap();
    assert_eq!(meta.col_widths, vec![1, 1]);
    let pos = src.iter().position(|&b| b == b'2').unwrap() as u32;
    let entry_idx = out.paths.lookup(pos).unwrap();
    let entry = out.paths.entries[entry_idx as usize];
    assert_eq!(value_bytes_for_entry(src, &entry), b"2");
}

#[test]
fn tsv_delimiter() {
    let out = parse(b"a\tb\n1\t2\n", b'\t', None);
    let meta = out.csv.as_ref().unwrap();
    assert_eq!(meta.col_widths, vec![1, 1]);
    assert_eq!(expr_at(&out, 4), "xsv slice -i 0 | xsv select a");
}

#[test]
fn bom_is_skipped_for_header_name() {
    let src = b"\xEF\xBB\xBFa,b\n1,2\n";
    let out = parse_csv(src);
    let pos = src.iter().position(|&b| b == b'1').unwrap() as u32;
    assert_eq!(expr_at(&out, pos), "xsv slice -i 0 | xsv select a");
}

// --- layout mapping ---

fn cells_of_line(out: &ParseOutput, line: usize) -> Vec<(u32, u32)> {
    let start = out.line_starts[line];
    let next = out
        .line_starts
        .get(line + 1)
        .copied()
        .unwrap_or(u32::MAX);
    record_cells(&out.paths.entries, start, next)
}

#[test]
fn record_cells_finds_row_fields() {
    let out = parse_csv(SIMPLE);
    let cells = cells_of_line(&out, 1);
    assert_eq!(cells.len(), 3);
    assert_eq!(&SIMPLE[cells[0].0 as usize..cells[0].1 as usize], b"alice");
    assert_eq!(&SIMPLE[cells[2].0 as usize..cells[2].1 as usize], b"sf");
}

#[test]
fn visual_col_round_trip() {
    let out = parse_csv(SIMPLE);
    let meta = out.csv.as_ref().unwrap();
    let cells = cells_of_line(&out, 1);
    // Byte of "30" (col 1, origin 7).
    let b30 = SIMPLE.windows(2).position(|w| w == b"30").unwrap() as u32;
    assert_eq!(visual_col_of_byte(meta, &cells, SIMPLE, b30), 7);
    assert_eq!(visual_col_of_byte(meta, &cells, SIMPLE, b30 + 1), 8);
    // Inverse: col 7 → byte of '3'; col 8 → byte of '0'.
    assert_eq!(byte_of_visual_col(meta, &cells, SIMPLE, 7), Some(b30));
    assert_eq!(byte_of_visual_col(meta, &cells, SIMPLE, 8), Some(b30 + 1));
    // Gutter after "alice" (cols 5..6) collapses to end of field.
    assert_eq!(visual_col_of_byte(meta, &cells, SIMPLE, 14 + 5), 5);
    let back = byte_of_visual_col(meta, &cells, SIMPLE, 6).unwrap();
    assert_eq!(back, 14 + 5);
}

#[test]
fn visual_col_clamps_past_truncation() {
    let long = format!("h\n{}\n", "x".repeat(200));
    let out = parse_csv(long.as_bytes());
    let meta = out.csv.as_ref().unwrap();
    let cells = cells_of_line(&out, 1);
    let end_byte = 2 + 200;
    assert_eq!(
        visual_col_of_byte(meta, &cells, long.as_bytes(), end_byte),
        MAX_COL_CHARS
    );
    let clicked = byte_of_visual_col(meta, &cells, long.as_bytes(), 500).unwrap();
    assert_eq!(clicked, 2 + MAX_COL_CHARS); // clamped to the cap boundary
}

// --- rendering ---

#[test]
fn render_row_pads_and_colors() {
    let out = parse_csv(SIMPLE);
    let meta = out.csv.as_ref().unwrap();
    let cells = cells_of_line(&out, 1);
    let rr = render_row(meta, &cells, SIMPLE, false, 0, 1000);
    assert_eq!(rr.origin_chars, 0);
    assert_eq!(rr.text, "alice  30   sf");
    // "30" is numeric → one Number span at utf16 7..9.
    assert_eq!(rr.spans, vec![(7, 9, StyleKind::Number)]);

    let hdr = render_row(meta, &cells_of_line(&out, 0), SIMPLE, true, 0, 1000);
    assert_eq!(hdr.text, "name   age  city");
    assert!(hdr.spans.iter().all(|s| s.2 == StyleKind::Key));
}

#[test]
fn render_row_truncates_with_ellipsis() {
    let long = format!("h,k\n{},z\n", "x".repeat(200));
    let out = parse_csv(long.as_bytes());
    let meta = out.csv.as_ref().unwrap();
    let cells = cells_of_line(&out, 1);
    let rr = render_row(meta, &cells, long.as_bytes(), false, 0, 1000);
    let first: String = rr.text.chars().take(MAX_COL_CHARS as usize).collect();
    assert!(first.ends_with('…'));
    assert_eq!(first.chars().count(), MAX_COL_CHARS as usize);
    assert!(rr.text.ends_with('z'));
    // The z column starts exactly at its origin.
    assert_eq!(
        rr.text.chars().count() as u32,
        meta.col_origins[1] + 1
    );
}

#[test]
fn render_row_skips_cells_left_of_viewport() {
    let out = parse_csv(SIMPLE);
    let meta = out.csv.as_ref().unwrap();
    let cells = cells_of_line(&out, 1);
    // Viewport starts inside the "city" column (origin 12).
    let rr = render_row(meta, &cells, SIMPLE, false, 13, 1000);
    assert_eq!(rr.origin_chars, 12);
    assert_eq!(rr.text, "sf");
}

#[test]
fn render_row_substitutes_embedded_newline() {
    let src = b"a,b\n1,\"x\ny\"\n";
    let out = parse_csv(src);
    let meta = out.csv.as_ref().unwrap();
    let cells = cells_of_line(&out, 1);
    let rr = render_row(meta, &cells, src, false, 0, 1000);
    assert!(rr.text.contains('␤'));
    assert!(!rr.text.contains('\n'));
}

#[test]
fn looks_numeric_shapes() {
    assert!(looks_numeric(b"42"));
    assert!(looks_numeric(b"-1.5"));
    assert!(looks_numeric(b"+0.5e10"));
    assert!(looks_numeric(b" 7 "));
    assert!(!looks_numeric(b""));
    assert!(!looks_numeric(b"1.2.3"));
    assert!(!looks_numeric(b"12a"));
    assert!(!looks_numeric(b"-"));
    assert!(!looks_numeric(b"1e"));
}

#[test]
fn empty_input_is_sane() {
    let out = parse_csv(b"");
    assert_eq!(out.line_starts, vec![0]);
    assert_eq!(out.paths.entries.len(), 1);
    let meta = out.csv.as_ref().unwrap();
    assert!(meta.col_widths.is_empty());
    assert_eq!(meta.table_width, 0);
}


#[test]
fn unterminated_quote_runs_to_eof() {
    let src = b"a,b\n1,\"oops\n2,3\n";
    let out = parse_csv(src);
    // The unterminated quote swallows the rest — 2 records total.
    assert_eq!(out.line_starts.len(), 2);
    assert!(out.error.is_none());
}
