use std::sync::Arc;

use rapid_view::doc::{ByteSource, Document};
use rapid_view::doc_view::DocView;
use rapid_view::format::csv;
use rapid_view::format::{Format, NameInterner, PathSegment};
use rapid_view::format::{json, xml};
use rapid_view::markdown_core;
use rapid_view::search::{find_matches, SearchState};

const JSON: &[u8] = br#"
 { "a" : { "k\u0065y": [ 1, -2.5e+3, "x\"y" ], "empty": {} }, "b": [ true, null, [ ] ] }
"#;
const XML: &[u8] = b"<r><i n='1'>x</i><j/><i>y</i><!-- c --></r>";

#[test]
fn names_are_interned_once() {
    let mut names = NameInterner::new();
    let a = names.intern(b"alpha");
    let b = names.intern(b"beta");
    assert_ne!(a, b);
    assert_eq!(names.intern(b"alpha"), a);
    assert_eq!(names.get(a), b"alpha");
    assert_eq!(names.get(b), b"beta");
    assert_eq!(names.len(), 2);
}

#[test]
fn lookup_finds_the_innermost_entry() {
    for (out, len) in [(json::parse(JSON, None), JSON.len()), (xml::parse(XML, None), XML.len())] {
        for offset in 0..len as u32 {
            let found = out.paths.lookup(offset).unwrap();
            let e = out.paths.entries[found as usize];
            assert!(e.start <= offset && offset < e.end);
            for other in &out.paths.entries {
                if other.start <= offset && offset < other.end {
                    assert!(other.start <= e.start && e.end <= other.end);
                }
            }
        }
    }
}

#[test]
fn a_path_extends_its_parents_path() {
    let out = json::parse(JSON, None);
    for i in 1..out.paths.entries.len() as u32 {
        let e = out.paths.entries[i as usize];
        let mut expected = out.paths.path_of(e.parent);
        expected.push(e.segment);
        assert_eq!(out.paths.path_of(i), expected);
    }
}

#[test]
fn styles_are_sorted_and_disjoint() {
    for out in [json::parse(JSON, None), xml::parse(XML, None)] {
        for pair in out.styles.windows(2) {
            assert!(pair[0].end <= pair[1].start);
        }
        for pair in out.paths.entries.windows(2) {
            assert!(pair[0].start <= pair[1].start);
        }
    }
}

#[test]
fn every_copied_json_value_parses() {
    let out = json::parse(JSON, None);
    assert!(out.error.is_none());
    assert_eq!(out.paths.entries.len(), 11);
    for e in &out.paths.entries {
        let value = json::value_bytes_for_entry(JSON, e);
        assert!(json::parse(value, None).error.is_none());
        assert!(0 < e.end && e.start <= e.end);
    }
    assert_eq!(json::value_bytes_for_entry(JSON, &out.paths.entries[4]), b"-2.5e+3");
}

#[test]
fn keys_are_decoded() {
    let out = json::parse(JSON, None);
    match out.paths.entries[2].segment {
        PathSegment::Key(id) => assert_eq!(out.names.get(id), b"key"),
        other => panic!("unexpected segment: {:?}", other),
    }
}

#[test]
fn array_elements_are_numbered() {
    let out = json::parse(b"[[7], 8, {\"k\": 9}, 10]", None);
    let indices: Vec<u32> = out
        .paths
        .entries
        .iter()
        .filter(|e| e.parent == 0)
        .map(|e| match e.segment {
            PathSegment::Index(k) => k,
            other => panic!("unexpected segment: {:?}", other),
        })
        .collect();
    assert_eq!(indices, vec![0, 1, 2, 3]);
}

#[test]
fn paths_are_distinct() {
    let csv_out = csv::parse(b"a,b\n1,2\n3,4,5\n", b',', None);
    for out in [json::parse(JSON, None), xml::parse(XML, None), csv_out] {
        let n = out.paths.entries.len() as u32;
        for i in 0..n {
            for j in 0..i {
                assert_ne!(out.paths.path_of(i), out.paths.path_of(j));
            }
        }
    }
}

#[test]
fn csv_selectors_clash_only_over_a_number() {
    // The second column has no name, and the first is called "2".
    let out = csv::parse(b"2,\nx,y\n", b',', None);
    let keys: Vec<PathSegment> = out.paths.entries[1..3].iter().map(|e| e.segment).collect();
    assert_eq!(keys[0], keys[1]);
    match keys[0] {
        PathSegment::Key(id) => assert_eq!(out.names.get(id), b"2"),
        other => panic!("unexpected segment: {:?}", other),
    }
}

#[test]
fn csv_cells_are_one_delimiter_apart() {
    let src = b"a,\"b,c\",d\r\n1,,3\r\n";
    let out = csv::parse(src, b',', None);
    for pair in out.paths.entries.windows(2) {
        let cells = matches!((pair[0].segment, pair[1].segment), (PathSegment::Key(_), PathSegment::Key(_)));
        if cells && pair[0].parent == pair[1].parent {
            assert_eq!(src[pair[0].end as usize], b',');
            assert_eq!(pair[1].start, pair[0].end + 1);
        }
    }
}

#[test]
fn lookup_answers_everywhere() {
    for out in [json::parse(b"", None), json::parse(b"[1", None), xml::parse(b"<a", None)] {
        for offset in [0, 1, 1_000] {
            assert!(out.paths.lookup(offset).is_some());
        }
    }
}

#[test]
fn ranges_are_nested() {
    let csv_out = csv::parse(b"a,b\r\n1,2\r\n3,4,5", b',', None);
    for out in [json::parse(JSON, None), xml::parse(XML, None), csv_out] {
        for e in &out.paths.entries[1..] {
            let parent = out.paths.entries[e.parent as usize];
            assert!(parent.start <= e.start && e.end <= parent.end);
        }
    }
    let out = markdown_core::parse(b"# A\n## B\n### C\n## D\n# E\n", None);
    for e in &out.paths.entries[1..] {
        let parent = out.paths.entries[e.parent as usize];
        assert!(parent.start <= e.start && e.end <= parent.end);
    }
}

#[test]
fn xpaths_are_distinct() {
    let src = b"<r><a/><a><b/><b/></a><a1/><a>x</a></r>";
    let out = xml::parse(src, None);
    let mut seen: Vec<String> = Vec::new();
    for i in 1..out.paths.entries.len() as u32 {
        let text = xml::path_expression(&out.paths.path_of(i), &out.names);
        assert!(!seen.contains(&text));
        seen.push(text);
    }
    assert_eq!(seen[3], "/r/a[2]/b[1]");
}

#[test]
fn records_hold_every_cell_once() {
    let src = b"a,b\n1,\"x\ny\"\n2\n";
    let out = csv::parse(src, b',', None);
    let mut found = Vec::new();
    for k in 0..out.line_starts.len() {
        let next = out.line_starts.get(k + 1).copied().unwrap_or(u32::MAX);
        found.extend(csv::record_cells(&out.paths.entries, out.line_starts[k], next));
    }
    let all: Vec<(u32, u32)> = out
        .paths
        .entries
        .iter()
        .filter(|e| matches!(e.segment, PathSegment::Key(_)))
        .map(|e| (e.start, e.end))
        .collect();
    assert_eq!(found, all);
    assert_eq!(all.len(), 5);
}

#[test]
fn field_widths_count_characters() {
    for text in ["", "abc", "\u{e9}\u{20ac}\u{1f600}x"] {
        assert_eq!(csv::char_count(text.as_bytes()) as usize, text.chars().count());
    }
}

#[test]
fn top_level_sections_cover_the_document() {
    let src = b"intro\n## A\ntext\n### B\n# C\nmore\n## D";
    let out = markdown_core::parse(src, None);
    let tops: Vec<_> = out.paths.entries.iter().filter(|e| e.parent == 0).collect();
    let mut text = src[..tops[0].start as usize].to_vec();
    for e in tops {
        text.extend_from_slice(markdown_core::value_bytes_for_entry(src, e));
    }
    assert_eq!(text, src);
}

#[test]
fn ids_survive_other_names() {
    let mut names = NameInterner::new();
    let a = names.intern(b"a");
    for other in [&b"b"[..], &b"c"[..], &b"b"[..], &b"d"[..]] {
        assert_ne!(names.intern(other), a);
    }
    assert_eq!(names.intern(b"a"), a);
    assert_eq!(names.get(a), b"a");
}

#[test]
fn copied_values_hold_their_descendants() {
    let out = json::parse(JSON, None);
    let entries = &out.paths.entries;
    for (i, e) in entries.iter().enumerate() {
        let inside = |mut j: usize| loop {
            if j == i {
                return true;
            }
            if j == 0 {
                return false;
            }
            j = entries[j].parent as usize;
        };
        let descendants = (0..entries.len()).filter(|&j| j != i && inside(j)).count();
        let copied = json::parse(json::value_bytes_for_entry(JSON, e), None);
        assert_eq!(copied.paths.entries.len(), 1 + descendants);
    }
}

#[test]
fn elements_start_with_their_name() {
    let out = xml::parse(XML, None);
    for e in &out.paths.entries {
        match e.segment {
            PathSegment::Element { name, .. } => {
                let at = e.start as usize;
                assert_eq!(XML[at], b'<');
                assert!(XML[at + 1..].starts_with(out.names.get(name)));
                assert_eq!(XML[e.end as usize - 1], b'>');
            }
            PathSegment::Attribute(name) => {
                assert!(XML[e.start as usize..].starts_with(out.names.get(name)));
            }
            _ => {}
        }
    }
}

#[test]
fn sibling_indices_count_same_names() {
    let out = xml::parse(XML, None);
    let indices: Vec<u32> = out
        .paths
        .entries
        .iter()
        .filter_map(|e| match e.segment {
            PathSegment::Element { sibling_index, .. } => Some(sibling_index),
            _ => None,
        })
        .collect();
    assert_eq!(indices, vec![0, 1, 0, 2]);
    // Also when the document breaks off.
    let broken = xml::parse(b"<root><a", None);
    assert!(broken.error.is_some());
    for e in &broken.paths.entries[1..] {
        assert!(matches!(e.segment, PathSegment::Element { sibling_index: 0, .. }));
    }
}

#[test]
fn json_prettify_is_idempotent_and_keeps_content() {
    let once = json::prettify(JSON);
    assert_eq!(json::prettify(&once), once);
    let squeeze = |text: &[u8]| -> Vec<u8> { text.iter().copied().filter(|b| !b.is_ascii_whitespace()).collect() };
    assert_eq!(squeeze(&once), squeeze(JSON));
    assert_eq!(json::prettify(b"[1,2]"), json::prettify(b" [ 1 ,\n2 ] "));
}

#[test]
fn xml_prettify_keeps_content() {
    let pretty = xml::prettify(XML);
    assert!(pretty.ends_with(b"\n"));
    let squeeze = |text: &[u8]| -> Vec<u8> { text.iter().copied().filter(|b| !b.is_ascii_whitespace()).collect() };
    assert_eq!(squeeze(&pretty), squeeze(XML));
}

#[test]
fn xml_text_is_kept_as_it_is() {
    assert_eq!(xml::prettify(b"<p> a <b>c</b>\n d</p>"), b"<p> a <b>c</b>\n d</p>\n");
    assert_eq!(xml::prettify(b"<p>x<b></b></p>"), b"<p>x<b></b></p>\n");
    assert_eq!(
        xml::prettify(b"<r><p>a<b><i/></b></p><q><i/></q></r>"),
        b"<r>\n  <p>a<b><i/></b></p>\n  <q>\n    <i/>\n  </q>\n</r>\n"
    );
}

#[test]
fn prettified_json_parses_to_the_same_outline() {
    for text in [JSON, &b"1 2"[..], &b" true x"[..], &br#"{"a":{},"b":[[],"s"]} trailing"#[..]] {
        let before = json::parse(text, None);
        let after = json::parse(&json::prettify(text), None);
        assert!(before.error.is_none() && after.error.is_none());
        assert_eq!(before.paths.entries.len(), after.paths.entries.len());
        for i in 0..before.paths.entries.len() as u32 {
            let from = json::path_expression(&before.paths.path_of(i), &before.names);
            let to = json::path_expression(&after.paths.path_of(i), &after.names);
            assert_eq!(from, to);
        }
    }
}

#[test]
fn xml_prettify_is_idempotent() {
    let sources: [&[u8]; 14] = [
        XML,
        b"",
        b" \n ",
        b"</a>",
        b"x</a>y<b",
        b"<a>\n<\n</a>",
        b"a < b <c> d </c>",
        b"<r><p>a<b><i/></b></p><q><i/></q></r>",
        b"<r><!-- open --",
        b"<!DOCTYPE a [ <!ELEMENT b (c)> ",
        b"<r><![CDATA[ <x> ]]><?pi x?><a b='>'/>",
        b"<p>text\n",
        b"<p>text<b>",
        b"<a><b c=\"",
    ];
    for src in sources {
        let once = xml::prettify(src);
        assert_eq!(xml::prettify(&once), once);
    }
    assert_eq!(xml::prettify(b"x</a>y<b"), b"x\n</a>\ny\n<b\n");
}

#[test]
fn csv_cr_at_a_record_end_is_stripped() {
    for src in [&b"a,b\r"[..], b"a,b\r\n"] {
        let out = csv::parse(src, b',', None);
        let cells = csv::record_cells(&out.paths.entries, 0, u32::MAX);
        assert_eq!(cells, vec![(0, 1), (2, 3)]);
    }
    let inside = csv::parse(b"a\r,b", b',', None);
    assert_eq!(csv::record_cells(&inside.paths.entries, 0, u32::MAX), vec![(0, 2), (3, 4)]);
}

#[test]
fn csv_columns_fit_their_cells() {
    let long = "\u{e9}".repeat(70);
    let src = format!("n,\u{e9}t\u{e9}\n{},x\n,\"a,b\",z\n", long);
    let src = src.as_bytes();
    let out = csv::parse(src, b',', None);
    let meta = out.csv.as_ref().unwrap();
    assert_eq!(meta.col_widths, vec![64, 5, 1]);
    for k in 0..out.line_starts.len() {
        let next = out.line_starts.get(k + 1).copied().unwrap_or(u32::MAX);
        let cells = csv::record_cells(&out.paths.entries, out.line_starts[k], next);
        for (j, &(s, e)) in cells.iter().enumerate() {
            let chars = csv::char_count(&src[s as usize..e as usize]);
            assert!(chars.min(csv::MAX_COL_CHARS) <= meta.col_widths[j]);
            for b in s..=e {
                let boundary = b == e || src[b as usize] & 0xC0 != 0x80;
                if boundary && csv::char_count(&src[s as usize..b as usize]) <= csv::MAX_COL_CHARS {
                    let col = csv::visual_col_of_byte(meta, &cells, src, b);
                    assert_eq!(csv::byte_of_visual_col(meta, &cells, src, col), Some(b));
                }
            }
        }
    }
}

#[test]
fn csv_clicks_round_trip() {
    let src = b"name,note\nal,\"a,b\"\n";
    let out = csv::parse(src, b',', None);
    let meta = out.csv.as_ref().unwrap();
    let cells = csv::record_cells(&out.paths.entries, out.line_starts[1], out.line_starts[2]);
    assert_eq!(cells, vec![(10, 12), (13, 18)]);
    // Also at the end of a cell.
    for byte in [10, 11, 12, 13, 14, 17, 18] {
        let col = csv::visual_col_of_byte(meta, &cells, src, byte);
        assert_eq!(csv::byte_of_visual_col(meta, &cells, src, col), Some(byte));
    }
    for pair in meta.col_origins.windows(2).zip(&meta.col_widths) {
        assert!(pair.0[0] + pair.1 < pair.0[1]);
    }
}

#[test]
fn markdown_outline_nests_by_level() {
    let src = b"# A\ntext\n## B\n### C\n## D\n# E\n";
    let out = markdown_core::parse(src, None);
    assert_eq!(out.blocks.len(), 6);
    for e in &out.paths.entries[1..] {
        let parent = out.paths.entries[e.parent as usize];
        match (e.segment, parent.segment) {
            (PathSegment::Heading { level, .. }, PathSegment::Heading { level: above, .. }) => assert!(above < level),
            (PathSegment::Heading { .. }, PathSegment::Root) => {}
            other => panic!("unexpected segments: {:?}", other),
        }
    }
    // A section ends where the next one of its level or above starts.
    let ends: Vec<u32> = out.paths.entries.iter().map(|e| e.end).collect();
    assert_eq!(ends, vec![29, 25, 20, 20, 25, 29]);
}

#[test]
fn lines_hold_no_line_feed() {
    let doc = Document::from_source(Format::Json, ByteSource::from_vec(JSON.to_vec()), None);
    assert_eq!(doc.line_count(), 3);
    for k in 0..doc.line_count() {
        assert!(!doc.line_bytes(k).contains(&b'\n'));
        assert!(doc.line_bytes(k).len() <= doc.max_line_bytes as usize);
    }
    let doc = Document::from_source(Format::Xml, ByteSource::from_vec(b"<a>\n\n</a>\n".to_vec()), None);
    assert_eq!(doc.line_count(), 4);
    for k in 0..doc.line_count() {
        assert!(!doc.line_bytes(k).contains(&b'\n'));
        assert!(doc.line_bytes(k).len() <= doc.max_line_bytes as usize);
    }
}

#[test]
fn next_and_previous_match_undo_each_other() {
    let mut search = SearchState::default();
    assert_eq!(search.run(b"abcabcabc", b"abc"), 3);
    for _ in 0..4 {
        let here = search.current;
        search.next();
        search.prev();
        assert_eq!(search.current, here);
        search.next();
    }
}

#[test]
fn matches_are_complete_and_apart() {
    let hay = b"ababab-AB-ba";
    let found = find_matches(hay, b"ab");
    assert_eq!(found, vec![0, 2, 4, 7]);
    for pair in found.windows(2) {
        assert!(pair[0] + 2 <= pair[1]);
    }
}

#[test]
fn plain_clicks_round_trip() {
    let text = "{\n\"\u{e9}\u{1f600}\": 1}";
    let mut view = DocView::new();
    view.set_document(Document::from_source(Format::Json, ByteSource::from_vec(text.as_bytes().to_vec()), None));
    for (line, width) in [(0, 1), (1, 8)] {
        for col in 0..=width {
            let offset = view.point_to_byte_offset(line, col).unwrap();
            assert_eq!(view.scroll_target(offset), Some((line, col)));
        }
    }
}

#[test]
fn documents_share_their_bytes() {
    let doc = Document::from_source(Format::Json, ByteSource::from_vec(b"[]".to_vec()), None);
    let shared = Arc::clone(&doc);
    assert_eq!(shared.bytes.as_slice(), doc.bytes.as_slice());
}
