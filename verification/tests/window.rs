use std::sync::atomic::Ordering;

use rapid_view::doc::ByteSource;
use rapid_view::format::{Format, ProgressSink};
use rapid_view::window::{
    basename, copy_path_title, copy_subtree_title, open_document, pretty_source, reparse_document, underline_range,
    PendingJobs, PrettifyAction, WindowState,
};

fn source(text: &[u8]) -> ByteSource {
    ByteSource::from_vec(text.to_vec())
}

fn loaded(text: &[u8]) -> WindowState {
    let mut state = WindowState::new();
    state.begin_load("/tmp/data.json".to_string());
    state.document_ready(open_document(source(text), None).unwrap(), "/tmp/data.json".to_string());
    state
}

#[test]
fn spawn_prettify_round_trip() {
    let compact = source(br#"{"a":1,"b":[1,2,3]}"#);
    let pretty = pretty_source(Format::Json, &compact);
    let doc = reparse_document(Format::Json, pretty, None).unwrap();
    assert!(doc.bytes.len() >= compact.len());
    assert!(doc.output.error.is_none());
    assert!(doc.line_count() > 1);
}

#[test]
fn progress_reaches_total_on_load() {
    let bytes = source(b"{\"a\": [1, 2, 3],\n \"b\": null}\n");
    let progress = ProgressSink::new(bytes.len() as u64);
    assert_eq!(progress.bytes_done.load(Ordering::Relaxed), 0);
    let doc = open_document(bytes, Some(&progress)).unwrap();
    assert!(doc.output.error.is_none());
    assert_eq!(progress.bytes_done.load(Ordering::Relaxed), progress.total);
}

#[test]
fn progress_reaches_total_for_every_format() {
    for text in [&b"<r><a/></r>"[..], &b"[1, 2"[..], &b""[..]] {
        let progress = ProgressSink::new(text.len() as u64);
        open_document(source(text), Some(&progress)).unwrap();
        assert_eq!(progress.bytes_done.load(Ordering::Relaxed), progress.total);
    }
}

#[test]
fn opening_detects_the_format() {
    assert_eq!(open_document(source(b"  <r/>"), None).unwrap().format, Format::Xml);
    assert_eq!(open_document(source(b"{}"), None).unwrap().format, Format::Json);
    assert_eq!(reparse_document(Format::Xml, source(b"{}"), None).unwrap().format, Format::Xml);
}

#[test]
fn basename_is_the_last_component() {
    assert_eq!(basename("/a/b/c.json"), "c.json");
    assert_eq!(basename("c.json"), "c.json");
    assert_eq!(basename("/a/b/"), "b");
    assert_eq!(basename("/a/b/."), "b");
    assert_eq!(basename("<clipboard>"), "<clipboard>");
    assert_eq!(basename("/"), "/");
    assert_eq!(basename(".."), "..");
    assert_eq!(basename(""), "");
}

#[test]
fn button_titles_follow_the_format() {
    assert_eq!(copy_path_title(Format::Json), "Copy jq");
    assert_eq!(copy_path_title(Format::Xml), "Copy XPath");
    assert_eq!(copy_subtree_title(Format::Json), "Copy JSON");
    assert_eq!(copy_subtree_title(Format::Xml), "Copy XML");
}

#[test]
fn shortcut_letters_are_underlined_in_utf16() {
    assert_eq!(underline_range("Copy", 'o'), Some((1, 1)));
    assert_eq!(underline_range("\u{1f600}b", 'b'), Some((2, 1)));
    assert_eq!(underline_range("Copy", 'z'), None);
}

#[test]
fn pending_jobs_run_out() {
    let mut jobs = PendingJobs::new();
    jobs.started();
    jobs.started();
    assert!(!jobs.finished());
    assert!(jobs.finished());
    assert!(jobs.finished());
}

#[test]
fn titles_follow_the_document() {
    let mut state = WindowState::new();
    assert!(state.is_blank());
    assert_eq!(state.title(), "Rapid View");
    assert_eq!(state.begin_load("/tmp/x.json".to_string()), "Rapid View \u{2014} loading x.json\u{2026}");
    assert!(!state.is_blank());
    state.document_ready(open_document(source(b"[1]"), None).unwrap(), "/tmp/x.json".to_string());
    assert_eq!(state.title(), "Rapid View \u{2014} x.json");
    assert_eq!(state.prettify_title(), "Prettify");
    state.toggle_prettify();
    assert_eq!(state.title(), "Rapid View \u{2014} x.json \u{b7} pretty");
    assert_eq!(state.prettify_title(), "Original");
    state.clear();
    assert!(state.is_blank());
    assert!(state.view.doc.is_none());
}

#[test]
fn blank_text_is_not_pasted() {
    let mut state = WindowState::new();
    assert!(!state.begin_paste(" \n\t\u{a0}"));
    assert!(state.is_blank());
    assert!(state.begin_paste(" {} "));
    assert_eq!(state.current_path.as_deref(), Some("<clipboard>"));
}

#[test]
fn toggling_prettify_keeps_each_click() {
    let mut state = loaded(br#"{"a":[1,2]}"#);
    state.view.set_last_click_offset(Some(6));
    let (format, bytes) = match state.toggle_prettify() {
        PrettifyAction::Prettify(format, bytes) => (format, bytes),
        other => panic!("unexpected action: {:?}", other),
    };
    assert!(state.pretty_pending);
    let pretty = reparse_document(format, pretty_source(format, &bytes), None).unwrap();
    assert!(state.pretty_ready(pretty));
    assert!(!state.pretty_pending);
    assert_eq!(state.view.last_click_offset(), None);
    state.view.set_last_click_offset(Some(3));
    assert!(matches!(state.toggle_prettify(), PrettifyAction::ShowOriginal));
    assert_eq!(state.view.last_click_offset(), Some(6));
    assert_eq!(state.view.doc.as_ref().unwrap().bytes.as_slice(), br#"{"a":[1,2]}"#);
    assert!(matches!(state.toggle_prettify(), PrettifyAction::ShowPretty));
    assert_eq!(state.view.last_click_offset(), Some(3));
    assert_eq!(state.view.doc.as_ref().unwrap().bytes.as_slice(), b"{\n  \"a\": [\n    1,\n    2\n  ]\n}");
}

#[test]
fn a_pretty_form_nobody_waits_for_is_kept() {
    let mut state = loaded(b"[1]");
    assert!(matches!(state.toggle_prettify(), PrettifyAction::Prettify(Format::Json, _)));
    assert!(matches!(state.toggle_prettify(), PrettifyAction::ShowOriginal));
    let pretty = reparse_document(Format::Json, source(b"[\n  1\n]\n"), None).unwrap();
    assert!(!state.pretty_ready(pretty));
    assert_eq!(state.view.doc.as_ref().unwrap().bytes.as_slice(), b"[1]");
    assert!(matches!(state.toggle_prettify(), PrettifyAction::ShowPretty));
}

#[test]
fn toggling_without_a_document_does_nothing() {
    assert!(matches!(WindowState::new().toggle_prettify(), PrettifyAction::Nothing));
}

#[test]
fn search_labels_count_matches() {
    let mut state = loaded(br#"["abcd", "ABCD", "x"]"#);
    state.show_search();
    assert_eq!(state.run_search(""), "");
    assert_eq!(state.run_search("abc"), "Type 4+ chars\u{2026}");
    assert_eq!(state.run_search("\u{e9}\u{e9}"), "Type 4+ chars\u{2026}");
    assert_eq!(state.run_search("abcd"), "1 of 2");
    assert_eq!(state.view.last_click_offset(), Some(2));
    assert_eq!(state.search_navigate(true).unwrap(), "2 of 2");
    assert_eq!(state.search_navigate(true).unwrap(), "1 of 2");
    assert_eq!(state.search_navigate(false).unwrap(), "2 of 2");
    assert_eq!(state.run_search("zzzz"), "No matches");
    assert_eq!(state.search_navigate(true), None);
    assert_eq!(state.force_search("x").unwrap(), "1 of 1");
    assert_eq!(state.force_search(""), None);
    assert_eq!(state.rerun_search("abcd").unwrap(), "1 of 2");
    state.dismiss_search();
    assert!(!state.search_active);
    assert_eq!(state.rerun_search("abcd"), None);
    assert!(state.view.search.matches.is_empty());
}

#[test]
fn search_stops_at_its_limit() {
    let mut state = loaded(&vec![b'a'; 500_000]);
    assert_eq!(state.run_search("aaaa"), "100,000+ matches");
    assert_eq!(state.view.search.matches.len(), 100_000);
}
