//! State of the JSON-only view: a document view whose documents are JSON.

use std::sync::Arc;
use vstd::prelude::*;
use vstd::utf8::encode_utf8;

use crate::columns::{char_col, clip_col, line_chars, prefix_bytes};
use crate::doc::{line_text, Document};
use crate::doc_view::{bands_on, countable, cursor_at, drawn_plain, offset_near, path_at, subtree_at, DocView};
use crate::format::json::jq_path;
use crate::format::Format;
use crate::search::{next_index, occurrences, prev_index, MAX_MATCHES};
use crate::sorted::line_of;
use crate::text::shown_text;

pub use crate::doc_view::{DrawnLine, KeyAction, MatchBand};
pub use crate::search::SearchState;
pub use crate::sorted::line_for_offset;

verus! {

#[derive(Debug)]
pub struct JsonView {
    pub view: DocView,
}

impl JsonView {
    /// The document, if any, is a JSON document.
    pub open spec fn wf(&self) -> bool {
        &&& self.view.wf()
        &&& self.view.doc matches Some(d) ==> d.format == Format::Json && d.output.csv is None
    }

    pub fn new() -> (r: Self)
        ensures
            r.wf(),
            r.view.doc is None,
            r.view.last_click is None,
            r.view.search.is_clear(),
    {
        JsonView { view: DocView::new() }
    }

    /// Shows `doc`. Click and search stay.
    pub fn set_document(&mut self, doc: Arc<Document>)
        requires
            old(self).wf(),
            doc.wf(),
            doc.format == Format::Json,
            doc.output.csv is None,
        ensures
            final(self).wf(),
            final(self).view.doc == Some(doc),
            final(self).view.last_click == old(self).view.last_click,
            final(self).view.search == old(self).view.search,
    {
        self.view.set_document(doc);
    }

    pub fn last_click_offset(&self) -> (r: Option<u32>)
        ensures
            r == self.view.last_click,
    {
        self.view.last_click_offset()
    }

    pub fn set_last_click_offset(&mut self, offset: Option<u32>)
        requires
            old(self).wf(),
        ensures
            final(self).wf(),
            final(self).view.last_click == offset,
            final(self).view.doc == old(self).view.doc,
            final(self).view.search == old(self).view.search,
    {
        self.view.set_last_click_offset(offset);
    }

    /// Run a case-insensitive search. Returns the match count.
    pub fn search(&mut self, query: &str) -> (n: usize)
        requires
            old(self).wf(),
            encode_utf8(query@).len() <= u32::MAX,
        ensures
            final(self).wf(),
            final(self).view.doc == old(self).view.doc,
            final(self).view.last_click == old(self).view.last_click,
            n == final(self).view.search.matches@.len(),
            match old(self).view.doc {
                Some(d) if query@.len() > 0 => {
                    &&& final(self).view.search.matches@ == occurrences(
                        d.bytes@,
                        encode_utf8(query@),
                        0,
                        MAX_MATCHES as nat,
                    )
                    &&& final(self).view.search.match_len == encode_utf8(query@).len()
                    &&& final(self).view.search.current == 0
                },
                _ => final(self).view.search.is_clear(),
            },
    {
        self.view.search(query)
    }

    /// Clear all search highlights.
    pub fn clear_search(&mut self)
        requires
            old(self).wf(),
        ensures
            final(self).wf(),
            final(self).view.search.is_clear(),
            final(self).view.doc == old(self).view.doc,
            final(self).view.last_click == old(self).view.last_click,
    {
        self.view.clear_search();
    }

    /// Move to the next match. Returns the new index and the total, or
    /// `None` if there are no matches.
    pub fn search_next(&mut self) -> (r: Option<(usize, usize)>)
        requires
            old(self).wf(),
        ensures
            final(self).wf(),
            final(self).view.doc == old(self).view.doc,
            final(self).view.search.matches == old(self).view.search.matches,
            final(self).view.search.match_len == old(self).view.search.match_len,
            final(self).view.search.current == next_index(
                old(self).view.search.current as int,
                old(self).view.search.matches@.len() as int,
            ),
            old(self).view.search.matches@.len() == 0 ==> r is None && final(self).view.last_click
                == old(self).view.last_click,
            old(self).view.search.matches@.len() > 0 ==> r == Some(
                (final(self).view.search.current, old(self).view.search.matches@.len() as usize),
            ) && final(self).view.last_click == Some(
                old(self).view.search.matches@[final(self).view.search.current as int],
            ),
    {
        self.view.search_next()
    }

    /// Move to the previous match.
    pub fn search_prev(&mut self) -> (r: Option<(usize, usize)>)
        requires
            old(self).wf(),
        ensures
            final(self).wf(),
            final(self).view.doc == old(self).view.doc,
            final(self).view.search.matches == old(self).view.search.matches,
            final(self).view.search.match_len == old(self).view.search.match_len,
            final(self).view.search.current == prev_index(
                old(self).view.search.current as int,
                old(self).view.search.matches@.len() as int,
            ),
            old(self).view.search.matches@.len() == 0 ==> r is None && final(self).view.last_click
                == old(self).view.last_click,
            old(self).view.search.matches@.len() > 0 ==> r == Some(
                (final(self).view.search.current, old(self).view.search.matches@.len() as usize),
            ) && final(self).view.last_click == Some(
                old(self).view.search.matches@[final(self).view.search.current as int],
            ),
    {
        self.view.search_prev()
    }

    /// Moves the click to the focused match and returns its offset, for
    /// the host to scroll to.
    pub fn scroll_to_current_match(&mut self) -> (r: Option<u32>)
        requires
            old(self).wf(),
        ensures
            final(self).wf(),
            final(self).view.doc == old(self).view.doc,
            final(self).view.search == old(self).view.search,
            old(self).view.search.matches@.len() == 0 ==> r is None && final(self).view.last_click
                == old(self).view.last_click,
            old(self).view.search.matches@.len() > 0 ==> r == Some(
                old(self).view.search.matches@[old(self).view.search.current as int],
            ) && final(self).view.last_click == r,
    {
        self.view.scroll_to_current_match()
    }

    /// Drop the current document and reset the click.
    pub fn clear_document(&mut self)
        requires
            old(self).wf(),
        ensures
            final(self).wf(),
            final(self).view.doc is None,
            final(self).view.last_click is None,
            final(self).view.search == old(self).view.search,
    {
        self.view.clear_document();
    }

    /// JSON sub-tree at the last-clicked offset. Falls back to the entire
    /// document when there's no click (or no entry containing it). `None`
    /// when no document is loaded.
    pub fn current_json_subtree(&self) -> (r: Option<String>)
        requires
            self.wf(),
        ensures
            match self.view.doc {
                Some(d) => r matches Some(s) && s@ == shown_text(subtree_at(*d, self.view.last_click)),
                None => r is None,
            },
    {
        self.view.current_subtree()
    }

    /// jq expression for the last-clicked offset. `.` when nothing has
    /// been clicked.
    pub fn current_jq_expression(&self) -> (r: String)
        requires
            self.wf(),
        ensures
            r@ == match self.view.doc {
                Some(d) => jq_path(path_at(*d, self.view.last_click), d.output.names@),
                None => seq!['.'],
            },
    {
        self.view.current_path_expression()
    }

    /// Performs the cursor movement a key asks for; other actions are the
    /// host's.
    pub fn apply_key(&mut self, action: KeyAction)
        requires
            old(self).wf(),
        ensures
            final(self).wf(),
            final(self).view.doc == old(self).view.doc,
            final(self).view.search == old(self).view.search,
            final(self).view.last_click == match old(self).view.doc {
                Some(d) => {
                    let starts = d.output.line_starts@;
                    let (line, col) = cursor_at(starts, old(self).view.last_click);
                    match action {
                        KeyAction::Move { dline, dcol } => Some(offset_near(*d, line + dline, col + dcol) as u32),
                        KeyAction::LineStart => Some(starts[line]),
                        KeyAction::LineEnd => Some((starts[line] + line_text(d.bytes@, starts, line).len()) as u32),
                        KeyAction::Top => Some(offset_near(*d, 0, 0) as u32),
                        KeyAction::Bottom => Some(offset_near(*d, starts.len() - 1, 0) as u32),
                        _ => old(self).view.last_click,
                    }
                },
                None => old(self).view.last_click,
            },
    {
        self.view.apply_key(action);
    }

    /// Byte offset for a click on `line` at character column `col`.
    pub fn point_to_byte_offset(&self, line: usize, col: u32) -> (r: Option<u32>)
        requires
            self.wf(),
        ensures
            match self.view.doc {
                Some(d) if line < d.output.line_starts@.len() => {
                    let starts = d.output.line_starts@;
                    let t = line_chars(line_text(d.bytes@, starts, line as int));
                    let off = starts[line as int] + prefix_bytes(t, clip_col(t, col as int));
                    r == Some(off as u32) && off <= u32::MAX
                },
                _ => r is None,
            },
    {
        self.view.point_to_byte_offset(line, col)
    }

    /// Line and column at which `offset` is drawn, for the host to scroll
    /// to.
    pub fn scroll_target(&self, offset: u32) -> (r: Option<(usize, u32)>)
        requires
            self.wf(),
        ensures
            match self.view.doc {
                Some(d) => {
                    let starts = d.output.line_starts@;
                    let line = line_of(starts, offset as int);
                    r matches Some((l, c)) && l == line && c == char_col(
                        line_text(d.bytes@, starts, line),
                        offset - starts[line],
                    )
                },
                None => r is None,
            },
    {
        self.view.scroll_target(offset)
    }

    /// Line that the last click is on, for the row highlight.
    pub fn clicked_line(&self) -> (r: Option<usize>)
        requires
            self.wf(),
        ensures
            match (self.view.doc, self.view.last_click) {
                (Some(d), Some(off)) => r == Some(line_of(d.output.line_starts@, off as int) as usize),
                _ => r is None,
            },
    {
        self.view.clicked_line()
    }

    /// Bands to draw behind the search matches on `line`, within the
    /// visible columns.
    pub fn match_bands(&self, line: usize, vis_start: u32, vis_end: u32) -> (r: Vec<MatchBand>)
        requires
            self.wf(),
            vis_start <= vis_end,
        ensures
            r@ == match self.view.doc {
                Some(d) if line < d.output.line_starts@.len() => bands_on(
                    *d,
                    false,
                    self.view.search,
                    line as int,
                    vis_start as int,
                    vis_end as int,
                ),
                _ => Seq::empty(),
            },
    {
        self.view.match_bands(line, vis_start, vis_end)
    }

    /// What to draw on `line` within the visible columns: `None` when the
    /// line has no text.
    pub fn drawn_line(&self, line: usize, vis_start: u32, vis_end: u32) -> (r: Option<DrawnLine>)
        requires
            self.wf(),
            vis_start <= vis_end,
            self.view.doc matches Some(d) ==> countable(*d),
        ensures
            match self.view.doc {
                Some(d) if line < d.output.line_starts@.len() && line_chars(
                    line_text(d.bytes@, d.output.line_starts@, line as int),
                ).len() > 0 => r matches Some(x) && x.col == vis_start && (x.text@, x.spans@) == drawn_plain(
                    *d,
                    line as int,
                    vis_start as int,
                    vis_end as int,
                ),
                _ => r is None,
            },
    {
        self.view.drawn_line(line, vis_start, vis_end)
    }
}

} // verus!
