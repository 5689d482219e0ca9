//! Per-window state of the markdown viewer: the document and which of
//! its two views shows.

use std::sync::Arc;
use vstd::prelude::*;

use crate::doc::ByteSource;
use crate::markdown_core::{md_document, ProgressSink};
use crate::markview::doc::Document;
use crate::text::{is_space, is_space_char, push_text};
use crate::window::{basename, basename_of};

verus! {

/// Which view shows.
#[derive(Debug, Clone, Copy, PartialEq, Eq, Structural)]
pub enum Mode {
    Rendered,
    Source,
}

/// Parses `bytes`. `None` when they are too long for 32-bit offsets.
pub fn open_document(bytes: ByteSource, progress: Option<&ProgressSink>) -> (r: Option<Arc<Document>>)
    ensures
        r is Some <==> bytes@.len() < u32::MAX,
        r matches Some(d) ==> d.wf() && d.bytes == bytes && d.output.reports(bytes@, md_document(bytes@, true)),
{
    if bytes.len() as u64 >= u32::MAX as u64 {
        return None;
    }
    Some(Document::from_source(bytes, progress))
}

#[derive(Debug)]
pub struct WindowState {
    pub current_path: Option<String>,
    pub doc: Option<Arc<Document>>,
    pub mode: Mode,
}

impl WindowState {
    pub open spec fn wf(&self) -> bool {
        self.doc matches Some(d) ==> d.wf()
    }

    pub fn new() -> (r: Self)
        ensures
            r.wf(),
            r.doc is None,
            r.current_path is None,
            r.mode == Mode::Rendered,
    {
        WindowState { current_path: None, doc: None, mode: Mode::Rendered }
    }

    /// Whether a file can be loaded here instead of in a new tab.
    pub fn is_blank(&self) -> (r: bool)
        ensures
            r == (self.doc is None && self.current_path is None),
    {
        self.doc.is_none() && self.current_path.is_none()
    }

    /// Empties the window.
    pub fn clear(&mut self)
        ensures
            final(self).wf(),
            final(self).doc is None,
            final(self).current_path is None,
            final(self).mode == Mode::Rendered,
    {
        self.doc = None;
        self.current_path = None;
        self.mode = Mode::Rendered;
    }

    /// Starts loading the file at `path`. Returns the title to show
    /// meanwhile.
    pub fn begin_load(&mut self, path: String) -> (title: String)
        ensures
            final(self).wf(),
            final(self).doc is None,
            final(self).current_path == Some(path),
            final(self).mode == old(self).mode,
            title@ == "Markview \u{2014} loading "@ + basename_of(path@) + "\u{2026}"@,
    {
        self.doc = None;
        let mut title = String::new();
        push_text(&mut title, "Markview \u{2014} loading ");
        let name = basename(path.as_str());
        push_text(&mut title, name.as_str());
        push_text(&mut title, "\u{2026}");
        assert(title@ =~= "Markview \u{2014} loading "@ + basename_of(path@) + "\u{2026}"@);
        self.current_path = Some(path);
        title
    }

    /// Starts parsing pasted text, unless it is blank. Returns whether it
    /// did.
    pub fn begin_paste(&mut self, text: &str) -> (accepted: bool)
        ensures
            accepted == exists|i: int| 0 <= i < text@.len() && !is_space(#[trigger] text@[i]),
            !accepted ==> *final(self) == *old(self),
            accepted ==> final(self).doc is None && final(self).current_path is Some
                && final(self).current_path->0@ == "<clipboard>"@ && final(self).mode == old(self).mode,
    {
        let mut blank = true;
        for c in it: text.chars()
            invariant
                it.seq() == text@,
                blank == (forall|i: int| 0 <= i < it.index() ==> is_space(#[trigger] text@[i])),
        {
            if !is_space_char(c) {
                blank = false;
                proof {
                    assert(!is_space(text@[it.index() as int]));
                }
            }
        }
        if blank {
            return false;
        }
        self.doc = None;
        let mut label = String::new();
        push_text(&mut label, "<clipboard>");
        assert(label@ =~= "<clipboard>"@);
        self.current_path = Some(label);
        true
    }

    /// A document was loaded: it shows, rendered.
    pub fn document_ready(&mut self, doc: Arc<Document>, path: String)
        requires
            doc.wf(),
        ensures
            final(self).wf(),
            final(self).doc == Some(doc),
            final(self).current_path == Some(path),
            final(self).mode == Mode::Rendered,
    {
        self.doc = Some(doc);
        self.mode = Mode::Rendered;
        self.current_path = Some(path);
    }

    /// Switches between the rendered and the source view. Returns whether
    /// it did: without a document there is nothing to switch.
    pub fn toggle_mode(&mut self) -> (switched: bool)
        requires
            old(self).wf(),
        ensures
            final(self).wf(),
            final(self).doc == old(self).doc,
            final(self).current_path == old(self).current_path,
            switched == (old(self).doc is Some),
            final(self).mode == if old(self).doc is Some {
                other_mode(old(self).mode)
            } else {
                old(self).mode
            },
    {
        if self.doc.is_none() {
            return false;
        }
        self.mode = match self.mode {
            Mode::Rendered => Mode::Source,
            Mode::Source => Mode::Rendered,
        };
        true
    }

    /// Title of the toggle button: the view a click on it leads to.
    pub fn toggle_title(&self) -> (r: &'static str)
        ensures
            r@ == (match self.mode {
                Mode::Rendered => "Source"@,
                Mode::Source => "Rendered"@,
            }),
    {
        match self.mode {
            Mode::Rendered => "Source",
            Mode::Source => "Rendered",
        }
    }

    /// Title of the window.
    pub fn title(&self) -> (r: String)
        ensures
            r@ == match self.current_path {
                Some(p) => "Markview \u{2014} "@ + basename_of(p@),
                None => "Markview"@,
            },
    {
        let mut out = String::new();
        match &self.current_path {
            None => {
                push_text(&mut out, "Markview");
                assert(out@ =~= "Markview"@);
            },
            Some(p) => {
                push_text(&mut out, "Markview \u{2014} ");
                let name = basename(p.as_str());
                push_text(&mut out, name.as_str());
                assert(out@ =~= "Markview \u{2014} "@ + basename_of(p@));
            },
        }
        out
    }
}

/// The view that a toggle leads to.
pub open spec fn other_mode(mode: Mode) -> Mode {
    match mode {
        Mode::Rendered => Mode::Source,
        Mode::Source => Mode::Rendered,
    }
}

/// Toggling twice shows the same view again.
pub proof fn law_toggle_mode_twice(mode: Mode)
    ensures
        other_mode(other_mode(mode)) == mode,
        other_mode(mode) != mode,
{
}

} // verus!
