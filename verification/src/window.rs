//! Per-window state of the JSON / XML viewer: the original and the
//! prettified document, which of them shows, the search bar, and the
//! titles and labels that follow from these.
//!
//! The host owns the widgets: it forwards events, performs the actions
//! that come back and shows the texts.

use std::sync::Arc;
use vstd::prelude::*;
use vstd::string::StrSliceExecFns;
use vstd::utf8::encode_utf8;

use crate::doc::{ByteSource, Document};
use crate::doc_view::DocView;
use crate::format::{document_of, format_of, pretty_of, Format, ProgressSink};
use crate::search::{next_index, occurrences, prev_index, MAX_MATCHES};
use crate::text::{
    char_utf16, chars_of, decimal, is_space, is_space_char, lemma_utf16_len_bound, lemma_utf16_len_push, len_utf16,
    push_decimal, push_text, string_of, utf16_len,
};

verus! {

// --- documents ------------------------------------------------------

/// Detects the format of `bytes` and parses them. `None` when they are
/// too long for 32-bit offsets.
pub fn open_document(bytes: ByteSource, progress: Option<&ProgressSink>) -> (r: Option<Arc<Document>>)
    ensures
        r is Some <==> bytes@.len() < u32::MAX,
        r matches Some(d) ==> d.wf() && d.bytes == bytes && d.format == format_of(bytes@) && d.output.reports(
            bytes@,
            document_of(format_of(bytes@), bytes@),
        ),
{
    let format = crate::format::detect(bytes.as_slice());
    reparse_document(format, bytes, progress)
}

/// Parses `bytes` as `format`, whatever they look like. `None` when they
/// are too long for 32-bit offsets.
pub fn reparse_document(format: Format, bytes: ByteSource, progress: Option<&ProgressSink>) -> (r: Option<
    Arc<Document>,
>)
    ensures
        r is Some <==> bytes@.len() < u32::MAX,
        r matches Some(d) ==> d.wf() && d.bytes == bytes && d.format == format && d.output.reports(
            bytes@,
            document_of(format, bytes@),
        ),
{
    if bytes.len() as u64 >= u32::MAX as u64 {
        return None;
    }
    Some(Document::from_source(format, bytes, progress))
}

/// The prettified text of a document.
pub fn pretty_source(format: Format, source: &ByteSource) -> (r: ByteSource)
    ensures
        r@ == pretty_of(format, source@),
{
    ByteSource::from_vec(crate::format::prettify(format, source.as_slice()))
}

// --- titles and labels ----------------------------------------------

/// End of `t` once trailing slashes and `/.` are dropped.
pub open spec fn path_end(t: Seq<char>, e: int) -> int
    decreases e,
{
    if 0 < e <= t.len() && t[e - 1] == '/' {
        path_end(t, e - 1)
    } else if 1 < e <= t.len() && t[e - 1] == '.' && t[e - 2] == '/' {
        path_end(t, e - 1)
    } else {
        e
    }
}

/// Start of the component that ends at `e`.
pub open spec fn component_start(t: Seq<char>, e: int) -> int
    decreases e,
{
    if 0 < e <= t.len() && t[e - 1] != '/' {
        component_start(t, e - 1)
    } else {
        e
    }
}

/// Last component of a path, the whole path when it has none: empty
/// paths, the root, and paths that end in `.` or `..`.
pub open spec fn basename_of(t: Seq<char>) -> Seq<char> {
    let e = path_end(t, t.len() as int);
    let name = t.subrange(component_start(t, e), e);
    if name.len() == 0 || name == seq!['.'] || name == seq!['.', '.'] {
        t
    } else {
        name
    }
}

/// Last component of `path`, for titles.
pub fn basename(path: &str) -> (r: String)
    ensures
        r@ == basename_of(path@),
{
    let chars = chars_of(path);
    let ghost t = path@;
    let mut e: usize = chars.len();
    while e > 0 && (chars[e - 1] == '/' || (e > 1 && chars[e - 1] == '.' && chars[e - 2] == '/'))
        invariant
            chars@ == t,
            e <= t.len(),
            path_end(t, e as int) == path_end(t, t.len() as int),
        decreases e,
    {
        e -= 1;
    }
    let mut s: usize = e;
    while s > 0 && chars[s - 1] != '/'
        invariant
            chars@ == t,
            s <= e <= t.len(),
            component_start(t, s as int) == component_start(t, e as int),
        decreases s,
    {
        s -= 1;
    }
    let name = string_of(chars.as_slice(), s, e);
    let n: usize = e - s;
    let dots = (n == 1 && chars[s] == '.') || (n == 2 && chars[s] == '.' && chars[s + 1] == '.');
    proof {
        let x = t.subrange(s as int, e as int);
        if dots && n == 1 {
            assert(x =~= seq!['.']);
        }
        if dots && n == 2 {
            assert(x =~= seq!['.', '.']);
        }
        if x == seq!['.'] {
            assert(x[0] == '.');
        }
        if x == seq!['.', '.'] {
            assert(x[0] == '.' && x[1] == '.');
        }
    }
    if n == 0 || dots {
        let whole = string_of(chars.as_slice(), 0, chars.len());
        assert(whole@ =~= t);
        whole
    } else {
        name
    }
}

/// Window title: the name of the file, and whether its pretty form
/// shows.
pub open spec fn title_of(path: Option<Seq<char>>, pretty: bool) -> Seq<char> {
    match path {
        None => "Rapid View"@,
        Some(p) => "Rapid View \u{2014} "@ + basename_of(p) + (if pretty {
            " \u{b7} pretty"@
        } else {
            Seq::empty()
        }),
    }
}

/// Label of a finished search: where the focus is and how many matches
/// there are.
pub open spec fn count_label(count: int) -> Seq<char> {
    if count == 0 {
        "No matches"@
    } else if count >= MAX_MATCHES {
        "100,000+ matches"@
    } else {
        "1 of "@ + decimal(count as nat)
    }
}

fn search_count_label(count: usize) -> (r: String)
    ensures
        r@ == count_label(count as int),
{
    let mut out = String::new();
    if count == 0 {
        push_text(&mut out, "No matches");
        assert(out@ =~= "No matches"@);
    } else if count >= MAX_MATCHES {
        push_text(&mut out, "100,000+ matches");
        assert(out@ =~= "100,000+ matches"@);
    } else {
        push_text(&mut out, "1 of ");
        push_decimal(&mut out, count as u64);
        assert(out@ =~= "1 of "@ + decimal(count as nat));
    }
    out
}

/// A label made of two parts.
fn joined(a: &str, b: &str) -> (r: String)
    ensures
        r@ == a@ + b@,
{
    let mut out = String::new();
    push_text(&mut out, a);
    push_text(&mut out, b);
    assert(out@ =~= a@ + b@);
    out
}

/// Title of the button that copies the path: `Copy jq` or `Copy XPath`.
pub fn copy_path_title(format: Format) -> (r: String)
    ensures
        r@ == "Copy "@ + (match format {
            Format::Json => "jq"@,
            Format::Xml => "XPath"@,
        }),
{
    joined("Copy ", crate::format::path_label(format))
}

/// Title of the button that copies the sub-tree: `Copy JSON` or
/// `Copy XML`.
pub fn copy_subtree_title(format: Format) -> (r: String)
    ensures
        r@ == "Copy "@ + (match format {
            Format::Json => "JSON"@,
            Format::Xml => "XML"@,
        }),
{
    joined("Copy ", crate::format::content_label(format))
}

/// ASCII lower case of a character.
pub open spec fn lower_char(c: char) -> char {
    if 'A' <= c <= 'Z' {
        ((c as u8) + 32) as u8 as char
    } else {
        c
    }
}

fn lowered(c: char) -> (r: char)
    ensures
        r == lower_char(c),
{
    if 'A' <= c && c <= 'Z' {
        ((c as u8) + 32) as char
    } else {
        c
    }
}

/// First position at or after `i` of `c`, ASCII case aside.
pub open spec fn find_char(t: Seq<char>, i: int, c: char) -> Option<int>
    decreases t.len() - i,
{
    if i < 0 || i >= t.len() {
        None
    } else if lower_char(t[i]) == lower_char(c) {
        Some(i)
    } else {
        find_char(t, i + 1, c)
    }
}

/// UTF-16 range of the character to underline in a button title: the
/// first occurrence of `c`, ASCII case aside.
pub fn underline_range(title: &str, c: char) -> (r: Option<(usize, usize)>)
    requires
        2 * title@.len() <= usize::MAX,
    ensures
        match find_char(title@, 0, c) {
            Some(i) => r == Some((utf16_len(title@.take(i)) as usize, char_utf16(title@[i]) as usize)),
            None => r is None,
        },
{
    let chars = chars_of(title);
    let ghost t = title@;
    let target = lowered(c);
    let mut units: usize = 0;
    let mut i: usize = 0;
    proof {
        assert(t.take(0) =~= Seq::<char>::empty());
    }
    while i < chars.len()
        invariant
            chars@ == t,
            t == title@,
            2 * t.len() <= usize::MAX,
            i <= t.len(),
            target == lower_char(c),
            units == utf16_len(t.take(i as int)),
            find_char(t, i as int, c) == find_char(t, 0, c),
        decreases t.len() - i,
    {
        let ch = chars[i];
        if lowered(ch) == target {
            return Some((units, len_utf16(ch)));
        }
        proof {
            assert(t.take(i + 1) =~= t.take(i as int).push(ch));
            lemma_utf16_len_push(t.take(i as int), ch);
            lemma_utf16_len_bound(t.take(i + 1));
        }
        units += len_utf16(ch);
        i += 1;
    }
    None
}

// --- outstanding work -----------------------------------------------

/// Number of outstanding worker jobs across all windows. The host polls
/// for results while there are any.
#[derive(Debug, Clone, Copy, PartialEq, Eq, Structural)]
pub struct PendingJobs {
    pub count: u32,
}

impl PendingJobs {
    pub fn new() -> (r: Self)
        ensures
            r.count == 0,
    {
        PendingJobs { count: 0 }
    }

    /// A job was spawned.
    pub fn started(&mut self)
        requires
            old(self).count < u32::MAX,
        ensures
            final(self).count == old(self).count + 1,
    {
        self.count = self.count + 1;
    }

    /// A job's last message was processed. Returns whether polling can
    /// stop.
    pub fn finished(&mut self) -> (idle: bool)
        ensures
            final(self).count == if old(self).count > 0 {
                old(self).count - 1
            } else {
                0
            },
            idle == (final(self).count == 0),
    {
        if self.count > 0 {
            self.count = self.count - 1;
        }
        self.count == 0
    }
}

// --- window state ---------------------------------------------------

/// What the host has to do after a toggle.
#[derive(Debug)]
pub enum PrettifyAction {
    /// There is no document.
    Nothing,
    /// The original shows again.
    ShowOriginal,
    /// The prettified document, which was there already, shows.
    ShowPretty,
    /// The document must be prettified first.
    Prettify(Format, ByteSource),
}

#[derive(Debug)]
pub struct WindowState {
    pub view: DocView,
    pub current_path: Option<String>,
    pub original_doc: Option<Arc<Document>>,
    pub pretty_doc: Option<Arc<Document>>,
    pub is_pretty: bool,
    pub pretty_pending: bool,
    /// Click offset to go back to in the original document.
    pub saved_original: Option<u32>,
    /// Click offset to go back to in the prettified document.
    pub saved_pretty: Option<u32>,
    /// Whether the search bar shows.
    pub search_active: bool,
}

/// A toggle leads from `s0` to `s1` and asks for `action`: back to the
/// original if the pretty form shows or is awaited; to the pretty form
/// if it is there; else the document is handed out to be prettified.
/// Each form remembers its click.
pub open spec fn toggled(s0: WindowState, s1: WindowState, action: PrettifyAction) -> bool {
    &&& s1.original_doc == s0.original_doc
    &&& s1.pretty_doc == s0.pretty_doc
    &&& s1.current_path == s0.current_path
    &&& s1.search_active == s0.search_active
    &&& s1.view.search == s0.view.search
    &&& s1.view.csv_table == s0.view.csv_table
    &&& if s0.is_pretty && s0.original_doc is Some {
        &&& action is ShowOriginal
        &&& !s1.is_pretty
        &&& s1.view.doc == s0.original_doc
        &&& s1.view.last_click == s0.saved_original
        &&& s1.saved_pretty == s0.view.last_click
        &&& s1.saved_original == s0.saved_original
        &&& s1.pretty_pending == s0.pretty_pending
    } else if !s0.is_pretty && s0.pretty_doc is Some {
        &&& action is ShowPretty
        &&& s1.is_pretty
        &&& s1.view.doc == s0.pretty_doc
        &&& s1.view.last_click == s0.saved_pretty
        &&& s1.saved_original == s0.view.last_click
        &&& s1.saved_pretty == s0.saved_pretty
        &&& s1.pretty_pending == s0.pretty_pending
    } else if !s0.is_pretty && s0.original_doc is Some {
        &&& action matches PrettifyAction::Prettify(format, bytes)
        &&& format == s0.original_doc->0.format
        &&& bytes@ == s0.original_doc->0.bytes@
        &&& s1.is_pretty
        &&& s1.pretty_pending
        &&& s1.view.doc == s0.view.doc
        &&& s1.view.last_click == s0.view.last_click
        &&& s1.saved_original == s0.view.last_click
        &&& s1.saved_pretty == s0.saved_pretty
    } else {
        action is Nothing && s1 == s0
    }
}

/// Toggling away from the original and back shows the original again,
/// with the click where it was, whether or not the pretty form was ready.
pub proof fn law_toggle_back(
    s0: WindowState,
    s1: WindowState,
    s2: WindowState,
    a1: PrettifyAction,
    a2: PrettifyAction,
)
    requires
        !s0.is_pretty,
        s0.original_doc is Some,
        s0.view.doc == s0.original_doc,
        toggled(s0, s1, a1),
        toggled(s1, s2, a2),
    ensures
        s1.is_pretty,
        !s2.is_pretty,
        s2.view.doc == s0.view.doc,
        s2.view.last_click == s0.view.last_click,
        a2 is ShowOriginal,
{
}

/// Toggling away from the pretty form and back shows it again, with the
/// click where it was.
pub proof fn law_toggle_forth(
    s0: WindowState,
    s1: WindowState,
    s2: WindowState,
    a1: PrettifyAction,
    a2: PrettifyAction,
)
    requires
        s0.is_pretty,
        s0.original_doc is Some,
        s0.pretty_doc is Some,
        s0.view.doc == s0.pretty_doc,
        toggled(s0, s1, a1),
        toggled(s1, s2, a2),
    ensures
        !s1.is_pretty,
        s2.is_pretty,
        s2.view.doc == s0.view.doc,
        s2.view.last_click == s0.view.last_click,
        a2 is ShowPretty,
{
}

/// Searching for `query` as one types leads from `s0` to `s1` and shows
/// `label`. From four characters on all matches are found and the click moves
/// to the first one; a shorter query clears the search.
pub open spec fn searched(s0: WindowState, s1: WindowState, query: Seq<char>, label: Seq<char>) -> bool {
    let needle = encode_utf8(query);
    &&& s1 == (WindowState { view: s1.view, ..s0 })
    &&& s1.view.doc == s0.view.doc
    &&& s1.view.csv_table == s0.view.csv_table
    &&& if query.len() < 4 || s0.view.doc is None {
        s1.view.search.is_clear()
    } else {
        &&& s1.view.search.matches@ == occurrences(s0.view.doc->0.bytes@, needle, 0, MAX_MATCHES as nat)
        &&& s1.view.search.match_len == needle.len()
        &&& s1.view.search.current == 0
    }
    &&& s1.view.last_click == if s1.view.search.matches@.len() > 0 {
        Some(s1.view.search.matches@[0])
    } else {
        s0.view.last_click
    }
    &&& label == if query.len() == 0 {
        Seq::empty()
    } else if query.len() < 4 {
        "Type 4+ chars\u{2026}"@
    } else {
        count_label(s1.view.search.matches@.len() as int)
    }
}

impl WindowState {
    pub open spec fn wf(&self) -> bool {
        &&& self.view.wf()
        &&& self.original_doc matches Some(d) ==> d.wf()
        &&& self.pretty_doc matches Some(d) ==> d.wf()
    }

    /// No document and no view state.
    pub open spec fn is_reset(&self) -> bool {
        &&& self.original_doc is None
        &&& self.pretty_doc is None
        &&& !self.is_pretty
        &&& !self.pretty_pending
        &&& self.saved_original is None
        &&& self.saved_pretty is None
        &&& self.view.last_click is None
        &&& self.view.search.is_clear()
        &&& self.view.csv_table
    }

    /// The path, as text.
    pub open spec fn path_text(&self) -> Option<Seq<char>> {
        match self.current_path {
            Some(p) => Some(p@),
            None => None,
        }
    }

    pub fn new() -> (r: Self)
        ensures
            r.wf(),
            r.is_reset(),
            r.current_path is None,
            r.view.doc is None,
            !r.search_active,
    {
        WindowState {
            view: DocView::new(),
            current_path: None,
            original_doc: None,
            pretty_doc: None,
            is_pretty: false,
            pretty_pending: false,
            saved_original: None,
            saved_pretty: None,
            search_active: false,
        }
    }

    /// Reset document state back to blank. What the view shows stays
    /// until a new document arrives.
    pub fn reset_doc_state(&mut self)
        requires
            old(self).wf(),
        ensures
            final(self).wf(),
            final(self).is_reset(),
            final(self).view.doc == old(self).view.doc,
            final(self).current_path == old(self).current_path,
            final(self).search_active == old(self).search_active,
    {
        self.original_doc = None;
        self.pretty_doc = None;
        self.is_pretty = false;
        self.pretty_pending = false;
        self.saved_original = None;
        self.saved_pretty = None;
        self.view.set_last_click_offset(None);
        self.view.clear_search();
        self.view.reset_table_mode();
    }

    /// Whether a file can be loaded here instead of in a new tab.
    pub fn is_blank(&self) -> (r: bool)
        ensures
            r == (self.original_doc is None && self.current_path is None),
    {
        self.original_doc.is_none() && self.current_path.is_none()
    }

    /// Empties the window.
    pub fn clear(&mut self)
        requires
            old(self).wf(),
        ensures
            final(self).wf(),
            final(self).is_reset(),
            final(self).current_path is None,
            final(self).view.doc is None,
            final(self).search_active == old(self).search_active,
    {
        self.reset_doc_state();
        self.current_path = None;
        self.view.clear_document();
    }

    /// Starts loading the file at `path`. Returns the title to show
    /// meanwhile.
    pub fn begin_load(&mut self, path: String) -> (title: String)
        requires
            old(self).wf(),
        ensures
            final(self).wf(),
            final(self).is_reset(),
            final(self).current_path == Some(path),
            final(self).view.doc == old(self).view.doc,
            final(self).search_active == old(self).search_active,
            title@ == "Rapid View \u{2014} loading "@ + basename_of(path@) + "\u{2026}"@,
    {
        self.reset_doc_state();
        let mut title = String::new();
        push_text(&mut title, "Rapid View \u{2014} loading ");
        let name = basename(path.as_str());
        push_text(&mut title, name.as_str());
        push_text(&mut title, "\u{2026}");
        assert(title@ =~= "Rapid View \u{2014} loading "@ + basename_of(path@) + "\u{2026}"@);
        self.current_path = Some(path);
        title
    }

    /// Starts parsing pasted text, unless it is blank. Returns whether it
    /// did.
    pub fn begin_paste(&mut self, text: &str) -> (accepted: bool)
        requires
            old(self).wf(),
        ensures
            final(self).wf(),
            accepted == exists|i: int| 0 <= i < text@.len() && !is_space(#[trigger] text@[i]),
            !accepted ==> *final(self) == *old(self),
            accepted ==> final(self).is_reset() && final(self).path_text() == Some("<clipboard>"@)
                && final(self).view.doc == old(self).view.doc && final(self).search_active
                == old(self).search_active,
    {
        let mut blank = true;
        for c in it: text.chars()
            invariant
                it.seq() == text@,
                blank == (forall|i: int| 0 <= i < it.index() ==> is_space(#[trigger] text@[i])),
        {
            if !is_space_char(c) {
                blank = false;
                proof {
                    assert(!is_space(text@[it.index() as int]));
                }
            }
        }
        if blank {
            return false;
        }
        self.reset_doc_state();
        let mut label = String::new();
        push_text(&mut label, "<clipboard>");
        assert(label@ =~= "<clipboard>"@);
        self.current_path = Some(label);
        true
    }

    /// Switches between the original and the prettified document. Each
    /// remembers its click. A document that has not been prettified yet
    /// is handed out for that; the original shows until it is ready.
    pub fn toggle_prettify(&mut self) -> (action: PrettifyAction)
        requires
            old(self).wf(),
        ensures
            final(self).wf(),
            toggled(*old(self), *final(self), action),
    {
        let click = self.view.last_click_offset();
        if self.is_pretty {
            match &self.original_doc {
                Some(d) => {
                    self.saved_pretty = click;
                    self.is_pretty = false;
                    self.view.set_document(d.clone());
                    self.view.set_last_click_offset(self.saved_original);
                    PrettifyAction::ShowOriginal
                },
                None => PrettifyAction::Nothing,
            }
        } else {
            match &self.pretty_doc {
                Some(d) => {
                    self.saved_original = click;
                    self.is_pretty = true;
                    self.view.set_document(d.clone());
                    self.view.set_last_click_offset(self.saved_pretty);
                    PrettifyAction::ShowPretty
                },
                None => match &self.original_doc {
                    Some(d) => {
                        self.saved_original = click;
                        self.is_pretty = true;
                        self.pretty_pending = true;
                        PrettifyAction::Prettify(d.format, d.bytes.clone())
                    },
                    None => PrettifyAction::Nothing,
                },
            }
        }
    }

    /// A document was loaded: it replaces whatever the window held.
    pub fn document_ready(&mut self, doc: Arc<Document>, path: String)
        requires
            old(self).wf(),
            doc.wf(),
        ensures
            final(self).wf(),
            final(self).original_doc == Some(doc),
            final(self).view.doc == Some(doc),
            final(self).current_path == Some(path),
            final(self).pretty_doc is None,
            !final(self).is_pretty,
            !final(self).pretty_pending,
            final(self).saved_original is None,
            final(self).saved_pretty is None,
            final(self).view.last_click is None,
            final(self).view.search.is_clear(),
            final(self).view.csv_table,
            final(self).search_active == old(self).search_active,
    {
        self.reset_doc_state();
        self.original_doc = Some(doc.clone());
        self.current_path = Some(path);
        self.view.set_document(doc);
    }

    /// A prettified document is ready. It shows if the pretty form is
    /// still asked for, from the top; else it is kept for the next toggle.
    /// Returns whether it shows.
    pub fn pretty_ready(&mut self, doc: Arc<Document>) -> (shown: bool)
        requires
            old(self).wf(),
            doc.wf(),
        ensures
            final(self).wf(),
            final(self).pretty_doc == Some(doc),
            !final(self).pretty_pending,
            final(self).is_pretty == old(self).is_pretty,
            final(self).original_doc == old(self).original_doc,
            final(self).current_path == old(self).current_path,
            final(self).saved_original == old(self).saved_original,
            final(self).saved_pretty == old(self).saved_pretty,
            final(self).search_active == old(self).search_active,
            final(self).view.search == old(self).view.search,
            final(self).view.csv_table == old(self).view.csv_table,
            shown == old(self).is_pretty,
            shown ==> final(self).view.doc == Some(doc) && final(self).view.last_click is None,
            !shown ==> final(self).view.doc == old(self).view.doc && final(self).view.last_click
                == old(self).view.last_click,
    {
        self.pretty_doc = Some(doc.clone());
        self.pretty_pending = false;
        if self.is_pretty {
            self.view.set_document(doc);
            self.view.set_last_click_offset(None);
        }
        self.is_pretty
    }

    /// Title of the prettify button: what a click on it leads to.
    pub fn prettify_title(&self) -> (r: &'static str)
        ensures
            r@ == if self.is_pretty {
                "Original"@
            } else {
                "Prettify"@
            },
    {
        if self.is_pretty {
            "Original"
        } else {
            "Prettify"
        }
    }

    /// Title of the window.
    pub fn title(&self) -> (r: String)
        ensures
            r@ == title_of(self.path_text(), self.is_pretty),
    {
        let mut out = String::new();
        match &self.current_path {
            None => {
                push_text(&mut out, "Rapid View");
                assert(out@ =~= "Rapid View"@);
            },
            Some(p) => {
                push_text(&mut out, "Rapid View \u{2014} ");
                let name = basename(p.as_str());
                push_text(&mut out, name.as_str());
                if self.is_pretty {
                    push_text(&mut out, " \u{b7} pretty");
                }
                assert(out@ =~= title_of(self.path_text(), self.is_pretty));
            },
        }
        out
    }

    /// Opens the search bar.
    pub fn show_search(&mut self)
        ensures
            *final(self) == (WindowState { search_active: true, ..*old(self) }),
    {
        self.search_active = true;
    }

    /// Closes the search bar and forgets the search.
    pub fn dismiss_search(&mut self)
        requires
            old(self).wf(),
        ensures
            final(self).wf(),
            *final(self) == (WindowState { view: final(self).view, search_active: false, ..*old(self) }),
            final(self).view == (DocView { search: final(self).view.search, ..old(self).view }),
            final(self).view.search.is_clear(),
    {
        self.search_active = false;
        self.view.clear_search();
    }

    /// The query changed. Searches as one types, from four characters on,
    /// and focuses the first match; returns the label to show.
    pub fn run_search(&mut self, query: &str) -> (label: String)
        requires
            old(self).wf(),
            encode_utf8(query@).len() <= u32::MAX,
        ensures
            final(self).wf(),
            searched(*old(self), *final(self), query@, label@),
    {
        proof {
            lemma_encode_empty(query@);
        }
        if query.unicode_len() < 4 {
            self.view.clear_search();
            let mut label = String::new();
            if !query.is_empty() {
                push_text(&mut label, "Type 4+ chars\u{2026}");
            }
            proof {
                if query@.len() == 0 {
                    assert(label@ =~= Seq::<char>::empty());
                } else {
                    assert(label@ =~= "Type 4+ chars\u{2026}"@);
                }
            }
            return label;
        }
        let count = self.view.search(query);
        if count > 0 {
            let _ = self.view.scroll_to_current_match();
        }
        search_count_label(count)
    }

    /// The query was committed: searches whatever its length. `None`, and
    /// nothing changes, when it is empty.
    pub fn force_search(&mut self, query: &str) -> (label: Option<String>)
        requires
            old(self).wf(),
            encode_utf8(query@).len() <= u32::MAX,
        ensures
            final(self).wf(),
            *final(self) == (WindowState { view: final(self).view, ..*old(self) }),
            final(self).view == (DocView { search: final(self).view.search, ..old(self).view }),
            query@.len() == 0 ==> label is None && final(self).view.search == old(self).view.search,
            query@.len() > 0 ==> {
                &&& label matches Some(l) && l@ == count_label(final(self).view.search.matches@.len() as int)
                &&& match old(self).view.doc {
                    Some(d) => {
                        &&& final(self).view.search.matches@ == occurrences(
                            d.bytes@,
                            encode_utf8(query@),
                            0,
                            MAX_MATCHES as nat,
                        )
                        &&& final(self).view.search.match_len == encode_utf8(query@).len()
                        &&& final(self).view.search.current == 0
                    },
                    None => final(self).view.search.is_clear(),
                }
            },
    {
        if query.is_empty() {
            return None;
        }
        let count = self.view.search(query);
        Some(search_count_label(count))
    }

    /// Searches the document that shows now again, if the search bar is
    /// open. Returns the label to show.
    pub fn rerun_search(&mut self, query: &str) -> (label: Option<String>)
        requires
            old(self).wf(),
            encode_utf8(query@).len() <= u32::MAX,
        ensures
            final(self).wf(),
            label is Some <==> old(self).search_active,
            !old(self).search_active ==> *final(self) == *old(self),
            label matches Some(l) ==> searched(*old(self), *final(self), query@, l@),
    {
        if self.search_active {
            Some(self.run_search(query))
        } else {
            None
        }
    }

    /// Moves the focus to the next or the previous match. Returns the
    /// label to show, or `None` if there are no matches.
    pub fn search_navigate(&mut self, forward: bool) -> (label: Option<String>)
        requires
            old(self).wf(),
        ensures
            final(self).wf(),
            *final(self) == (WindowState { view: final(self).view, ..*old(self) }),
            final(self).view.doc == old(self).view.doc,
            final(self).view.csv_table == old(self).view.csv_table,
            final(self).view.search.matches == old(self).view.search.matches,
            final(self).view.search.match_len == old(self).view.search.match_len,
            ({
                let n = old(self).view.search.matches@.len() as int;
                let i = old(self).view.search.current as int;
                let j = if forward {
                    next_index(i, n)
                } else {
                    prev_index(i, n)
                };
                &&& final(self).view.search.current == j
                &&& n == 0 ==> label is None && final(self).view.last_click == old(self).view.last_click
                &&& n > 0 ==> final(self).view.last_click == Some(old(self).view.search.matches@[j])
                &&& n > 0 ==> label is Some && label->0@ == decimal((j + 1) as nat) + " of "@ + decimal(n as nat)
            }),
    {
        let result = if forward {
            self.view.search_next()
        } else {
            self.view.search_prev()
        };
        match result {
            Some((index, total)) => {
                let mut label = String::new();
                push_decimal(&mut label, index as u64 + 1);
                push_text(&mut label, " of ");
                push_decimal(&mut label, total as u64);
                assert(label@ =~= decimal((index + 1) as nat) + " of "@ + decimal(total as nat));
                Some(label)
            },
            None => None,
        }
    }
}

/// Only the empty text has no bytes.
proof fn lemma_encode_empty(t: Seq<char>)
    ensures
        t.len() == 0 <==> encode_utf8(t).len() == 0,
{
    if t.len() > 0 {
        vstd::utf8::char_is_scalar(t[0]);
    }
}

} // verus!
