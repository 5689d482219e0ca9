//! Streaming XML tokenizer and prettifier.
//!
//! Produces the same output shape as the JSON parser, so a renderer does
//! not care which format it draws. The path formatter emits XPath;
//! sub-tree extraction returns the whole element `<tag>...</tag>` for
//! elements and the attribute value for attributes.
//!
//! Lenient: malformed tags are skipped rather than aborting.

use std::collections::HashMap;
use vstd::prelude::*;
use vstd::slice::slice_subrange;

use crate::ascii::{
    APOS, BANG, COLON, DOT, EQUALS, GT, LBRACKET, LF, LOWER_A, LOWER_Z, LT, MINUS, NINE, QUESTION, QUOTE, RBRACKET,
    SLASH, UNDERSCORE, UPPER_A, UPPER_Z, ZERO,
};
use crate::bytes::{
    find_byte, find_bytes, find_from, find_past_byte, has_prefix_at, index_from, is_ws, is_ws_byte, lemma_find_from,
    lemma_index_from, lemma_line_starts, lemma_skip_ws_bounds, line_starts_in, occurs_at, past_byte, push_bytes,
    skip_ws_at, skip_ws_from, trim_bytes, trimmed,
};
use crate::format::cursor::{byte_at, Cursor};
use crate::format::{
    intern_id, NameInterner, ParseError, ParseErrorKind, ParseOutput, PathEntry, PathIndex, PathSegment, entry_text,
    slice_of_entry, ProgressSink, ScanState, Step, StyleKind, StyleSpan, ROOT_PARENT,
};
use crate::format::json::{line_indent, write_indent};
use crate::format::nesting::segment_named;
use crate::format::xml_laws::law_xml_indexes;
use crate::text::{decimal, push_decimal, push_utf8, text_or_replacement};

verus! {

broadcast use vstd::std_specs::hash::group_hash_axioms;

// --- grammar --------------------------------------------------------

pub open spec fn is_name_start(b: u8) -> bool {
    UPPER_A <= b <= UPPER_Z || LOWER_A <= b <= LOWER_Z || b == UNDERSCORE || b == COLON || b >= 0x80
}

pub open spec fn is_name_char(b: u8) -> bool {
    is_name_start(b) || ZERO <= b <= NINE || b == MINUS || b == DOT
}

/// End of the run of name characters at `i`.
pub open spec fn name_end(s: Seq<u8>, i: int) -> int
    decreases s.len() - i,
{
    if 0 <= i < s.len() && is_name_char(s[i]) {
        name_end(s, i + 1)
    } else {
        i
    }
}

pub open spec fn pi_close() -> Seq<u8> {
    seq![QUESTION, GT]
}

pub open spec fn comment_open() -> Seq<u8> {
    seq![MINUS, MINUS]
}

pub open spec fn comment_close() -> Seq<u8> {
    seq![MINUS, MINUS, GT]
}

/// `[CDATA[`
pub open spec fn cdata_open() -> Seq<u8> {
    seq![LBRACKET, 0x43u8, 0x44u8, 0x41u8, 0x54u8, 0x41u8, LBRACKET]
}

pub open spec fn cdata_close() -> Seq<u8> {
    seq![RBRACKET, RBRACKET, GT]
}

/// End of the construct that `pat` closes, searching from `i`; the end
/// of the input when it is not closed.
pub open spec fn closed_by(s: Seq<u8>, i: int, pat: Seq<u8>) -> int {
    match find_from(s, i, pat) {
        Some(k) => k + pat.len(),
        None => s.len() as int,
    }
}

/// End of the declaration `<!...>`, scanned from `i` with `depth` open
/// brackets: the first `>` outside quotes and brackets.
pub open spec fn doctype_end(s: Seq<u8>, i: int, depth: int) -> int
    decreases s.len() - i,
{
    proof {
        if 0 <= i < s.len() {
            lemma_index_from(s, i + 1, s[i]);
        }
    }
    if i < 0 || i >= s.len() {
        i
    } else if s[i] == QUOTE || s[i] == APOS {
        doctype_end(s, past_byte(s, i + 1, s[i]), depth)
    } else if s[i] == LBRACKET {
        doctype_end(s, i + 1, depth + 1)
    } else if s[i] == RBRACKET {
        doctype_end(s, i + 1, depth - 1)
    } else if s[i] == GT && depth <= 0 {
        i + 1
    } else {
        doctype_end(s, i + 1, depth)
    }
}

/// End of an unquoted attribute value at `i`.
pub open spec fn unquoted_end(s: Seq<u8>, i: int) -> int
    decreases s.len() - i,
{
    if 0 <= i < s.len() && !is_ws(s[i]) && s[i] != GT && s[i] != SLASH {
        unquoted_end(s, i + 1)
    } else {
        i
    }
}

/// End of the attribute value at `i`, quotes included.
pub open spec fn attr_value_end(s: Seq<u8>, i: int) -> int {
    if byte_at(s, i) == Some(QUOTE) || byte_at(s, i) == Some(APOS) {
        past_byte(s, i + 1, s[i])
    } else {
        unquoted_end(s, i)
    }
}

/// Name of an element segment.
pub open spec fn element_name(segment: PathSegment) -> Option<u32> {
    match segment {
        PathSegment::Element { name, .. } => Some(name),
        _ => None,
    }
}

/// Number of elements called `name` directly under `parent`.
pub open spec fn sibling_count(paths: Seq<PathEntry>, parent: u32, name: u32) -> nat
    decreases paths.len(),
{
    if paths.len() == 0 {
        0
    } else {
        let before = sibling_count(paths.drop_last(), parent, name);
        if element_name(paths.last().segment) == Some(name) && paths.last().parent == parent {
            before + 1
        } else {
            before
        }
    }
}

/// Parser state: the indexes and the entries of the open elements, the
/// root first.
pub struct XmlState {
    pub st: ScanState,
    pub stack: Seq<u32>,
}

impl XmlState {
    pub open spec fn at(self, pos: int) -> XmlState {
        XmlState { st: self.st.at(pos), ..self }
    }
}

pub struct XmlStep {
    pub x: XmlState,
    pub err: Option<ParseError>,
}

/// A span of kind `kind` from the current position to `end`.
pub open spec fn xml_span(x: XmlState, end: int, kind: StyleKind) -> XmlState {
    XmlState { st: x.st.styled(x.st.pos, end, kind).at(end), ..x }
}

/// The attribute at the current position, under element `parent`.
pub open spec fn xml_attribute(s: Seq<u8>, st: ScanState, parent: u32) -> ScanState {
    let a = st.pos;
    let n = name_end(s, a);
    let name = s.subrange(a, n);
    let segment = PathSegment::Attribute(intern_id(st.names, name) as u32);
    let named = st.with_name(name).styled(a, n, StyleKind::AttrName);
    let w = skip_ws_from(s, n);
    if byte_at(s, w) != Some(EQUALS) {
        named.spanned(a, n, parent, segment).at(w)
    } else {
        let v = skip_ws_from(s, w + 1);
        let e = attr_value_end(s, v);
        named.styled(v, e, StyleKind::AttrValue).spanned(a, e, parent, segment).at(e)
    }
}

/// What follows a tag name: attributes up to `>` or `/>`. The flag tells
/// whether the element closed itself.
pub open spec fn xml_attributes(s: Seq<u8>, st: ScanState, elem: u32) -> (Step, bool)
    decreases s.len() - st.pos,
{
    proof {
        if 0 <= st.pos <= s.len() {
            lemma_skip_ws_bounds(s, st.pos);
            lemma_attribute_moves(s, st.at(skip_ws_from(s, st.pos)), elem);
        }
    }
    let w = skip_ws_from(s, st.pos);
    if st.pos < 0 || w >= s.len() {
        (st.at(w).failed(ParseErrorKind::UnexpectedEof), false)
    } else if s[w] == GT {
        (st.at(w + 1).done(), false)
    } else if s[w] == SLASH && byte_at(s, w + 1) == Some(GT) {
        (st.at(w + 2).done(), true)
    } else if is_name_start(s[w]) {
        xml_attributes(s, xml_attribute(s, st.at(w), elem), elem)
    } else {
        xml_attributes(s, st.at(w + 1), elem)
    }
}

/// An opening or self-closing tag whose `<` stands at the position.
pub open spec fn xml_open_tag(s: Seq<u8>, x: XmlState) -> XmlStep {
    let m = x.st.pos;
    let n = name_end(s, m + 1);
    let name = s.subrange(m + 1, n);
    let id = intern_id(x.st.names, name) as u32;
    let parent = x.stack.last();
    let elem = x.st.paths.len() as u32;
    let segment = PathSegment::Element {
        name: id,
        sibling_index: (sibling_count(x.st.paths, parent, id) + 1) as u32,
    };
    let opened = x.st.with_name(name).styled(m + 1, n, StyleKind::Tag).opened(m, parent, segment).at(n);
    let (step, self_closed) = xml_attributes(s, opened, elem);
    if step.err is None && self_closed {
        XmlStep { x: XmlState { st: step.st.closed_at(elem as int, step.st.pos), stack: x.stack }, err: None }
    } else {
        XmlStep { x: XmlState { st: step.st, stack: x.stack.push(elem) }, err: step.err }
    }
}

/// The topmost open element called `name`, as a stack depth; the root
/// frame never matches.
pub open spec fn matching_frame(paths: Seq<PathEntry>, stack: Seq<u32>, name: u32) -> Option<int>
    decreases stack.len(),
{
    if stack.len() == 0 || stack.last() == 0 {
        None
    } else {
        match paths[stack.last() as int].segment {
            PathSegment::Element { name: n, .. } if n == name => Some(stack.len() - 1),
            _ => matching_frame(paths, stack.drop_last(), name),
        }
    }
}

/// Pops every frame from the top down to `depth` and ends its element at
/// `end`.
pub open spec fn close_frames(x: XmlState, depth: int, end: int) -> XmlState
    decreases x.stack.len(),
{
    if x.stack.len() <= depth || x.stack.len() == 0 {
        x
    } else {
        close_frames(
            XmlState { st: x.st.closed_at(x.stack.last() as int, end), stack: x.stack.drop_last() },
            depth,
            end,
        )
    }
}

/// A closing tag. It closes the nearest open element of that name and
/// everything still open inside it; without one it is ignored.
pub open spec fn xml_close_tag(s: Seq<u8>, x: XmlState) -> XmlState {
    let m = x.st.pos;
    let n = name_end(s, m + 2);
    let name = s.subrange(m + 2, n);
    let id = intern_id(x.st.names, name) as u32;
    let end = past_byte(s, n, GT);
    let after = XmlState { st: x.st.with_name(name).styled(m + 2, n, StyleKind::Tag).at(end), stack: x.stack };
    match matching_frame(x.st.paths, x.stack, id) {
        Some(depth) => close_frames(after, depth, end),
        None => after,
    }
}

/// Whatever starts with the `<` at the position.
pub open spec fn xml_markup(s: Seq<u8>, x: XmlState) -> XmlStep {
    let m = x.st.pos;
    match byte_at(s, m + 1) {
        Some(b) => if b == QUESTION {
            XmlStep { x: xml_span(x, closed_by(s, m + 2, pi_close()), StyleKind::Pi), err: None }
        } else if b == BANG {
            if occurs_at(s, m + 2, comment_open()) {
                XmlStep { x: xml_span(x, closed_by(s, m + 4, comment_close()), StyleKind::Comment), err: None }
            } else if occurs_at(s, m + 2, cdata_open()) {
                XmlStep { x: xml_span(x, closed_by(s, m + 9, cdata_close()), StyleKind::CData), err: None }
            } else {
                XmlStep { x: xml_span(x, doctype_end(s, m + 2, 0), StyleKind::Pi), err: None }
            }
        } else if b == SLASH {
            XmlStep { x: xml_close_tag(s, x), err: None }
        } else if is_name_start(b) {
            xml_open_tag(s, x)
        } else {
            XmlStep { x: x.at(m + 1), err: None }
        },
        None => XmlStep { x: x.at(m + 1), err: None },
    }
}

/// The rest of the document: markup and the text between it.
pub open spec fn xml_content(s: Seq<u8>, x: XmlState) -> XmlStep
    decreases s.len() - x.st.pos,
{
    proof {
        if 0 <= x.st.pos < s.len() {
            lemma_index_from(s, x.st.pos, LT);
        }
    }
    if x.st.pos < 0 || x.st.pos >= s.len() {
        XmlStep { x, err: None }
    } else if s[x.st.pos] == LT {
        let step = xml_markup(s, x);
        if step.err is Some || !(x.st.pos < step.x.st.pos <= s.len()) {
            step
        } else {
            xml_content(s, step.x)
        }
    } else {
        xml_content(s, x.at(index_from(s, x.st.pos, LT)))
    }
}

/// The entry with its sibling index dropped if no sibling shares its
/// name.
pub open spec fn without_lone_index(paths: Seq<PathEntry>, e: PathEntry) -> PathEntry {
    match e.segment {
        PathSegment::Element { name, .. } if sibling_count(paths, e.parent, name) == 1 => PathEntry {
            segment: PathSegment::Element { name, sibling_index: 0 },
            ..e
        },
        _ => e,
    }
}

pub open spec fn unique_siblings_fixed(paths: Seq<PathEntry>) -> Seq<PathEntry> {
    Seq::new(paths.len(), |i: int| without_lone_index(paths, paths[i]))
}

/// The whole document under a root entry, which spans the input unless an
/// error cuts it short.
pub open spec fn xml_document(s: Seq<u8>) -> Step {
    let start = XmlState {
        st: ScanState::empty().opened(0, ROOT_PARENT, PathSegment::Root),
        stack: seq![0u32],
    };
    let step = xml_content(s, start);
    let st = if step.err is Some {
        step.x.st
    } else {
        step.x.st.closed_at(0, s.len() as int)
    };
    Step { st: ScanState { paths: unique_siblings_fixed(st.paths), ..st }, err: step.err }
}

pub proof fn lemma_name_end(s: Seq<u8>, i: int)
    requires
        0 <= i <= s.len(),
    ensures
        i <= name_end(s, i) <= s.len(),
        i < s.len() && is_name_char(s[i]) ==> i < name_end(s, i),
    decreases s.len() - i,
{
    if i < s.len() && is_name_char(s[i]) {
        lemma_name_end(s, i + 1);
    }
}

pub proof fn lemma_unquoted_end(s: Seq<u8>, i: int)
    requires
        0 <= i <= s.len(),
    ensures
        i <= unquoted_end(s, i) <= s.len(),
    decreases s.len() - i,
{
    if i < s.len() && !is_ws(s[i]) && s[i] != GT && s[i] != SLASH {
        lemma_unquoted_end(s, i + 1);
    }
}

pub proof fn lemma_attr_value_end(s: Seq<u8>, i: int)
    requires
        0 <= i <= s.len(),
    ensures
        i <= attr_value_end(s, i) <= s.len(),
{
    lemma_unquoted_end(s, i);
    if i < s.len() {
        lemma_index_from(s, i + 1, s[i]);
    }
}

pub proof fn lemma_doctype_end(s: Seq<u8>, i: int, depth: int)
    requires
        0 <= i <= s.len(),
    ensures
        i <= doctype_end(s, i, depth) <= s.len(),
    decreases s.len() - i,
{
    if i < s.len() {
        lemma_index_from(s, i + 1, s[i]);
        lemma_doctype_end(s, past_byte(s, i + 1, s[i]), depth);
        lemma_doctype_end(s, i + 1, depth + 1);
        lemma_doctype_end(s, i + 1, depth - 1);
        lemma_doctype_end(s, i + 1, depth);
    }
}

pub proof fn lemma_closed_by(s: Seq<u8>, i: int, pat: Seq<u8>)
    requires
        0 <= i <= s.len(),
    ensures
        i <= closed_by(s, i, pat) <= s.len(),
{
    lemma_find_from(s, i, pat);
}

pub proof fn lemma_attribute_moves(s: Seq<u8>, st: ScanState, parent: u32)
    requires
        0 <= st.pos <= s.len(),
    ensures
        st.pos <= xml_attribute(s, st, parent).pos <= s.len(),
        st.pos < s.len() && is_name_start(s[st.pos]) ==> st.pos < name_end(s, st.pos) <= xml_attribute(
            s,
            st,
            parent,
        ).pos,
{
    lemma_name_end(s, st.pos);
    let n = name_end(s, st.pos);
    lemma_skip_ws_bounds(s, n);
    let w = skip_ws_from(s, n);
    if w < s.len() {
        lemma_skip_ws_bounds(s, w + 1);
        lemma_attr_value_end(s, skip_ws_from(s, w + 1));
    }
}

// --- scanning -------------------------------------------------------

fn name_start_byte(b: u8) -> (r: bool)
    ensures
        r == is_name_start(b),
{
    (UPPER_A <= b && b <= UPPER_Z) || (LOWER_A <= b && b <= LOWER_Z) || b == UNDERSCORE || b == COLON || b >= 0x80
}

fn name_char_byte(b: u8) -> (r: bool)
    ensures
        r == is_name_char(b),
{
    name_start_byte(b) || (ZERO <= b && b <= NINE) || b == MINUS || b == DOT
}

fn find_name_end(s: &[u8], i: usize) -> (r: usize)
    requires
        i <= s@.len(),
    ensures
        r == name_end(s@, i as int),
        i <= r <= s@.len(),
        i < s@.len() && is_name_char(s@[i as int]) ==> i < r,
{
    proof {
        lemma_name_end(s@, i as int);
    }
    let mut j: usize = i;
    while j < s.len() && name_char_byte(s[j])
        invariant
            i <= j <= s@.len(),
            name_end(s@, j as int) == name_end(s@, i as int),
        decreases s@.len() - j,
    {
        j += 1;
    }
    j
}

fn find_closed_by(s: &[u8], i: usize, pat: &[u8]) -> (r: usize)
    requires
        i <= s@.len(),
    ensures
        r == closed_by(s@, i as int, pat@),
        i <= r <= s@.len(),
{
    let stop: usize = s.len();
    match find_bytes(s, i, pat) {
        Some(k) => k + pat.len(),
        None => stop,
    }
}

fn find_doctype_end(s: &[u8], i: usize) -> (r: usize)
    requires
        i <= s@.len(),
    ensures
        r == doctype_end(s@, i as int, 0),
        i <= r <= s@.len(),
{
    proof {
        lemma_doctype_end(s@, i as int, 0);
    }
    let mut depth: i128 = 0;
    let mut j: usize = i;
    while j < s.len()
        invariant
            i <= j <= s@.len(),
            -(j - i) <= depth <= j - i,
            doctype_end(s@, j as int, depth as int) == doctype_end(s@, i as int, 0),
        decreases s@.len() - j,
    {
        let b = s[j];
        if b == QUOTE || b == APOS {
            j = find_past_byte(s, j + 1, b);
            continue;
        }
        if b == LBRACKET {
            depth += 1;
        } else if b == RBRACKET {
            depth -= 1;
        } else if b == GT && depth <= 0 {
            return j + 1;
        }
        j += 1;
    }
    j
}

fn find_attr_value_end(s: &[u8], i: usize) -> (r: usize)
    requires
        i <= s@.len(),
    ensures
        r == attr_value_end(s@, i as int),
        i <= r <= s@.len(),
{
    proof {
        lemma_attr_value_end(s@, i as int);
    }
    if i < s.len() && (s[i] == QUOTE || s[i] == APOS) {
        return find_past_byte(s, i + 1, s[i]);
    }
    let mut j: usize = i;
    while j < s.len() && !is_ws_byte(s[j]) && s[j] != GT && s[j] != SLASH
        invariant
            i <= j <= s@.len(),
            unquoted_end(s@, j as int) == unquoted_end(s@, i as int),
        decreases s@.len() - j,
    {
        j += 1;
    }
    j
}

// --- parser ---------------------------------------------------------

/// Key of the sibling counter of `name` under `parent`.
spec fn count_key(parent: u32, name: u32) -> u64 {
    (parent * 0x1_0000_0000 + name) as u64
}

fn count_key_of(parent: u32, name: u32) -> (k: u64)
    ensures
        k == count_key(parent, name),
{
    (parent as u64) * 0x1_0000_0000 + (name as u64)
}

/// The counter for `name` under `parent`.
spec fn counted(counts: Map<u64, u32>, parent: u32, name: u32) -> int {
    if counts.contains_key(count_key(parent, name)) {
        counts[count_key(parent, name)] as int
    } else {
        0
    }
}

proof fn lemma_count_key_injective(p1: u32, n1: u32, p2: u32, n2: u32)
    requires
        count_key(p1, n1) == count_key(p2, n2),
    ensures
        p1 == p2,
        n1 == n2,
{
}

pub proof fn lemma_sibling_count_bound(paths: Seq<PathEntry>, parent: u32, name: u32)
    ensures
        sibling_count(paths, parent, name) <= paths.len(),
    decreases paths.len(),
{
    if paths.len() > 0 {
        lemma_sibling_count_bound(paths.drop_last(), parent, name);
    }
}

/// Counting looks at parents and names only.
pub proof fn lemma_sibling_count_same(a: Seq<PathEntry>, b: Seq<PathEntry>, parent: u32, name: u32)
    requires
        a.len() == b.len(),
        forall|i: int|
            0 <= i < a.len() ==> (#[trigger] a[i]).parent == b[i].parent && element_name(a[i].segment) == element_name(
                b[i].segment,
            ),
    ensures
        sibling_count(a, parent, name) == sibling_count(b, parent, name),
    decreases a.len(),
{
    if a.len() > 0 {
        assert forall|i: int| 0 <= i < a.drop_last().len() implies (#[trigger] a.drop_last()[i]).parent
            == b.drop_last()[i].parent && element_name(a.drop_last()[i].segment) == element_name(
            b.drop_last()[i].segment,
        ) by {
            assert(a[i].parent == b[i].parent);
        }
        assert(a.last().parent == b.last().parent);
        lemma_sibling_count_same(a.drop_last(), b.drop_last(), parent, name);
    }
}

struct Parser<'a> {
    cur: Cursor<'a>,
    paths: Vec<PathEntry>,
    styles: Vec<StyleSpan>,
    names: NameInterner,
    /// Entries of the open elements, the root first.
    stack: Vec<u32>,
    /// Elements seen so far per parent and name.
    counts: HashMap<u64, u32>,
}

impl<'a> View for Parser<'a> {
    type V = XmlState;

    closed spec fn view(&self) -> XmlState {
        XmlState {
            st: ScanState {
                pos: self.cur.pos as int,
                paths: self.paths@,
                styles: self.styles@,
                names: self.names@,
            },
            stack: self.stack@,
        }
    }
}

impl<'a> Parser<'a> {
    spec fn counts_ok(&self) -> bool {
        forall|parent: u32, name: u32|
            #[trigger] counted(self.counts@, parent, name) == sibling_count(self.paths@, parent, name)
    }

    spec fn wf(&self) -> bool {
        &&& self.cur.wf()
        &&& self.names.wf()
        &&& self.names@.len() <= self.cur.pos
        &&& self.paths@.len() <= self.cur.pos + 1
        &&& self.stack@.len() > 0
        &&& self.stack@[0] == 0
        &&& self.paths@.len() > 0
        &&& forall|k: int| 0 <= k < self.stack@.len() ==> (#[trigger] self.stack@[k]) < self.paths@.len()
        &&& self.counts_ok()
    }

    spec fn keeps(&self, before: &Self) -> bool {
        &&& self.wf()
        &&& self.cur.input@ == before.cur.input@
    }

    fn style_to(&mut self, end: usize, kind: StyleKind)
        requires
            old(self).wf(),
            old(self).cur.pos <= end <= old(self).cur.input@.len(),
        ensures
            final(self).keeps(old(self)),
            final(self)@ == xml_span(old(self)@, end as int, kind),
    {
        let start: usize = self.cur.pos;
        self.cur.advance_to(end);
        self.styles.push(StyleSpan { start: start as u32, end: end as u32, kind });
    }

    fn parse_markup(&mut self) -> (res: Result<(), ParseError>)
        requires
            old(self).wf(),
            byte_at(old(self).cur.input@, old(self).cur.pos as int) == Some(LT),
        ensures
            final(self).keeps(old(self)),
            (XmlStep { x: final(self)@, err: crate::format::json::error_of(res) }) == xml_markup(
                old(self).cur.input@,
                old(self)@,
            ),
            old(self).cur.pos < final(self).cur.pos,
    {
        let m: usize = self.cur.pos;
        let input = self.cur.input;
        if m + 1 >= input.len() {
            self.cur.advance();
            return Ok(());
        }
        let b = input[m + 1];
        if b == QUESTION {
            let end = find_closed_by(input, m + 2, &[QUESTION, GT]);
            self.style_to(end, StyleKind::Pi);
            Ok(())
        } else if b == BANG {
            if has_prefix_at(input, m + 2, &[MINUS, MINUS]) {
                let end = find_closed_by(input, m + 4, &[MINUS, MINUS, GT]);
                self.style_to(end, StyleKind::Comment);
            } else if has_prefix_at(input, m + 2, &[LBRACKET, 0x43, 0x44, 0x41, 0x54, 0x41, LBRACKET]) {
                let end = find_closed_by(input, m + 9, &[RBRACKET, RBRACKET, GT]);
                self.style_to(end, StyleKind::CData);
            } else {
                // `<!DOCTYPE ... >` or any other `<!...>` declaration.
                let end = find_doctype_end(input, m + 2);
                self.style_to(end, StyleKind::Pi);
            }
            Ok(())
        } else if b == SLASH {
            self.parse_close_tag();
            Ok(())
        } else if name_start_byte(b) {
            self.parse_open_or_self_close()
        } else {
            // Stray `<`: consume one byte and move on.
            self.cur.advance();
            Ok(())
        }
    }

    /// Interns the name `input[start..end]`, styles it and moves to its
    /// end.
    fn take_name(&mut self, start: usize, end: usize, kind: StyleKind) -> (id: u32)
        requires
            old(self).wf(),
            old(self).cur.pos <= start <= end <= old(self).cur.input@.len(),
            old(self).cur.pos < end,
        ensures
            final(self).keeps(old(self)),
            final(self)@.stack == old(self)@.stack,
            final(self)@.st == old(self)@.st.with_name(
                old(self).cur.input@.subrange(start as int, end as int),
            ).styled(start as int, end as int, kind).at(end as int),
            id == intern_id(old(self)@.st.names, old(self).cur.input@.subrange(start as int, end as int)),
    {
        let name = slice_subrange(self.cur.input, start, end);
        self.cur.advance_to(end);
        let id = self.names.intern(name);
        self.styles.push(StyleSpan { start: start as u32, end: end as u32, kind });
        id
    }

    fn parse_open_or_self_close(&mut self) -> (res: Result<(), ParseError>)
        requires
            old(self).wf(),
            old(self).cur.pos + 1 < old(self).cur.input@.len(),
            is_name_start(old(self).cur.input@[old(self).cur.pos + 1]),
        ensures
            final(self).keeps(old(self)),
            (XmlStep { x: final(self)@, err: crate::format::json::error_of(res) }) == xml_open_tag(
                old(self).cur.input@,
                old(self)@,
            ),
            old(self).cur.pos < final(self).cur.pos,
    {
        let m: usize = self.cur.pos;
        let end = find_name_end(self.cur.input, m + 1);
        let name_id = self.take_name(m + 1, end, StyleKind::Tag);
        let parent = self.stack[self.stack.len() - 1];
        let key = count_key_of(parent, name_id);
        let seen: u32 = match self.counts.get(&key) {
            Some(n) => *n,
            None => 0,
        };
        proof {
            assert(seen == counted(self.counts@, parent, name_id));
            lemma_sibling_count_bound(self.paths@, parent, name_id);
        }
        let sibling_index: u32 = seen + 1;
        let ghost before = *self;
        self.counts.insert(key, sibling_index);
        let elem_idx: usize = self.paths.len();
        self.paths.push(
            PathEntry {
                start: m as u32,
                end: 0,
                parent,
                segment: PathSegment::Element { name: name_id, sibling_index },
            },
        );
        proof {
            assert(self.paths@.drop_last() =~= before.paths@);
            assert forall|p: u32, n: u32| #[trigger] counted(self.counts@, p, n) == sibling_count(self.paths@, p, n) by {
                assert(counted(before.counts@, p, n) == sibling_count(before.paths@, p, n));
                if count_key(p, n) == key {
                    lemma_count_key_injective(p, n, parent, name_id);
                }
            }
        }
        self.stack.push(elem_idx as u32);
        let ghost input = self.cur.input@;
        let ghost opened = self@.st;
        let ghost goal = xml_attributes(input, opened, elem_idx as u32);
        proof {
            assert(self.stack@ =~= old(self).stack@.push(elem_idx as u32));
        }
        loop
            invariant
                self.keeps(old(self)),
                input == self.cur.input@,
                input == old(self).cur.input@,
                old(self).cur.pos < self.cur.pos,
                self.stack@ == old(self).stack@.push(elem_idx as u32),
                elem_idx == old(self).paths@.len() < self.paths@.len(),
                old(self).stack@.len() > 0,
                old(self).stack@[0] == 0,
                forall|k: int| 0 <= k < old(self).stack@.len() ==> (#[trigger] old(self).stack@[k]) < elem_idx,
                goal == xml_attributes(input, self@.st, elem_idx as u32),
                goal == xml_attributes(input, opened, elem_idx as u32),
                (XmlStep {
                    x: if goal.0.err is None && goal.1 {
                        XmlState {
                            st: goal.0.st.closed_at(elem_idx as int, goal.0.st.pos),
                            stack: old(self).stack@,
                        }
                    } else {
                        XmlState { st: goal.0.st, stack: old(self).stack@.push(elem_idx as u32) }
                    },
                    err: goal.0.err,
                }) == xml_open_tag(input, old(self)@),
            decreases input.len() - self.cur.pos,
        {
            self.cur.skip_ws();
            let w: usize = self.cur.pos;
            match self.cur.peek() {
                None => {
                    return Err(self.cur.err(ParseErrorKind::UnexpectedEof));
                },
                Some(b) => {
                    if b == GT {
                        self.cur.advance();
                        return Ok(());
                    } else if b == SLASH && w + 1 < self.cur.input.len() && self.cur.input[w + 1] == GT {
                        self.cur.advance_by(2);
                        self.close_entry(elem_idx, self.cur.pos);
                        self.stack.pop();
                        proof {
                            assert(self.stack@ =~= old(self).stack@);
                        }
                        return Ok(());
                    } else if name_start_byte(b) {
                        self.parse_attribute(elem_idx as u32);
                    } else {
                        // Skip the unknown byte rather than aborting.
                        self.cur.advance();
                    }
                },
            }
        }
    }

    /// Ends entry `i` at `end`.
    fn close_entry(&mut self, i: usize, end: usize)
        requires
            old(self).wf(),
            i < old(self).paths@.len(),
            end <= u32::MAX,
        ensures
            final(self).keeps(old(self)),
            final(self)@.st == old(self)@.st.closed_at(i as int, end as int),
            final(self)@.stack == old(self)@.stack,
    {
        let ghost before = *self;
        let mut entry = self.paths[i];
        entry.end = end as u32;
        self.paths[i] = entry;
        proof {
            assert forall|p: u32, n: u32| #[trigger] counted(self.counts@, p, n) == sibling_count(self.paths@, p, n) by {
                assert(counted(before.counts@, p, n) == sibling_count(before.paths@, p, n));
                lemma_sibling_count_same(before.paths@, self.paths@, p, n);
            }
        }
    }

    fn parse_attribute(&mut self, parent_entry: u32)
        requires
            old(self).wf(),
            old(self).cur.pos < old(self).cur.input@.len(),
            is_name_start(old(self).cur.input@[old(self).cur.pos as int]),
            parent_entry < old(self).paths@.len(),
        ensures
            final(self).keeps(old(self)),
            final(self)@.st == xml_attribute(old(self).cur.input@, old(self)@.st, parent_entry),
            final(self)@.stack == old(self)@.stack,
            old(self).cur.pos < final(self).cur.pos,
            old(self).paths@.len() < final(self).paths@.len(),
    {
        let start: usize = self.cur.pos;
        let name_stop = find_name_end(self.cur.input, start);
        let name_id = self.take_name(start, name_stop, StyleKind::AttrName);
        self.cur.skip_ws();
        let mut end: usize = name_stop;
        if self.cur.peek() == Some(EQUALS) {
            self.cur.advance();
            self.cur.skip_ws();
            let value_start: usize = self.cur.pos;
            end = find_attr_value_end(self.cur.input, value_start);
            self.cur.advance_to(end);
            self.styles.push(StyleSpan { start: value_start as u32, end: end as u32, kind: StyleKind::AttrValue });
        }
        let ghost before = *self;
        self.paths.push(
            PathEntry {
                start: start as u32,
                end: end as u32,
                parent: parent_entry,
                segment: PathSegment::Attribute(name_id),
            },
        );
        proof {
            assert(self.paths@.drop_last() =~= before.paths@);
            assert forall|p: u32, n: u32| #[trigger] counted(self.counts@, p, n) == sibling_count(self.paths@, p, n) by {
                assert(counted(before.counts@, p, n) == sibling_count(before.paths@, p, n));
            }
        }
    }

    fn parse_close_tag(&mut self)
        requires
            old(self).wf(),
            old(self).cur.pos + 1 < old(self).cur.input@.len(),
        ensures
            final(self).keeps(old(self)),
            final(self)@ == xml_close_tag(old(self).cur.input@, old(self)@),
            old(self).cur.pos < final(self).cur.pos,
    {
        let m: usize = self.cur.pos;
        let name_stop = find_name_end(self.cur.input, m + 2);
        let name_id = self.take_name(m + 2, name_stop, StyleKind::Tag);
        let end = find_past_byte(self.cur.input, name_stop, GT);
        self.cur.advance_to(end);
        let ghost after = self@;
        // Lenient: if the innermost open element has another name, walk up
        // the stack looking for a match.
        let mut depth: usize = self.stack.len();
        let mut found = false;
        let ghost target = matching_frame(after.st.paths, after.stack, name_id);
        proof {
            assert(after.stack.take(after.stack.len() as int) =~= after.stack);
        }
        while depth > 0 && !found
            invariant
                self.wf(),
                self@ == after,
                depth <= after.stack.len(),
                !found ==> target == matching_frame(after.st.paths, after.stack.take(depth as int), name_id),
                found ==> target == Some(depth as int) && 0 < depth < after.stack.len(),
            decreases depth,
        {
            let entry = self.stack[depth - 1];
            proof {
                assert(after.stack.take(depth as int).last() == entry);
                assert(after.stack.take(depth as int).drop_last() =~= after.stack.take(depth - 1));
            }
            if entry == 0 {
                // Root frame; never matches a close tag.
                proof {
                    assert(target is None);
                    assert(after.stack.take(0) =~= Seq::<u32>::empty());
                }
                depth = 0;
            } else {
                match self.paths[entry as usize].segment {
                    PathSegment::Element { name, .. } => {
                        if name == name_id {
                            found = true;
                        }
                    },
                    _ => {},
                }
                depth -= 1;
            }
        }
        if found {
            let ghost goal = close_frames(after, depth as int, end as int);
            while self.stack.len() > depth
                invariant
                    self.keeps(old(self)),
                    self.cur.pos == end,
                    0 < depth <= self.stack@.len(),
                    goal == close_frames(self@, depth as int, end as int),
                decreases self.stack@.len(),
            {
                let ghost now = self@;
                let top = self.stack[self.stack.len() - 1];
                self.close_entry(top as usize, end);
                self.stack.pop();
                proof {
                    assert(self.stack@ =~= now.stack.drop_last());
                }
            }
        }
    }

    /// Drops the sibling index of every element that has no same-named
    /// sibling.
    fn fixup_unique_siblings(&mut self)
        requires
            old(self).wf(),
        ensures
            final(self).cur == old(self).cur,
            final(self).names == old(self).names,
            final(self).styles == old(self).styles,
            final(self).paths@ == unique_siblings_fixed(old(self).paths@),
    {
        let n: usize = self.paths.len();
        let mut i: usize = 0;
        while i < n
            invariant
                n == old(self).paths@.len() == self.paths@.len(),
                i <= n,
                old(self).wf(),
                self.counts == old(self).counts,
                self.cur == old(self).cur,
                self.names == old(self).names,
                self.styles == old(self).styles,
                forall|k: int|
                    0 <= k < i ==> #[trigger] self.paths@[k] == without_lone_index(
                        old(self).paths@,
                        old(self).paths@[k],
                    ),
                forall|k: int| i <= k < n ==> #[trigger] self.paths@[k] == old(self).paths@[k],
            decreases n - i,
        {
            let mut e = self.paths[i];
            if let PathSegment::Element { name, .. } = e.segment {
                let key = count_key_of(e.parent, name);
                let total: u32 = match self.counts.get(&key) {
                    Some(t) => *t,
                    None => 0,
                };
                proof {
                    assert(counted(old(self).counts@, e.parent, name) == sibling_count(
                        old(self).paths@,
                        e.parent,
                        name,
                    ));
                }
                if total == 1 {
                    e.segment = PathSegment::Element { name, sibling_index: 0 };
                }
            }
            self.paths[i] = e;
            i += 1;
        }
        proof {
            assert(self.paths@ =~= unique_siblings_fixed(old(self).paths@));
        }
    }
}

/// Parses an XML document. The output reports exactly what the grammar
/// above says of `input`.
pub fn parse(input: &[u8], progress: Option<&ProgressSink>) -> (out: ParseOutput)
    requires
        input@.len() < u32::MAX,
    ensures
        out.reports(input@, xml_document(input@)),
        out.wf(input@.len() as int),
        out.error is None ==> out.line_starts@ == line_starts_in(input@, input@.len() as int),
{
    proof {
        law_xml_indexes(input@);
        lemma_line_starts(input@, xml_document(input@).st.pos);
    }
    let mut p = Parser {
        cur: Cursor::new(input, progress),
        paths: Vec::new(),
        styles: Vec::new(),
        names: NameInterner::new(),
        stack: Vec::new(),
        counts: HashMap::new(),
    };
    // Root spans the whole input so clicks on whitespace or text outside
    // any element resolve to "/".
    p.paths.push(PathEntry { start: 0, end: 0, parent: ROOT_PARENT, segment: PathSegment::Root });
    p.stack.push(0);
    proof {
        assert(p.paths@.drop_last() =~= Seq::<PathEntry>::empty());
        assert forall|parent: u32, name: u32| #[trigger] counted(p.counts@, parent, name) == sibling_count(
            p.paths@,
            parent,
            name,
        ) by {
            assert(sibling_count(p.paths@.drop_last(), parent, name) == 0);
        }
        assert(p.stack@ =~= seq![0u32]);
    }
    let ghost start = p@;
    let mut error: Option<ParseError> = None;
    while error.is_none() && p.cur.pos < p.cur.input.len()
        invariant
            p.wf(),
            p.cur.input@ == input@,
            xml_content(input@, start) == (if error is Some {
                XmlStep { x: p@, err: error }
            } else {
                xml_content(input@, p@)
            }),
        decreases input@.len() - p.cur.pos + (if error is None { 1int } else { 0int }),
    {
        if p.cur.input[p.cur.pos] == LT {
            match p.parse_markup() {
                Ok(()) => {},
                Err(e) => {
                    error = Some(e);
                },
            }
        } else {
            let next = find_byte(p.cur.input, p.cur.pos, LT);
            p.cur.advance_to(next);
        }
    }
    if error.is_none() {
        p.close_entry(0, input.len());
    }
    p.fixup_unique_siblings();
    if let Some(sink) = progress {
        sink.publish(input.len() as u64);
    }
    ParseOutput {
        line_starts: p.cur.line_starts,
        paths: PathIndex { entries: p.paths },
        styles: p.styles,
        names: p.names,
        error,
        bytes: input.len(),
        csv: None,
    }
}

// --- path expression ------------------------------------------------

pub open spec fn xpath_segment(segment: PathSegment, names: Seq<Seq<u8>>) -> Seq<char> {
    match segment {
        PathSegment::Element { name, sibling_index } => seq!['/'] + text_or_replacement(names[name as int]) + (
        if sibling_index > 0 {
            seq!['['] + decimal(sibling_index as nat) + seq![']']
        } else {
            Seq::empty()
        }),
        PathSegment::Attribute(id) => seq!['/', '@'] + text_or_replacement(names[id as int]),
        _ => Seq::empty(),
    }
}

pub open spec fn xpath_segments(segments: Seq<PathSegment>, names: Seq<Seq<u8>>) -> Seq<char>
    decreases segments.len(),
{
    if segments.len() == 0 {
        Seq::empty()
    } else {
        xpath_segments(segments.drop_last(), names) + xpath_segment(segments.last(), names)
    }
}

/// The XPath of a path; `/` for the empty one.
pub open spec fn xpath(segments: Seq<PathSegment>, names: Seq<Seq<u8>>) -> Seq<char> {
    if segments.len() == 0 {
        seq!['/']
    } else {
        xpath_segments(segments, names)
    }
}

/// Renders a path as an XPath expression: `/name[N]` per element, the
/// predicate only among same-named siblings, and `/@name` for an
/// attribute. Empty path gives "/".
pub fn path_expression(segments: &[PathSegment], names: &NameInterner) -> (r: String)
    requires
        names.wf(),
        forall|i: int| 0 <= i < segments@.len() ==> segment_named(#[trigger] segments@[i], names@.len()),
    ensures
        r@ == xpath(segments@, names@),
{
    let mut out = String::new();
    if segments.len() == 0 {
        out.push('/');
        assert(out@ =~= seq!['/']);
        return out;
    }
    let mut k: usize = 0;
    proof {
        assert(xpath_segments(segments@.take(0), names@) =~= Seq::<char>::empty());
    }
    while k < segments.len()
        invariant
            k <= segments@.len(),
            names.wf(),
            forall|i: int| 0 <= i < segments@.len() ==> segment_named(#[trigger] segments@[i], names@.len()),
            out@ == xpath_segments(segments@.take(k as int), names@),
        decreases segments@.len() - k,
    {
        let ghost before = out@;
        let segment = segments[k];
        match segment {
            PathSegment::Element { name, sibling_index } => {
                out.push('/');
                push_utf8(&mut out, names.get(name));
                if sibling_index > 0 {
                    out.push('[');
                    push_decimal(&mut out, sibling_index as u64);
                    out.push(']');
                }
            },
            PathSegment::Attribute(id) => {
                out.push('/');
                out.push('@');
                push_utf8(&mut out, names.get(id));
            },
            _ => {},
        }
        proof {
            assert(segments@.take(k + 1).drop_last() =~= segments@.take(k as int));
            assert(out@ =~= before + xpath_segment(segment, names@));
        }
        k += 1;
    }
    proof {
        assert(segments@.take(segments@.len() as int) =~= segments@);
    }
    out
}

// --- value extraction -----------------------------------------------

/// The value in an attribute's text: what its quotes enclose, or the
/// unquoted text after `=`; the whole text when there is no `=`.
pub open spec fn attr_value(s: Seq<u8>) -> Seq<u8> {
    let eq = index_from(s, 0, EQUALS);
    if eq >= s.len() {
        s
    } else {
        let v = skip_ws_from(s, eq + 1);
        if byte_at(s, v) == Some(QUOTE) || byte_at(s, v) == Some(APOS) {
            s.subrange(v + 1, index_from(s, v + 1, s[v]))
        } else {
            s.subrange(v, s.len() as int)
        }
    }
}

/// `name="value"` gives `value`, as do `name='value'` and `name=value`;
/// a bare `name` gives itself.
fn extract_attr_value(slice: &[u8]) -> (r: &[u8])
    ensures
        r@ == attr_value(slice@),
{
    let eq = find_byte(slice, 0, EQUALS);
    if eq >= slice.len() {
        return slice;
    }
    let v = skip_ws_at(slice, eq + 1);
    if v < slice.len() && (slice[v] == QUOTE || slice[v] == APOS) {
        let end = find_byte(slice, v + 1, slice[v]);
        slice_subrange(slice, v + 1, end)
    } else {
        slice_subrange(slice, v, slice.len())
    }
}

/// Bytes that stand for `entry`: the whole element, an attribute's
/// value, the root without surrounding whitespace.
pub open spec fn xml_value_bytes(bytes: Seq<u8>, entry: PathEntry) -> Seq<u8> {
    let text = entry_text(bytes, entry);
    match entry.segment {
        PathSegment::Root => trimmed(text),
        PathSegment::Attribute(_) => if text.len() == 0 {
            text
        } else {
            attr_value(text)
        },
        _ => text,
    }
}

/// Bytes to copy for `entry`: the whole element, or an attribute's value
/// without its quotes.
pub fn value_bytes_for_entry<'a>(bytes: &'a [u8], entry: &PathEntry) -> (r: &'a [u8])
    ensures
        r@ == xml_value_bytes(bytes@, *entry),
{
    let text = slice_of_entry(bytes, entry);
    match entry.segment {
        PathSegment::Root => trim_bytes(text),
        PathSegment::Attribute(_) => extract_attr_value(text),
        _ => text,
    }
}

// --- prettifier -----------------------------------------------------

#[derive(Debug, Clone, Copy, PartialEq, Eq, Structural)]
pub enum TokKind {
    Open,
    Close,
    SelfClose,
    Text,
    Comment,
    CData,
    Pi,
    Doctype,
}

/// A token of the prettifier: its kind and byte range.
#[derive(Debug, Clone, Copy, PartialEq, Eq, Structural)]
pub struct Tok {
    pub kind: TokKind,
    pub start: usize,
    pub end: usize,
}

/// End of an opening tag scanned from `i`: one past the first `>`
/// outside quotes.
pub open spec fn open_tag_end(s: Seq<u8>, i: int) -> int
    decreases s.len() - i,
{
    proof {
        if 0 <= i < s.len() {
            lemma_index_from(s, i + 1, s[i]);
        }
    }
    if i < 0 || i >= s.len() {
        i
    } else if s[i] == QUOTE || s[i] == APOS {
        open_tag_end(s, past_byte(s, i + 1, s[i]))
    } else if s[i] == GT {
        i + 1
    } else {
        open_tag_end(s, i + 1)
    }
}

pub proof fn lemma_open_tag_end(s: Seq<u8>, i: int)
    requires
        0 <= i <= s.len(),
    ensures
        i <= open_tag_end(s, i) <= s.len(),
    decreases s.len() - i,
{
    if i < s.len() {
        lemma_index_from(s, i + 1, s[i]);
        lemma_open_tag_end(s, past_byte(s, i + 1, s[i]));
        lemma_open_tag_end(s, i + 1);
    }
}

/// The tag scanned from `i` closes itself: its closing `>`, outside
/// quotes, follows a slash.
pub open spec fn open_tag_self_closed(s: Seq<u8>, i: int) -> bool
    decreases s.len() - i,
{
    proof {
        if 0 <= i < s.len() {
            lemma_index_from(s, i + 1, s[i]);
        }
    }
    if i < 0 || i >= s.len() {
        false
    } else if s[i] == QUOTE || s[i] == APOS {
        open_tag_self_closed(s, past_byte(s, i + 1, s[i]))
    } else if s[i] == GT {
        i > 0 && s[i - 1] == SLASH
    } else {
        open_tag_self_closed(s, i + 1)
    }
}

/// Kind and end of the token that starts at `i`.
pub open spec fn token_at(s: Seq<u8>, i: int) -> (TokKind, int) {
    if s[i] != LT {
        (TokKind::Text, index_from(s, i, LT))
    } else {
        match byte_at(s, i + 1) {
            Some(b) => if b == QUESTION {
                (TokKind::Pi, closed_by(s, i + 2, pi_close()))
            } else if b == BANG {
                if occurs_at(s, i + 2, comment_open()) {
                    (TokKind::Comment, closed_by(s, i + 4, comment_close()))
                } else if occurs_at(s, i + 2, cdata_open()) {
                    (TokKind::CData, closed_by(s, i + 9, cdata_close()))
                } else {
                    (TokKind::Doctype, doctype_end(s, i + 2, 0))
                }
            } else if b == SLASH {
                (TokKind::Close, past_byte(s, i + 2, GT))
            } else if is_name_start(b) {
                (
                    if open_tag_self_closed(s, i + 1) {
                        TokKind::SelfClose
                    } else {
                        TokKind::Open
                    },
                    open_tag_end(s, i + 1),
                )
            } else {
                (TokKind::Text, i + 1)
            },
            None => (TokKind::Text, i + 1),
        }
    }
}

pub proof fn lemma_token_at(s: Seq<u8>, i: int)
    requires
        0 <= i < s.len(),
    ensures
        i < token_at(s, i).1 <= s.len(),
{
    lemma_index_from(s, i, LT);
    if i + 2 <= s.len() {
        lemma_closed_by(s, i + 2, pi_close());
        lemma_doctype_end(s, i + 2, 0);
        lemma_index_from(s, i + 2, GT);
        lemma_open_tag_end(s, i + 1);
        if is_name_start(s[i + 1]) {
            assert(open_tag_end(s, i + 1) > i);
        }
        if i + 4 <= s.len() {
            lemma_closed_by(s, i + 4, comment_close());
        }
        if i + 9 <= s.len() {
            lemma_closed_by(s, i + 9, cdata_close());
        }
    }
}

/// The tokens of `s` from `i` on. They cover it without gaps.
pub open spec fn tokens_from(s: Seq<u8>, i: int) -> Seq<Tok>
    decreases s.len() - i,
{
    proof {
        if 0 <= i < s.len() {
            lemma_token_at(s, i);
        }
    }
    if i < 0 || i >= s.len() {
        Seq::empty()
    } else {
        let (kind, end) = token_at(s, i);
        seq![Tok { kind, start: i as usize, end: end as usize }] + tokens_from(s, end)
    }
}

/// `s` holds a byte that is not whitespace.
pub open spec fn has_text(s: Seq<u8>) -> bool {
    exists|i: int| 0 <= i < s.len() && !is_ws(#[trigger] s[i])
}

pub open spec fn tok_bytes(s: Seq<u8>, t: Tok) -> Seq<u8> {
    s.subrange(t.start as int, t.end as int)
}

/// No text with visible characters stands directly in the element that
/// is open at token `k`, up to its closing tag; `depth` elements are
/// open inside it.
pub open spec fn block_from(s: Seq<u8>, toks: Seq<Tok>, k: int, depth: int) -> bool
    decreases toks.len() - k,
{
    if k < 0 || k >= toks.len() {
        true
    } else if toks[k].kind == TokKind::Open {
        block_from(s, toks, k + 1, depth + 1)
    } else if toks[k].kind == TokKind::Close {
        depth <= 0 || block_from(s, toks, k + 1, depth - 1)
    } else if toks[k].kind == TokKind::Text && depth == 0 && has_text(tok_bytes(s, toks[k])) {
        false
    } else {
        block_from(s, toks, k + 1, depth)
    }
}

/// The element opened by token `k` has no visible text directly in it.
pub open spec fn is_block(s: Seq<u8>, toks: Seq<Tok>, k: int) -> bool {
    block_from(s, toks, k + 1, 0)
}

/// What has been emitted, and for each open element whether its children
/// go on lines of their own: those of a block outside mixed content.
pub struct EmitState {
    pub out: Seq<u8>,
    pub modes: Seq<bool>,
}

pub open spec fn in_block(modes: Seq<bool>) -> bool {
    modes.len() == 0 || modes.last()
}

/// Whitespace-trimmed end of `s`, not below `lo`.
pub open spec fn trim_ws_end(s: Seq<u8>, lo: int, hi: int) -> int
    decreases hi,
{
    if lo < hi && 0 < hi <= s.len() && is_ws(s[hi - 1]) {
        trim_ws_end(s, lo, hi - 1)
    } else {
        hi
    }
}

/// `s` without leading and trailing whitespace.
pub open spec fn trimmed_ws(s: Seq<u8>) -> Seq<u8> {
    let lo = skip_ws_from(s, 0);
    s.subrange(lo, trim_ws_end(s, lo, s.len() as int))
}

/// Appends `text`, on a line of its own in a block context.
pub open spec fn emit_line(e: EmitState, text: Seq<u8>) -> Seq<u8> {
    if in_block(e.modes) && e.out.len() > 0 {
        e.out + line_indent(e.modes.len()) + text
    } else {
        e.out + text
    }
}

pub open spec fn emit_token(s: Seq<u8>, toks: Seq<Tok>, k: int, e: EmitState) -> EmitState {
    let text = tok_bytes(s, toks[k]);
    match toks[k].kind {
        TokKind::Open => EmitState { out: emit_line(e, text), modes: e.modes.push(in_block(e.modes) && is_block(s, toks, k)) },
        TokKind::Close => {
            let outer = if e.modes.len() == 0 {
                e.modes
            } else {
                e.modes.drop_last()
            };
            if in_block(e.modes) {
                EmitState { out: e.out + line_indent(outer.len()) + text, modes: outer }
            } else {
                EmitState { out: e.out + text, modes: outer }
            }
        },
        TokKind::Text => if !in_block(e.modes) {
            EmitState { out: e.out + text, ..e }
        } else if has_text(text) {
            EmitState { out: emit_line(e, trimmed_ws(text)), ..e }
        } else {
            e
        },
        _ => EmitState { out: emit_line(e, text), ..e },
    }
}

pub open spec fn emit_from(s: Seq<u8>, toks: Seq<Tok>, k: int, e: EmitState) -> EmitState
    decreases toks.len() - k,
{
    if k < 0 || k >= toks.len() {
        e
    } else {
        emit_from(s, toks, k + 1, emit_token(s, toks, k, e))
    }
}

pub open spec fn with_final_newline(out: Seq<u8>) -> Seq<u8> {
    if out.len() > 0 && out.last() != LF {
        out.push(LF)
    } else {
        out
    }
}

/// The prettified document: children of block elements on lines of their
/// own, contents of mixed elements as they are, one final newline.
pub open spec fn xml_pretty(s: Seq<u8>) -> Seq<u8> {
    with_final_newline(
        emit_from(s, tokens_from(s, 0), 0, EmitState { out: Seq::empty(), modes: Seq::empty() }).out,
    )
}

/// Returns the end of an opening tag and whether it closes itself.
fn find_open_end(s: &[u8], i: usize) -> (r: (usize, bool))
    requires
        i <= s@.len(),
    ensures
        r.0 == open_tag_end(s@, i as int),
        r.1 == open_tag_self_closed(s@, i as int),
        i <= r.0 <= s@.len(),
{
    let mut j: usize = i;
    while j < s.len()
        invariant
            i <= j <= s@.len(),
            open_tag_end(s@, j as int) == open_tag_end(s@, i as int),
            open_tag_self_closed(s@, j as int) == open_tag_self_closed(s@, i as int),
        decreases s@.len() - j,
    {
        let b = s[j];
        if b == QUOTE || b == APOS {
            j = find_past_byte(s, j + 1, b);
        } else if b == GT {
            return (j + 1, j > 0 && s[j - 1] == SLASH);
        } else {
            j += 1;
        }
    }
    (j, false)
}

fn next_token(input: &[u8], i: usize) -> (r: Tok)
    requires
        i < input@.len(),
    ensures
        (r.kind, r.end as int) == token_at(input@, i as int),
        r.start == i,
        i < r.end <= input@.len(),
{
    proof {
        lemma_token_at(input@, i as int);
    }
    if input[i] != LT {
        return Tok { kind: TokKind::Text, start: i, end: find_byte(input, i, LT) };
    }
    if input.len() - i < 2 {
        return Tok { kind: TokKind::Text, start: i, end: i + 1 };
    }
    let b = input[i + 1];
    if b == QUESTION {
        Tok { kind: TokKind::Pi, start: i, end: find_closed_by(input, i + 2, &[QUESTION, GT]) }
    } else if b == BANG {
        if has_prefix_at(input, i + 2, &[MINUS, MINUS]) {
            Tok { kind: TokKind::Comment, start: i, end: find_closed_by(input, i + 4, &[MINUS, MINUS, GT]) }
        } else if has_prefix_at(input, i + 2, &[LBRACKET, 0x43, 0x44, 0x41, 0x54, 0x41, LBRACKET]) {
            Tok { kind: TokKind::CData, start: i, end: find_closed_by(input, i + 9, &[RBRACKET, RBRACKET, GT]) }
        } else {
            Tok { kind: TokKind::Doctype, start: i, end: find_doctype_end(input, i + 2) }
        }
    } else if b == SLASH {
        Tok { kind: TokKind::Close, start: i, end: find_past_byte(input, i + 2, GT) }
    } else if name_start_byte(b) {
        let (end, self_close) = find_open_end(input, i + 1);
        if self_close {
            Tok { kind: TokKind::SelfClose, start: i, end }
        } else {
            Tok { kind: TokKind::Open, start: i, end }
        }
    } else {
        // Stray `<`: emit as text and move on.
        Tok { kind: TokKind::Text, start: i, end: i + 1 }
    }
}

/// Every token lies in the input and is not empty.
pub open spec fn toks_ok(s: Seq<u8>, toks: Seq<Tok>) -> bool {
    forall|k: int| 0 <= k < toks.len() ==> (#[trigger] toks[k]).start < toks[k].end && toks[k].end <= s.len()
}

fn tokenize_pretty(input: &[u8]) -> (out: Vec<Tok>)
    ensures
        out@ == tokens_from(input@, 0),
        toks_ok(input@, out@),
{
    let mut out: Vec<Tok> = Vec::new();
    let mut i: usize = 0;
    proof {
        assert(out@ + tokens_from(input@, 0) =~= tokens_from(input@, 0));
    }
    while i < input.len()
        invariant
            i <= input@.len(),
            toks_ok(input@, out@),
            tokens_from(input@, 0) == out@ + tokens_from(input@, i as int),
        decreases input@.len() - i,
    {
        let ghost before = out@;
        let t = next_token(input, i);
        out.push(t);
        proof {
            assert(before + (seq![t] + tokens_from(input@, t.end as int)) =~= out@ + tokens_from(
                input@,
                t.end as int,
            ));
        }
        i = t.end;
    }
    proof {
        assert(out@ + Seq::<Tok>::empty() =~= out@);
    }
    out
}

fn has_text_bytes(s: &[u8]) -> (r: bool)
    ensures
        r == has_text(s@),
{
    let mut i: usize = 0;
    while i < s.len()
        invariant
            i <= s@.len(),
            forall|k: int| 0 <= k < i ==> is_ws(#[trigger] s@[k]),
        decreases s@.len() - i,
    {
        if !is_ws_byte(s[i]) {
            return true;
        }
        i += 1;
    }
    false
}

/// Indices of the opening tokens among the first `n`, in order.
pub open spec fn open_indices(toks: Seq<Tok>, n: int) -> Seq<int>
    decreases n,
{
    if n <= 0 {
        Seq::empty()
    } else if toks[n - 1].kind == TokKind::Open {
        open_indices(toks, n - 1).push(n - 1)
    } else {
        open_indices(toks, n - 1)
    }
}

/// For each opening token, in document order: is its content a block?
fn classify_blocks(tokens: &[Tok], input: &[u8]) -> (flags: Vec<bool>)
    requires
        toks_ok(input@, tokens@),
    ensures
        flags@.len() == open_indices(tokens@, tokens@.len() as int).len(),
        forall|f: int|
            0 <= f < flags@.len() ==> #[trigger] flags@[f] == is_block(
                input@,
                tokens@,
                open_indices(tokens@, tokens@.len() as int)[f],
            ),
{
    let mut flags: Vec<bool> = Vec::new();
    let mut stack: Vec<usize> = Vec::new();
    let mut k: usize = 0;
    while k < tokens.len()
        invariant
            k <= tokens@.len(),
            toks_ok(input@, tokens@),
            flags@.len() == open_indices(tokens@, k as int).len(),
            flags@.len() <= k,
            forall|l: int| 0 <= l < stack@.len() ==> (#[trigger] stack@[l]) < flags@.len(),
            forall|l: int, m: int| 0 <= l < m < stack@.len() ==> (#[trigger] stack@[l]) < (#[trigger] stack@[m]),
            // Elements still open: settled up to what is still to come.
            forall|l: int|
                0 <= l < stack@.len() ==> is_block(
                    input@,
                    tokens@,
                    open_indices(tokens@, k as int)[(#[trigger] stack@[l]) as int],
                ) == (flags@[stack@[l] as int] && block_from(
                    input@,
                    tokens@,
                    k as int,
                    stack@.len() - 1 - l,
                )),
            // Elements already closed: settled.
            forall|f: int|
                0 <= f < flags@.len() && !stack@.contains(f as usize) ==> #[trigger] flags@[f] == is_block(
                    input@,
                    tokens@,
                    open_indices(tokens@, k as int)[f],
                ),
        decreases tokens@.len() - k,
    {
        let t = tokens[k];
        let ghost flags0 = flags@;
        let ghost stack0 = stack@;
        let ghost opens0 = open_indices(tokens@, k as int);
        if t.kind == TokKind::Open {
            flags.push(true);
            stack.push(flags.len() - 1);
            proof {
                let opens = open_indices(tokens@, k + 1);
                assert(stack@ =~= stack0.push(flags0.len() as usize));
                assert forall|l: int| 0 <= l < stack@.len() implies is_block(
                    input@,
                    tokens@,
                    opens[(#[trigger] stack@[l]) as int],
                ) == (flags@[stack@[l] as int] && block_from(input@, tokens@, k + 1, stack@.len() - 1 - l)) by {
                    if l < stack0.len() {
                        assert(stack@[l] == stack0[l]);
                        assert(opens[stack@[l] as int] == opens0[stack@[l] as int]);
                    }
                }
                assert forall|f: int| 0 <= f < flags@.len() && !stack@.contains(f as usize) implies #[trigger] flags@[f]
                    == is_block(input@, tokens@, opens[f]) by {
                    if f == flags0.len() {
                        assert(stack@[stack0.len() as int] == f as usize);
                    } else {
                        assert(opens[f] == opens0[f]);
                        if stack0.contains(f as usize) {
                            let l = choose|l: int| 0 <= l < stack0.len() && stack0[l] == f as usize;
                            assert(stack@[l] == f as usize);
                        }
                        assert(flags0[f] == is_block(input@, tokens@, opens0[f]));
                    }
                }
            }
        } else if t.kind == TokKind::Close {
            let _ = stack.pop();
            proof {
                if stack0.len() > 0 {
                    let top = stack0.last();
                    assert(stack@ =~= stack0.drop_last());
                    assert forall|l: int| 0 <= l < stack@.len() implies is_block(
                        input@,
                        tokens@,
                        opens0[(#[trigger] stack@[l]) as int],
                    ) == (flags@[stack@[l] as int] && block_from(input@, tokens@, k + 1, stack@.len() - 1 - l)) by {
                        assert(stack@[l] == stack0[l]);
                    }
                    assert forall|f: int| 0 <= f < flags@.len() && !stack@.contains(f as usize) implies #[trigger] flags@[f]
                        == is_block(input@, tokens@, opens0[f]) by {
                        if f as usize == top {
                            assert(stack0[stack0.len() - 1] == top);
                        } else if stack0.contains(f as usize) {
                            let l = choose|l: int| 0 <= l < stack0.len() && stack0[l] == f as usize;
                            assert(stack@[l] == f as usize);
                        }
                    }
                } else {
                    assert(stack@ =~= stack0);
                }
            }
        } else {
            let text = t.kind == TokKind::Text && has_text_bytes(slice_subrange(input, t.start, t.end));
            if text && stack.len() > 0 {
                let top = stack[stack.len() - 1];
                flags[top] = false;
            }
            proof {
                let n = stack@.len() as int;
                assert forall|l: int| 0 <= l < stack@.len() implies is_block(
                    input@,
                    tokens@,
                    opens0[(#[trigger] stack@[l]) as int],
                ) == (flags@[stack@[l] as int] && block_from(input@, tokens@, k + 1, stack@.len() - 1 - l)) by {
                    if l < n - 1 {
                        assert(stack@[l] < stack@[n - 1]);
                    }
                }
                assert forall|f: int| 0 <= f < flags@.len() && !stack@.contains(f as usize) implies #[trigger] flags@[f]
                    == is_block(input@, tokens@, opens0[f]) by {
                    if n > 0 {
                        assert(stack@.contains(stack@[n - 1]));
                    }
                    assert(flags0[f] == is_block(input@, tokens@, opens0[f]));
                }
            }
        }
        k += 1;
    }
    proof {
        let opens = open_indices(tokens@, tokens@.len() as int);
        assert forall|f: int| 0 <= f < flags@.len() implies #[trigger] flags@[f] == is_block(
            input@,
            tokens@,
            opens[f],
        ) by {
            if stack@.contains(f as usize) {
                let l = choose|l: int| 0 <= l < stack@.len() && stack@[l] == f as usize;
                assert(is_block(input@, tokens@, opens[stack@[l] as int]) == flags@[f]);
            }
        }
    }
    flags
}

fn trim_ws(s: &[u8]) -> (r: &[u8])
    ensures
        r@ == trimmed_ws(s@),
{
    let lo = skip_ws_at(s, 0);
    let mut hi: usize = s.len();
    while hi > lo && is_ws_byte(s[hi - 1])
        invariant
            lo <= hi <= s@.len(),
            trim_ws_end(s@, lo as int, hi as int) == trim_ws_end(s@, lo as int, s@.len() as int),
        decreases hi,
    {
        hi -= 1;
    }
    slice_subrange(s, lo, hi)
}

fn emit_line_to(out: &mut Vec<u8>, modes: &Vec<bool>, text: &[u8])
    ensures
        final(out)@ == emit_line(EmitState { out: old(out)@, modes: modes@ }, text@),
{
    if (modes.len() == 0 || modes[modes.len() - 1]) && out.len() > 0 {
        write_indent(out, modes.len());
    }
    push_bytes(out, text);
}

fn emit_pretty(tokens: &[Tok], block_flags: &[bool], input: &[u8]) -> (out: Vec<u8>)
    requires
        toks_ok(input@, tokens@),
        block_flags@.len() == open_indices(tokens@, tokens@.len() as int).len(),
        forall|f: int|
            0 <= f < block_flags@.len() ==> #[trigger] block_flags@[f] == is_block(
                input@,
                tokens@,
                open_indices(tokens@, tokens@.len() as int)[f],
            ),
    ensures
        out@ == with_final_newline(
            emit_from(input@, tokens@, 0, EmitState { out: Seq::empty(), modes: Seq::empty() }).out,
        ),
{
    let mut out: Vec<u8> = Vec::new();
    let mut modes: Vec<bool> = Vec::new();
    let mut open_idx: usize = 0;
    let mut k: usize = 0;
    let ghost opens = open_indices(tokens@, tokens@.len() as int);
    let ghost goal = emit_from(input@, tokens@, 0, EmitState { out: Seq::empty(), modes: Seq::empty() });
    while k < tokens.len()
        invariant
            k <= tokens@.len(),
            toks_ok(input@, tokens@),
            opens == open_indices(tokens@, tokens@.len() as int),
            block_flags@.len() == opens.len(),
            forall|f: int|
                0 <= f < block_flags@.len() ==> #[trigger] block_flags@[f] == is_block(input@, tokens@, opens[f]),
            open_idx == open_indices(tokens@, k as int).len(),
            goal == emit_from(input@, tokens@, k as int, EmitState { out: out@, modes: modes@ }),
        decreases tokens@.len() - k,
    {
        let t = tokens[k];
        let text = slice_subrange(input, t.start, t.end);
        let ghost before = EmitState { out: out@, modes: modes@ };
        let block = modes.len() == 0 || modes[modes.len() - 1];
        match t.kind {
            TokKind::Open => {
                proof {
                    lemma_open_indices(tokens@, k + 1, tokens@.len() as int);
                    assert(open_indices(tokens@, k + 1)[open_idx as int] == k);
                }
                let is_block = block_flags[open_idx];
                open_idx += 1;
                emit_line_to(&mut out, &modes, text);
                modes.push(block && is_block);
            },
            TokKind::Close => {
                let _ = modes.pop();
                proof {
                    if before.modes.len() > 0 {
                        assert(modes@ =~= before.modes.drop_last());
                    } else {
                        assert(modes@ =~= before.modes);
                    }
                }
                if block {
                    write_indent(&mut out, modes.len());
                }
                push_bytes(&mut out, text);
            },
            TokKind::Text => {
                if block {
                    // Block context: whitespace-only text gives way to the
                    // formatter's newlines; visible text goes on a line of
                    // its own, trimmed.
                    if has_text_bytes(text) {
                        emit_line_to(&mut out, &modes, trim_ws(text));
                    }
                } else {
                    push_bytes(&mut out, text);
                }
            },
            _ => {
                emit_line_to(&mut out, &modes, text);
            },
        }
        proof {
            assert((EmitState { out: out@, modes: modes@ }) == emit_token(input@, tokens@, k as int, before));
        }
        k += 1;
    }
    if out.len() > 0 && out[out.len() - 1] != LF {
        out.push(LF);
    }
    out
}

proof fn lemma_open_indices(toks: Seq<Tok>, a: int, b: int)
    requires
        0 <= a <= b <= toks.len(),
    ensures
        open_indices(toks, a).len() <= open_indices(toks, b).len(),
        forall|f: int| 0 <= f < open_indices(toks, a).len() ==> #[trigger] open_indices(toks, b)[f] == open_indices(
            toks,
            a,
        )[f],
    decreases b - a,
{
    if a < b {
        lemma_open_indices(toks, a, b - 1);
    }
}

/// Two-pass pretty-printer:
/// 1. Tokenize, and classify each open element as "block" (no direct
///    text children with visible characters) or "mixed".
/// 2. Emit: block elements get each child on its own line at the right
///    depth; mixed elements emit their contents verbatim, so no
///    whitespace inside text is added or removed.
pub fn prettify(input: &[u8]) -> (out: Vec<u8>)
    ensures
        out@ == xml_pretty(input@),
{
    let tokens = tokenize_pretty(input);
    let flags = classify_blocks(tokens.as_slice(), input);
    emit_pretty(tokens.as_slice(), flags.as_slice(), input)
}

} // verus!
