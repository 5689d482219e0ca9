//! Format-agnostic parsing types and dispatch.

pub mod csv;
pub mod csv_columns;
pub mod csv_laws;
pub mod csv_text;
pub mod csv_view;
pub mod cursor;
pub mod detect_laws;
pub mod interner;
pub mod jq_laws;
pub mod json;
pub mod json_broken;
pub mod json_laws;
pub mod json_layout;
pub mod json_reparse;
pub mod json_subtree;
pub mod json_text;
pub mod markdown;
pub mod nesting;
pub mod pretty_laws;
pub mod xml;
pub mod xml_laws;
pub mod xml_layout;
pub mod xml_recovery;
pub mod xml_reindent;
pub mod xml_text;
pub mod xpath_laws;

use std::sync::atomic::{AtomicU64, Ordering};
use vstd::prelude::*;

use vstd::slice::slice_subrange;

use crate::ascii::LT;
use crate::bytes::{bom_len, line_starts_in, skip_ws_at, skip_ws_from};
use crate::format::cursor::byte_at;
use crate::format::json::{jq_path, json_document, json_pretty, json_value_bytes};
use crate::format::nesting::{entries_named, laminar, segment_named, styles_ordered};
use crate::format::xml::{xml_document, xml_pretty, xml_value_bytes, xpath};
use crate::format::csv::{cells_bounded, CsvMeta};

pub use crate::format::interner::{intern_id, interned, NameInterner};

verus! {

/// Lock-free progress channel between a parser running on a worker
/// thread and the thread that polls it. Created with the total byte
/// count; a parser stores its position into `bytes_done` every
/// `PROGRESS_GRANULARITY` bytes and the total at the end.
#[derive(Debug)]
pub struct ProgressSink {
    pub total: u64,
    pub bytes_done: AtomicU64,
}

impl ProgressSink {
    /// A sink for `total` bytes of which none is done. The initial value
    /// of the shared counter is not part of the contract: other threads
    /// may change it at any time.
    pub fn new(total: u64) -> (r: Self)
        ensures
            r.total == total,
    {
        ProgressSink { total, bytes_done: AtomicU64::new(0) }
    }

    /// Publishes the number of bytes done.
    pub fn publish(&self, done: u64) {
        self.bytes_done.store(done, Ordering::Relaxed);
    }
}

/// How many input bytes between progress-counter updates from a parser.
pub const PROGRESS_GRANULARITY: usize = 0x10_0000;

/// Position from which progress is due again once it has been published
/// at `pos`: one granule further on, as far as positions go.
pub open spec fn progress_due(pos: usize) -> usize {
    if pos + PROGRESS_GRANULARITY <= usize::MAX {
        (pos + PROGRESS_GRANULARITY) as usize
    } else {
        usize::MAX
    }
}

/// Byte offset into a document. Documents are shorter than `u32::MAX`
/// bytes.
pub type Offset = u32;

/// What a style span colours.
#[derive(Debug, Clone, Copy, PartialEq, Eq, Structural)]
pub enum StyleKind {
    Key,
    String,
    Number,
    Bool,
    Null,
    Tag,
    AttrName,
    AttrValue,
    Comment,
    CData,
    Pi,
    Heading,
    Code,
    CodeBlock,
}

#[derive(Debug, Clone, Copy, PartialEq, Eq, Structural)]
pub struct StyleSpan {
    pub start: Offset,
    pub end: Offset,
    pub kind: StyleKind,
}

#[derive(Debug, Clone, Copy, PartialEq, Eq, Structural)]
pub enum PathSegment {
    Root,
    /// JSON object key, CSV column: interned name id.
    Key(u32),
    /// JSON array index, CSV row.
    Index(u32),
    /// XML element. `sibling_index` is 1-based when the element has
    /// same-named siblings under its parent, else 0 (omit predicate).
    Element { name: u32, sibling_index: u32 },
    /// XML attribute name (interned).
    Attribute(u32),
    /// Markdown heading: its level and interned text.
    Heading { level: u32, text: u32 },
}

#[derive(Debug, Clone, Copy, PartialEq, Eq, Structural)]
pub struct PathEntry {
    pub start: Offset,
    pub end: Offset,
    pub parent: u32,
    pub segment: PathSegment,
}

/// Parent of an entry that has none.
pub const ROOT_PARENT: u32 = u32::MAX;

/// Sorted list of nested ranges, each tagged with a path segment.
#[derive(Debug)]
pub struct PathIndex {
    pub entries: Vec<PathEntry>,
}

/// Every parent is either absent or an earlier entry.
pub open spec fn parents_ok(entries: Seq<PathEntry>) -> bool {
    forall|i: int|
        0 <= i < entries.len() ==> (#[trigger] entries[i]).parent == ROOT_PARENT || entries[i].parent < i
}

/// Entries appear in the order of their start offsets.
pub open spec fn starts_sorted(entries: Seq<PathEntry>) -> bool {
    forall|i: int, j: int| 0 <= i <= j < entries.len() ==> entries[i].start <= entries[j].start
}

/// Number of entries that start at or before `offset`, counting from the
/// front of a sorted list.
pub open spec fn started(entries: Seq<PathEntry>, offset: int) -> int
    decreases entries.len(),
{
    if entries.len() == 0 {
        0
    } else if entries.last().start <= offset {
        entries.len() as int
    } else {
        started(entries.drop_last(), offset)
    }
}

/// The nearest of `i` and its ancestors that ends after `offset`, or the
/// topmost of them when none does.
pub open spec fn climb(entries: Seq<PathEntry>, i: int, offset: int) -> int
    decreases i,
{
    if 0 <= i < entries.len() && entries[i].end <= offset && 0 <= entries[i].parent < i {
        climb(entries, entries[i].parent as int, offset)
    } else {
        i
    }
}

/// Segments from the root (exclusive) to entry `i` (inclusive).
pub open spec fn path_to(entries: Seq<PathEntry>, i: int) -> Seq<PathSegment>
    decreases i + 1,
{
    if 0 <= i < entries.len() {
        let above = if entries[i].parent < i {
            path_to(entries, entries[i].parent as int)
        } else {
            Seq::empty()
        };
        if entries[i].segment is Root {
            above
        } else {
            above.push(entries[i].segment)
        }
    } else {
        Seq::empty()
    }
}

/// Entry `a` is `i` or an ancestor of `i`.
pub open spec fn is_ancestor(entries: Seq<PathEntry>, a: int, i: int) -> bool
    decreases i + 1,
{
    a == i || (0 <= i < entries.len() && entries[i].parent < i && is_ancestor(entries, a, entries[i].parent as int))
}

pub proof fn lemma_started(entries: Seq<PathEntry>, offset: int)
    requires
        starts_sorted(entries),
    ensures
        0 <= started(entries, offset) <= entries.len(),
        forall|i: int| 0 <= i < started(entries, offset) ==> (#[trigger] entries[i]).start <= offset,
        forall|i: int| started(entries, offset) <= i < entries.len() ==> (#[trigger] entries[i]).start > offset,
    decreases entries.len(),
{
    if entries.len() > 0 && entries.last().start > offset {
        let rest = entries.drop_last();
        lemma_started(rest, offset);
        assert forall|i: int| 0 <= i < started(entries, offset) implies (#[trigger] entries[i]).start <= offset by {
            assert(rest[i] == entries[i]);
        }
        assert forall|i: int| started(entries, offset) <= i < entries.len() implies (#[trigger] entries[i]).start
            > offset by {
            if i < rest.len() {
                assert(rest[i] == entries[i]);
            }
        }
    }
}

/// What `lookup` answers: nothing before the first entry, else the
/// nearest enclosing entry of the last one that has started.
pub open spec fn lookup_spec(entries: Seq<PathEntry>, offset: int) -> Option<int> {
    if started(entries, offset) == 0 {
        None
    } else {
        Some(climb(entries, started(entries, offset) - 1, offset))
    }
}

impl PathIndex {
    /// Sorted by start, each parent before its children, and few enough
    /// entries for `u32` indices.
    pub open spec fn wf(&self) -> bool {
        &&& self.entries@.len() <= ROOT_PARENT
        &&& parents_ok(self.entries@)
        &&& starts_sorted(self.entries@)
    }

    /// Innermost entry whose range contains `offset`. Walks up via
    /// `parent` if the nearest-by-start sibling has already ended, so
    /// this is O(depth).
    pub fn lookup(&self, offset: Offset) -> (r: Option<u32>)
        requires
            self.wf(),
        ensures
            r is None <==> lookup_spec(self.entries@, offset as int) is None,
            r matches Some(i) ==> lookup_spec(self.entries@, offset as int) == Some(i as int) && i
                < self.entries@.len(),
    {
        let mut lo: usize = 0;
        let mut hi: usize = self.entries.len();
        while lo < hi
            invariant
                0 <= lo <= hi <= self.entries@.len(),
                self.wf(),
                forall|i: int| 0 <= i < lo ==> (#[trigger] self.entries@[i]).start <= offset,
                forall|i: int| hi <= i < self.entries@.len() ==> (#[trigger] self.entries@[i]).start > offset,
            decreases hi - lo,
        {
            let mid: usize = lo + (hi - lo) / 2;
            if self.entries[mid].start <= offset {
                lo = mid + 1;
            } else {
                hi = mid;
            }
        }
        proof {
            lemma_started(self.entries@, offset as int);
            let n = started(self.entries@, offset as int);
            if lo < n {
                assert(self.entries@[lo as int].start <= offset);
            }
            if n < lo {
                assert(self.entries@[n].start > offset);
            }
        }
        if lo == 0 {
            return None;
        }
        let mut i: u32 = (lo - 1) as u32;
        loop
            invariant
                self.wf(),
                i < self.entries@.len(),
                lookup_spec(self.entries@, offset as int) == Some(climb(self.entries@, i as int, offset as int)),
            decreases i,
        {
            let e = self.entries[i as usize];
            if e.end > offset || e.parent == ROOT_PARENT {
                return Some(i);
            }
            i = e.parent;
        }
    }

    /// Segments from root (exclusive) to `entry` (inclusive).
    pub fn path_of(&self, entry: u32) -> (r: Vec<PathSegment>)
        requires
            self.wf(),
            entry < self.entries@.len() || entry == ROOT_PARENT,
        ensures
            r@ == path_to(self.entries@, entry as int),
    {
        let mut out: Vec<PathSegment> = Vec::new();
        let mut i: u32 = entry;
        while i != ROOT_PARENT
            invariant
                self.wf(),
                i < self.entries@.len() || i == ROOT_PARENT,
                path_to(self.entries@, entry as int) == path_to(self.entries@, i as int) + out@.reverse(),
            decreases (if i == ROOT_PARENT { 0int } else { i + 1 }),
        {
            let e = self.entries[i as usize];
            let ghost before = out@;
            match e.segment {
                PathSegment::Root => {},
                _ => {
                    out.push(e.segment);
                    proof {
                        assert(out@.reverse() =~= seq![e.segment] + before.reverse());
                    }
                },
            }
            i = e.parent;
            proof {
                let up = path_to(self.entries@, i as int);
                if i == ROOT_PARENT {
                    assert(up =~= Seq::<PathSegment>::empty());
                }
                if !(e.segment is Root) {
                    assert(up.push(e.segment) + before.reverse() =~= up + (seq![e.segment] + before.reverse()));
                }
            }
        }
        let mut r: Vec<PathSegment> = Vec::new();
        let mut k: usize = out.len();
        while k > 0
            invariant
                k <= out@.len(),
                r@ == out@.subrange(k as int, out@.len() as int).reverse(),
            decreases k,
        {
            k -= 1;
            r.push(out[k]);
            assert(r@ =~= out@.subrange(k as int, out@.len() as int).reverse());
        }
        proof {
            assert(out@.subrange(0, out@.len() as int) =~= out@);
            assert(path_to(self.entries@, i as int) =~= Seq::<PathSegment>::empty());
            assert(Seq::<PathSegment>::empty() + out@.reverse() =~= out@.reverse());
        }
        r
    }
}

/// Why a parse stopped early, and where.
#[derive(Debug, Clone, Copy, PartialEq, Eq, Structural)]
pub struct ParseError {
    pub offset: Offset,
    pub kind: ParseErrorKind,
}

#[derive(Debug, Clone, Copy, PartialEq, Eq, Structural)]
pub enum ParseErrorKind {
    UnexpectedByte(u8),
    UnexpectedEof,
    InvalidEscape,
    InvalidNumber,
    /// XML: closing tag doesn't match the open tag at the top of the stack.
    MismatchedTag,
}

/// What a parser has produced when it stands at `pos`.
pub struct ScanState {
    pub pos: int,
    pub paths: Seq<PathEntry>,
    pub styles: Seq<StyleSpan>,
    pub names: Seq<Seq<u8>>,
}

impl ScanState {
    pub open spec fn at(self, pos: int) -> ScanState {
        ScanState { pos, ..self }
    }

    pub open spec fn styled(self, start: int, end: int, kind: StyleKind) -> ScanState {
        ScanState {
            styles: self.styles.push(StyleSpan { start: start as u32, end: end as u32, kind }),
            ..self
        }
    }

    pub open spec fn opened(self, start: int, parent: u32, segment: PathSegment) -> ScanState {
        ScanState {
            paths: self.paths.push(PathEntry { start: start as u32, end: 0, parent, segment }),
            ..self
        }
    }

    pub open spec fn spanned(self, start: int, end: int, parent: u32, segment: PathSegment) -> ScanState {
        ScanState {
            paths: self.paths.push(PathEntry { start: start as u32, end: end as u32, parent, segment }),
            ..self
        }
    }

    /// Entry `i` now ends at `end`.
    pub open spec fn closed_at(self, i: int, end: int) -> ScanState {
        ScanState {
            paths: self.paths.update(i, PathEntry { end: end as u32, ..self.paths[i] }),
            ..self
        }
    }

    pub open spec fn with_name(self, name: Seq<u8>) -> ScanState {
        ScanState { names: interned(self.names, name), ..self }
    }

    pub open spec fn failed(self, kind: ParseErrorKind) -> Step {
        self.failed_at(self.pos, kind)
    }

    pub open spec fn failed_at(self, offset: int, kind: ParseErrorKind) -> Step {
        Step { st: self, err: Some(ParseError { offset: offset as u32, kind }) }
    }

    pub open spec fn done(self) -> Step {
        Step { st: self, err: None }
    }

    pub open spec fn empty() -> ScanState {
        ScanState { pos: 0, paths: Seq::empty(), styles: Seq::empty(), names: Seq::empty() }
    }
}

/// Outcome of one parsing step: the state reached and the error that
/// stopped it, if any.
pub struct Step {
    pub st: ScanState,
    pub err: Option<ParseError>,
}

/// The step succeeded and moved past `from`, within `s`.
pub open spec fn moved(s: Seq<u8>, from: int, step: Step) -> bool {
    step.err is None && from < step.st.pos <= s.len()
}

/// The bytes in the range of `entry`, as far as they exist.
pub open spec fn entry_text(bytes: Seq<u8>, entry: PathEntry) -> Seq<u8> {
    let end = if entry.end < bytes.len() {
        entry.end as int
    } else {
        bytes.len() as int
    };
    if entry.start < end {
        bytes.subrange(entry.start as int, end)
    } else {
        Seq::empty()
    }
}

/// The bytes in the range of `entry`, as far as they exist.
pub fn slice_of_entry<'a>(bytes: &'a [u8], entry: &PathEntry) -> (r: &'a [u8])
    ensures
        r@ == entry_text(bytes@, *entry),
{
    let end: usize = if (entry.end as usize) < bytes.len() {
        entry.end as usize
    } else {
        bytes.len()
    };
    let start: usize = entry.start as usize;
    if start < end {
        slice_subrange(bytes, start, end)
    } else {
        let r = slice_subrange(bytes, 0, 0);
        assert(r@ =~= Seq::<u8>::empty());
        r
    }
}

/// Everything the views need to know about a document. On a parse error
/// the indexes cover the part before it.
#[derive(Debug)]
pub struct ParseOutput {
    pub line_starts: Vec<Offset>,
    pub paths: PathIndex,
    pub styles: Vec<StyleSpan>,
    pub names: NameInterner,
    pub error: Option<ParseError>,
    pub bytes: usize,
    /// Table layout, for CSV documents.
    pub csv: Option<CsvMeta>,
}

/// Line starts of a document of `len` bytes: zero first, then growing,
/// none past the end.
pub open spec fn line_starts_ok(starts: Seq<Offset>, len: int) -> bool {
    &&& starts.len() > 0
    &&& starts[0] == 0
    &&& forall|i: int, j: int| 0 <= i < j < starts.len() ==> (#[trigger] starts[i]) < (#[trigger] starts[j])
    &&& forall|i: int| 0 <= i < starts.len() ==> (#[trigger] starts[i]) <= len
}

impl ParseOutput {
    /// The indexes are well formed, for a document of `len` bytes.
    pub open spec fn wf(&self, len: int) -> bool {
        &&& self.paths.wf()
        &&& laminar(self.paths.entries@)
        &&& styles_ordered(self.styles@)
        &&& self.names.wf()
        &&& entries_named(self.paths.entries@, self.names@.len())
        &&& line_starts_ok(self.line_starts@, len)
        &&& self.bytes == len
        &&& self.csv matches Some(meta) ==> meta.wf() && cells_bounded(self.paths.entries@, len)
    }

    /// This output is exactly what `step` says about `input`.
    pub open spec fn reports(&self, input: Seq<u8>, step: Step) -> bool {
        &&& self.line_starts@ == line_starts_in(input, step.st.pos)
        &&& self.paths.entries@ == step.st.paths
        &&& self.styles@ == step.st.styles
        &&& self.names.wf()
        &&& self.names@ == step.st.names
        &&& self.error == step.err
        &&& self.bytes == input.len()
        &&& self.csv is None
    }
}

// --- dispatch -------------------------------------------------------

/// The formats that are detected by content.
#[derive(Debug, Clone, Copy, PartialEq, Eq, Structural)]
pub enum Format {
    Json,
    Xml,
}

/// The format of `bytes`: XML if the first byte after an optional byte
/// order mark and whitespace is `<`, JSON otherwise.
pub open spec fn format_of(bytes: Seq<u8>) -> Format {
    if byte_at(bytes, skip_ws_from(bytes, bom_len(bytes))) == Some(LT) {
        Format::Xml
    } else {
        Format::Json
    }
}

/// Sniff `bytes` to decide format. Skips UTF-8 BOM and leading
/// whitespace. `<` gives XML; anything else JSON (which is also the
/// default for empty input).
pub fn detect(bytes: &[u8]) -> (r: Format)
    ensures
        r == format_of(bytes@),
{
    let mut i: usize = 0;
    if bytes.len() >= 3 && bytes[0] == 0xef && bytes[1] == 0xbb && bytes[2] == 0xbf {
        i = 3;
    }
    let k = skip_ws_at(bytes, i);
    if k < bytes.len() && bytes[k] == LT {
        Format::Xml
    } else {
        Format::Json
    }
}

/// What parsing `input` as `format` yields.
pub open spec fn document_of(format: Format, input: Seq<u8>) -> Step {
    match format {
        Format::Json => json_document(input),
        Format::Xml => xml_document(input),
    }
}

/// Parses `input` as `format`, broken or not.
pub fn parse(format: Format, input: &[u8], progress: Option<&ProgressSink>) -> (out: ParseOutput)
    requires
        input@.len() < u32::MAX,
    ensures
        out.reports(input@, document_of(format, input@)),
        out.wf(input@.len() as int),
        out.error is None ==> out.line_starts@ == line_starts_in(input@, input@.len() as int),
{
    match format {
        Format::Json => json::parse(input, progress),
        Format::Xml => xml::parse(input, progress),
    }
}

/// The prettified text of `input`.
pub open spec fn pretty_of(format: Format, input: Seq<u8>) -> Seq<u8> {
    match format {
        Format::Json => json_pretty(input, 0, 0),
        Format::Xml => xml_pretty(input),
    }
}

/// `input`, re-indented in the style of `format`.
pub fn prettify(format: Format, input: &[u8]) -> (out: Vec<u8>)
    ensures
        out@ == pretty_of(format, input@),
{
    match format {
        Format::Json => json::prettify(input),
        Format::Xml => xml::prettify(input),
    }
}

/// The expression that selects a path: jq for JSON, XPath for XML.
pub open spec fn expression_of(format: Format, segments: Seq<PathSegment>, names: Seq<Seq<u8>>) -> Seq<char> {
    match format {
        Format::Json => jq_path(segments, names),
        Format::Xml => xpath(segments, names),
    }
}

/// The path in the dialect of `format`: jq for JSON, XPath for XML.
pub fn path_expression(format: Format, segments: &[PathSegment], names: &NameInterner) -> (r: String)
    requires
        names.wf(),
        forall|i: int| 0 <= i < segments@.len() ==> segment_named(#[trigger] segments@[i], names@.len()),
    ensures
        r@ == expression_of(format, segments@, names@),
{
    match format {
        Format::Json => json::path_expression(segments, names),
        Format::Xml => xml::path_expression(segments, names),
    }
}

/// The bytes that stand for an entry when its sub-tree is copied.
pub open spec fn value_of(format: Format, bytes: Seq<u8>, entry: PathEntry) -> Seq<u8> {
    match format {
        Format::Json => json_value_bytes(bytes, entry),
        Format::Xml => xml_value_bytes(bytes, entry),
    }
}

/// Bytes to copy for `entry`.
pub fn value_bytes_for_entry<'a>(format: Format, bytes: &'a [u8], entry: &PathEntry) -> (r: &'a [u8])
    ensures
        r@ == value_of(format, bytes@, *entry),
{
    match format {
        Format::Json => json::value_bytes_for_entry(bytes, entry),
        Format::Xml => xml::value_bytes_for_entry(bytes, entry),
    }
}

/// Short label for the path-expression dialect, for the toolbar button
/// title.
pub fn path_label(format: Format) -> (r: &'static str)
    ensures
        r@ == (match format {
            Format::Json => "jq"@,
            Format::Xml => "XPath"@,
        }),
{
    match format {
        Format::Json => "jq",
        Format::Xml => "XPath",
    }
}

/// Short label for the document content kind, for the sub-tree copy
/// button title.
pub fn content_label(format: Format) -> (r: &'static str)
    ensures
        r@ == (match format {
            Format::Json => "JSON"@,
            Format::Xml => "XML"@,
        }),
{
    match format {
        Format::Json => "JSON",
        Format::Xml => "XML",
    }
}

/// The segments of a path refer to the same names as its entries.
pub proof fn lemma_path_named(entries: Seq<PathEntry>, i: int, n: nat)
    requires
        entries_named(entries, n),
    ensures
        forall|k: int| 0 <= k < path_to(entries, i).len() ==> segment_named(#[trigger] path_to(entries, i)[k], n),
    decreases i + 1,
{
    if 0 <= i < entries.len() {
        if entries[i].parent < i {
            lemma_path_named(entries, entries[i].parent as int, n);
        }
        assert(segment_named(entries[i].segment, n));
        let path = path_to(entries, i);
        assert forall|k: int| 0 <= k < path.len() implies segment_named(#[trigger] path[k], n) by {
            if entries[i].parent < i {
                let above = path_to(entries, entries[i].parent as int);
                if k < above.len() {
                    assert(path[k] == above[k]);
                }
            }
        }
    }
}

impl Default for PathIndex {
    fn default() -> (r: Self)
        ensures
            r.entries@ == Seq::<PathEntry>::empty(),
            r.wf(),
    {
        PathIndex { entries: Vec::new() }
    }
}

} // verus!
