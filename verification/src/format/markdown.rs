//! Markdown as one of the viewer's formats: the heading tree, and style
//! spans for headings, fenced code blocks and inline `code` on any text
//! line. Emphasis, links, lists, blockquotes and indented code blocks
//! render as plain text: the goal is structural navigation.
//!
//! Prettify is a verbatim copy: markdown has no canonical form.

use vstd::prelude::*;

use crate::bytes::lemma_line_starts;
use crate::format::nesting::segment_named;
use crate::format::{NameInterner, ParseOutput, PathEntry, PathIndex, PathSegment, ProgressSink};
use crate::markdown_core;
use crate::markdown_laws::law_markdown_indexes;
use crate::markdown_core::{md_document, section_bytes, section_path};

verus! {

/// Parses a markdown document. Every input parses.
pub fn parse(input: &[u8], progress: Option<&ProgressSink>) -> (out: ParseOutput)
    requires
        input@.len() < u32::MAX,
    ensures
        out.reports(input@, md_document(input@, false).st.done()),
        out.wf(input@.len() as int),
{
    proof {
        law_markdown_indexes(input@, false);
        lemma_line_starts(input@, input@.len() as int);
    }
    let scanned = markdown_core::scan(input, false, progress);
    ParseOutput {
        line_starts: scanned.line_starts,
        paths: PathIndex { entries: scanned.paths },
        styles: scanned.styles,
        names: scanned.names,
        error: None,
        bytes: input.len(),
        csv: None,
    }
}

/// Markdown has no canonical form. Prettify returns the input verbatim,
/// so the toggle is a visual no-op.
pub fn prettify(input: &[u8]) -> (out: Vec<u8>)
    ensures
        out@ == input@,
{
    markdown_core::prettify(input)
}

/// The section path: `/title` per heading; `/` outside any heading.
pub fn path_expression(segments: &[PathSegment], names: &NameInterner) -> (r: String)
    requires
        names.wf(),
        forall|i: int| 0 <= i < segments@.len() ==> segment_named(#[trigger] segments@[i], names@.len()),
    ensures
        r@ == section_path(segments@, names@),
{
    markdown_core::path_expression(segments, names)
}

/// The section of a heading, or the whole document without surrounding
/// whitespace.
pub fn value_bytes_for_entry<'a>(bytes: &'a [u8], entry: &PathEntry) -> (r: &'a [u8])
    ensures
        r@ == section_bytes(bytes@, *entry),
{
    markdown_core::value_bytes_for_entry(bytes, entry)
}

} // verus!
