//! JSON-only front end: the indexes of a JSON document under the names
//! the JSON view uses.

use vstd::prelude::*;

use crate::ascii::{COLON, QUOTE};
use crate::bytes::{line_starts_in, skip_ws_at, skip_ws_from};
use crate::format::cursor::byte_at;
use crate::format::json;
use crate::format::json::{find_string_stop, jq_path as jq_path_of, json_document, json_value_bytes, string_stop};
use crate::format::nesting::{entries_named, laminar, segment_named, styles_ordered};
use crate::format::{entry_text, intern_id, interned, line_starts_ok, slice_of_entry, NameInterner, Step};

pub use crate::format::{
    Offset, ParseError, ParseErrorKind, PathEntry, PathIndex, PathSegment, StyleKind, StyleSpan, ROOT_PARENT,
};

verus! {

/// Interner of object keys.
#[derive(Debug)]
pub struct KeyInterner {
    names: NameInterner,
}

impl View for KeyInterner {
    type V = Seq<Seq<u8>>;

    /// The interned keys, by id.
    closed spec fn view(&self) -> Seq<Seq<u8>> {
        self.names@
    }
}

impl KeyInterner {
    pub closed spec fn wf(&self) -> bool {
        self.names.wf()
    }

    /// Id of `key`, which is added when it is not there yet.
    pub fn intern(&mut self, key: &[u8]) -> (id: u32)
        requires
            old(self).wf(),
            old(self)@.len() < u32::MAX,
        ensures
            final(self).wf(),
            final(self)@ == interned(old(self)@, key@),
            id == intern_id(old(self)@, key@),
            final(self)@[id as int] == key@,
    {
        self.names.intern(key)
    }

    /// The bytes interned under `id`.
    pub fn get(&self, id: u32) -> (r: &[u8])
        requires
            self.wf(),
            id < self@.len(),
        ensures
            r@ == self@[id as int],
    {
        self.names.get(id)
    }

    /// Number of distinct keys.
    pub fn len(&self) -> (n: usize)
        ensures
            n == self@.len(),
    {
        self.names.len()
    }
}

impl Default for KeyInterner {
    fn default() -> (r: Self)
        ensures
            r.wf(),
            r@ == Seq::<Seq<u8>>::empty(),
    {
        KeyInterner { names: NameInterner::new() }
    }
}

#[derive(Debug)]
pub struct ParseOutput {
    pub line_starts: Vec<Offset>,
    pub paths: PathIndex,
    pub styles: Vec<StyleSpan>,
    pub keys: KeyInterner,
    pub error: Option<ParseError>,
    pub bytes: usize,
}

impl ParseOutput {
    /// The indexes are well formed, for a document of `len` bytes.
    pub open spec fn wf(&self, len: int) -> bool {
        &&& self.paths.wf()
        &&& laminar(self.paths.entries@)
        &&& styles_ordered(self.styles@)
        &&& self.keys.wf()
        &&& entries_named(self.paths.entries@, self.keys@.len())
        &&& line_starts_ok(self.line_starts@, len)
        &&& self.bytes == len
    }

    /// This output is exactly what `step` says about `input`.
    pub open spec fn reports(&self, input: Seq<u8>, step: Step) -> bool {
        &&& self.line_starts@ == line_starts_in(input, step.st.pos)
        &&& self.paths.entries@ == step.st.paths
        &&& self.styles@ == step.st.styles
        &&& self.keys@ == step.st.names
        &&& self.error == step.err
        &&& self.bytes == input.len()
    }
}

/// Parses a JSON document. On an error the indexes cover the part before
/// it.
pub fn parse(input: &[u8]) -> (out: ParseOutput)
    requires
        input@.len() < u32::MAX,
    ensures
        out.reports(input@, json_document(input@)),
        out.wf(input@.len() as int),
        out.error is None ==> out.line_starts@ == line_starts_in(input@, input@.len() as int),
{
    let parsed = json::parse(input, None);
    ParseOutput {
        line_starts: parsed.line_starts,
        paths: parsed.paths,
        styles: parsed.styles,
        keys: KeyInterner { names: parsed.names },
        error: parsed.error,
        bytes: parsed.bytes,
    }
}

/// Render a path as a jq expression. Non-identifier keys are emitted as
/// `["..."]`; array indices as `[N]`. Empty path gives ".".
pub fn jq_path(segments: &[PathSegment], keys: &KeyInterner) -> (r: String)
    requires
        keys.wf(),
        forall|i: int| 0 <= i < segments@.len() ==> segment_named(#[trigger] segments@[i], keys@.len()),
    ensures
        r@ == jq_path_of(segments@, keys@),
{
    json::path_expression(segments, &keys.names)
}

/// `s` starts as a field does: a key, then a colon, with whitespace
/// around them.
pub open spec fn starts_as_field(s: Seq<u8>) -> bool {
    let k = skip_ws_from(s, 0);
    &&& byte_at(s, k) == Some(QUOTE)
    &&& byte_at(s, skip_ws_from(s, string_stop(s, k + 1))) == Some(COLON)
}

fn is_field(s: &[u8]) -> (r: bool)
    ensures
        r == starts_as_field(s@),
{
    let k = skip_ws_at(s, 0);
    if k >= s.len() || s[k] != QUOTE {
        return false;
    }
    let c = skip_ws_at(s, find_string_stop(s, k + 1));
    c < s.len() && s[c] == COLON
}

/// Bytes of the JSON *value* covered by `entry`: a field without its key
/// and colon, or as it is where it has another shape, an element as it
/// is, the root without surrounding whitespace.
pub fn value_bytes_for_entry<'a>(bytes: &'a [u8], entry: &PathEntry) -> (r: &'a [u8])
    ensures
        r@ == if entry.segment is Key && !starts_as_field(entry_text(bytes@, *entry)) {
            entry_text(bytes@, *entry)
        } else {
            json_value_bytes(bytes@, *entry)
        },
{
    let text = slice_of_entry(bytes, entry);
    match entry.segment {
        PathSegment::Key(_) if !is_field(text) => text,
        _ => json::value_bytes_for_entry(bytes, entry),
    }
}

} // verus!
