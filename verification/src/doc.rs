//! Document model: owns the byte buffer, the chosen format, and the
//! parse indexes.
//!
//! Backing storage is a `ByteSource`, so an open document can be either
//! a memory-mapped file (zero-copy, great for huge inputs) or an owned
//! byte buffer. It is cheap to clone: both variants are `Arc`-wrapped, so
//! threads can share the same bytes.

use memmap2::Mmap;
use std::sync::Arc;
use vstd::prelude::*;
use vstd::slice::slice_subrange;

use crate::ascii::{CR, LF};
use crate::bytes::{lemma_line_starts, line_starts_in};
use crate::format::{document_of, line_starts_ok, Format, ParseOutput, ProgressSink};

verus! {

/// A read-only memory map.
#[verifier::external_type_specification]
#[verifier::external_body]
pub struct ExMmap(memmap2::Mmap);

/// The bytes a memory map shows. Making one is unsafe: whoever does
/// vouches that the file behind it does not change while it is mapped.
pub uninterp spec fn mapped_bytes(map: memmap2::Mmap) -> Seq<u8>;

/// `<memmap2::Mmap as AsRef<[u8]>>::as_ref`: the mapped bytes.
#[verifier::external_body]
fn mmap_slice(map: &Mmap) -> (r: &[u8])
    ensures
        r@ == mapped_bytes(*map),
{
    map.as_ref()
}

/// `Arc::<[u8]>::from` a vector: moves its bytes into shared storage.
#[verifier::external_body]
fn share_bytes(v: Vec<u8>) -> (r: Arc<[u8]>)
    ensures
        r@ == v@,
{
    Arc::from(v)
}

#[derive(Debug)]
pub enum ByteSource {
    Mmap(Arc<Mmap>),
    Owned(Arc<[u8]>),
}

impl View for ByteSource {
    type V = Seq<u8>;

    /// The bytes of the document.
    open spec fn view(&self) -> Seq<u8> {
        match self {
            ByteSource::Mmap(m) => mapped_bytes(**m),
            ByteSource::Owned(v) => v@,
        }
    }
}

impl Clone for ByteSource {
    fn clone(&self) -> (r: Self)
        ensures
            r@ == self@,
    {
        match self {
            ByteSource::Mmap(m) => ByteSource::Mmap(m.clone()),
            ByteSource::Owned(v) => ByteSource::Owned(v.clone()),
        }
    }
}

impl ByteSource {
    pub fn from_vec(v: Vec<u8>) -> (r: Self)
        ensures
            r@ == v@,
            r is Owned,
    {
        ByteSource::Owned(share_bytes(v))
    }

    pub fn as_slice(&self) -> (r: &[u8])
        ensures
            r@ == self@,
    {
        match self {
            ByteSource::Mmap(m) => mmap_slice(m),
            ByteSource::Owned(v) => v,
        }
    }

    pub fn len(&self) -> (n: usize)
        ensures
            n == self@.len(),
    {
        self.as_slice().len()
    }
}

#[derive(Debug)]
pub struct Document {
    pub bytes: ByteSource,
    pub format: Format,
    pub output: ParseOutput,
    /// Longest line in bytes, to size the document view's width.
    pub max_line_bytes: u32,
}

/// Where line `k` ends: before the line feed that starts the next line,
/// or at the end of the document.
pub open spec fn line_end_of(starts: Seq<u32>, k: int, total: int) -> int {
    if k + 1 < starts.len() {
        starts[k + 1] - 1
    } else {
        total
    }
}

/// Length in bytes of the longest of the first `n` lines.
pub open spec fn longest_line(starts: Seq<u32>, n: int, total: int) -> int
    decreases n,
{
    if n <= 0 {
        0
    } else {
        let before = longest_line(starts, n - 1, total);
        let here = line_end_of(starts, n - 1, total) - starts[n - 1];
        if here > before {
            here
        } else {
            before
        }
    }
}

/// A line feed ends line `k`: the one before the next line, or one that
/// the document ends with.
pub open spec fn line_fed(bytes: Seq<u8>, starts: Seq<u32>, k: int) -> bool {
    k + 1 < starts.len() || (starts[k] < bytes.len() && bytes.last() == LF)
}

/// Text of line `k`, without its line feed and a carriage return before
/// that.
pub open spec fn line_text(bytes: Seq<u8>, starts: Seq<u32>, k: int) -> Seq<u8> {
    let start = starts[k] as int;
    if !line_fed(bytes, starts, k) {
        bytes.subrange(start, bytes.len() as int)
    } else {
        let end = if k + 1 < starts.len() {
            starts[k + 1] - 1
        } else {
            bytes.len() - 1
        };
        if end > start && bytes[end - 1] == CR {
            bytes.subrange(start, end - 1)
        } else {
            bytes.subrange(start, end)
        }
    }
}

/// No line is longer than the longest one.
pub proof fn law_longest_line(starts: Seq<u32>, n: int, total: int, k: int)
    requires
        line_starts_ok(starts, total),
        0 <= k < n <= starts.len(),
    ensures
        line_end_of(starts, k, total) - starts[k] <= longest_line(starts, n, total),
    decreases n,
{
    if k < n - 1 {
        law_longest_line(starts, n - 1, total, k);
    }
}

/// A line holds no line feed.
pub proof fn law_lines_hold_no_feed(bytes: Seq<u8>, k: int)
    requires
        bytes.len() < u32::MAX,
        0 <= k < line_starts_in(bytes, bytes.len() as int).len(),
    ensures
        !line_text(bytes, line_starts_in(bytes, bytes.len() as int), k).contains(LF),
{
    let starts = line_starts_in(bytes, bytes.len() as int);
    lemma_line_starts(bytes, bytes.len() as int);
    let text = line_text(bytes, starts, k);
    let start = starts[k] as int;
    if k + 1 < starts.len() {
        assert(starts[k] < starts[k + 1]);
    }
    if text.contains(LF) {
        let i = choose|i: int| 0 <= i < text.len() && text[i] == LF;
        assert(bytes[start + i] == LF);
        let m = choose|m: int| 0 <= m < starts.len() && starts[m] == (start + i + 1) as u32;
        assert(starts[m] == start + i + 1);
        if m < k {
            assert(starts[m] < starts[k]);
        } else if k + 1 < m {
            assert(starts[k + 1] < starts[m]);
        }
        assert(false);
    }
}

impl Document {
    /// The indexes belong to the bytes.
    pub open spec fn wf(&self) -> bool {
        &&& self.bytes@.len() < u32::MAX
        &&& self.output.wf(self.bytes@.len() as int)
        &&& self.max_line_bytes == longest_line(
            self.output.line_starts@,
            self.output.line_starts@.len() as int,
            self.bytes@.len() as int,
        )
    }

    /// Parses `bytes` as `format` into a document.
    pub fn from_source(format: Format, bytes: ByteSource, progress: Option<&ProgressSink>) -> (r: Arc<Self>)
        requires
            bytes@.len() < u32::MAX,
        ensures
            r.bytes == bytes,
            r.format == format,
            r.output.reports(bytes@, document_of(format, bytes@)),
            r.output.error is None ==> r.output.line_starts@ == line_starts_in(bytes@, bytes@.len() as int),
            r.wf(),
    {
        let output = crate::format::parse(format, bytes.as_slice(), progress);
        let max_line_bytes = max_line_length(output.line_starts.as_slice(), bytes.len() as u32);
        Arc::new(Document { bytes, format, output, max_line_bytes })
    }

    pub fn line_count(&self) -> (n: usize)
        requires
            self.wf(),
        ensures
            n == self.output.line_starts@.len(),
            n >= 1,
    {
        self.output.line_starts.len()
    }

    /// Bytes of `line` with any trailing `\n` / `\r\n` stripped.
    pub fn line_bytes(&self, line: usize) -> (r: &[u8])
        requires
            self.wf(),
            line < self.output.line_starts@.len(),
        ensures
            r@ == line_text(self.bytes@, self.output.line_starts@, line as int),
    {
        let starts = &self.output.line_starts;
        let all = self.bytes.as_slice();
        let start: usize = starts[line] as usize;
        let n: usize = starts.len();
        let stop: usize = if line + 1 < n {
            starts[line + 1] as usize
        } else {
            all.len()
        };
        if line + 1 >= n && !(stop > start && all[stop - 1] == LF) {
            return slice_subrange(all, start, stop);
        }
        let end: usize = stop - 1;
        if end > start && all[end - 1] == CR {
            slice_subrange(all, start, end - 1)
        } else {
            slice_subrange(all, start, end)
        }
    }
}

fn max_line_length(starts: &[u32], total: u32) -> (r: u32)
    requires
        line_starts_ok(starts@, total as int),
    ensures
        r == longest_line(starts@, starts@.len() as int, total as int),
{
    let mut longest: u32 = 0;
    let mut k: usize = 0;
    while k < starts.len()
        invariant
            line_starts_ok(starts@, total as int),
            k <= starts@.len(),
            longest == longest_line(starts@, k as int, total as int),
        decreases starts@.len() - k,
    {
        let end: u32 = if k + 1 < starts.len() {
            starts[k + 1] - 1
        } else {
            total
        };
        proof {
            if k + 1 < starts@.len() {
                assert(starts@[k as int] < starts@[k + 1]);
            }
            assert(starts@[k as int] <= total);
        }
        let here: u32 = end - starts[k];
        if here > longest {
            longest = here;
        }
        k += 1;
    }
    longest
}

} // verus!
