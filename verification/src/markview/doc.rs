//! Document model: bytes and their markdown structure.

use std::sync::Arc;
use vstd::prelude::*;

use crate::markdown_core::{md_document, parse, ParseOutput, ProgressSink};

pub use crate::doc::ByteSource;

verus! {

#[derive(Debug)]
pub struct Document {
    pub bytes: ByteSource,
    pub output: ParseOutput,
}

impl Document {
    /// The indexes belong to the bytes.
    pub open spec fn wf(&self) -> bool {
        &&& self.bytes@.len() < u32::MAX
        &&& self.output.wf(self.bytes@.len() as int)
    }

    /// Parses `bytes` into a document.
    pub fn from_source(bytes: ByteSource, progress: Option<&ProgressSink>) -> (r: Arc<Self>)
        requires
            bytes@.len() < u32::MAX,
        ensures
            r.bytes == bytes,
            r.output.reports(bytes@, md_document(bytes@, true)),
            r.wf(),
    {
        let output = parse(bytes.as_slice(), progress);
        Arc::new(Document { bytes, output })
    }
}

} // verus!
