//! JSON pretty-printer.

use vstd::prelude::*;

use crate::format::json;
use crate::format::json::json_pretty;

verus! {

/// Re-emits JSON text with 2-space indentation and a newline after each
/// comma; strings and scalars are copied through verbatim.
pub fn prettify(input: &[u8]) -> (out: Vec<u8>)
    ensures
        out@ == json_pretty(input@, 0, 0),
{
    json::prettify(input)
}

} // verus!
