//! Plain configuration types for callers that drive the library.

use vstd::prelude::*;

verus! {

/// The output shape to render.
#[derive(Debug, Clone, Copy, PartialEq, Eq, Structural)]
pub enum OutputFormat {
    /// The change-list object with added, removed and modified arrays.
    Changes,
    /// The filtered "after" document.
    After,
    /// The RFC 6902 JSON Patch array.
    Rfc6902,
}

impl OutputFormat {
    /// The identifier of this output shape.
    pub fn to_string(&self) -> (r: String)
        ensures
            *self is Changes ==> r@ == "changes"@,
            *self is After ==> r@ == "after"@,
            *self is Rfc6902 ==> r@ == "rfc6902"@,
    {
        match self {
            OutputFormat::Changes => "changes".to_owned(),
            OutputFormat::After => "after".to_owned(),
            OutputFormat::Rfc6902 => "rfc6902".to_owned(),
        }
    }
}

/// The inputs one comparison runs on: two documents, named by path or given
/// inline, and the output shape to render.
#[derive(Debug)]
pub struct Args {
    pub file1: String,
    pub file2: String,
    pub format: OutputFormat,
}

} // verus!
