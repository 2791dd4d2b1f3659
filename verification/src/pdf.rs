//! PDF output: which paths ask for it.

use vstd::prelude::*;
use crate::text::{chars_of, ends_with, lowercase, to_lowercase};

verus! {

/// Whether an output path names a PDF file (`.pdf`, any case).
pub fn output_is_pdf(path: &str) -> (b: bool)
    ensures
        b == ".pdf"@.is_suffix_of(lowercase(path@)),
{
    let lower = to_lowercase(path);
    ends_with(chars_of(lower.as_str()).as_slice(), chars_of(".pdf").as_slice())
}

} // verus!
