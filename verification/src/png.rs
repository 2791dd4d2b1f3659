//! PNG output: which paths ask for it.

use vstd::prelude::*;
use crate::text::{chars_of, ends_with, lowercase, to_lowercase};

verus! {

/// Whether an output path names a PNG file (`.png`, any case).
pub fn output_is_png(path: &str) -> (b: bool)
    ensures
        b == ".png"@.is_suffix_of(lowercase(path@)),
{
    let lower = to_lowercase(path);
    ends_with(chars_of(lower.as_str()).as_slice(), chars_of(".png").as_slice())
}

} // verus!
