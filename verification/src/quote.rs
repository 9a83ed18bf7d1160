//! String literals written into generated source.
use vstd::prelude::*;
use crate::names::quoted;

verus! {

/// Printable ASCII that `str`'s `Debug` form writes unchanged.
pub open spec fn plain_byte(b: u8) -> bool {
    32u8 <= b <= 126u8 && b != 34u8 && b != 92u8
}

/// What `format!("{:?}", s)` writes for the text `s` (bytes that are not
/// UTF-8 read as U+FFFD).
pub uninterp spec fn spec_debug_str(s: Seq<u8>) -> Seq<u8>;

/// Calls `format!("{:?}", ..)` (std's `Debug` for `str`) on the text.
/// Trusted: the result is the named `spec_debug_str` of the bytes, and for
/// text made only of printable ASCII other than `"` and `\` it is the text
/// between double quotes (std escapes nothing else in that range).
#[verifier::external_body]
pub fn debug_quote(s: &[u8]) -> (r: Vec<u8>)
    ensures
        r@ == spec_debug_str(s@),
        (forall|i: int| 0 <= i < s@.len() ==> plain_byte(#[trigger] s@[i])) ==> r@ == quoted(s@),
{
    format!("{:?}", String::from_utf8_lossy(s)).into_bytes()
}

} // verus!
