//! UTF-8 validation of string payloads.

use std::str::Utf8Error;
use vstd::prelude::*;
use vstd::utf8::{encode_utf8, valid_utf8};

verus! {

/// The reason that `std::str::from_utf8` gives for rejecting `bytes`.
pub uninterp spec fn utf8_defect(bytes: Seq<u8>) -> Utf8Error;

/// `std::str::from_utf8`: the string that consists of exactly these bytes
/// where they are UTF-8, and otherwise the reason why they are not, which
/// depends on the bytes alone.
#[verifier::external_body]
pub(crate) fn text_from_utf8(bytes: &[u8]) -> (r: Result<&str, Utf8Error>)
    ensures
        match r {
            Ok(s) => valid_utf8(bytes@) && encode_utf8(s@) == bytes@,
            Err(e) => !valid_utf8(bytes@) && e == utf8_defect(bytes@),
        },
{
    std::str::from_utf8(bytes)
}

} // verus!
