//! Decoding of the names held in a blob, on top of `core::str`.

use core::str::Utf8Error;
use vstd::prelude::*;
use vstd::utf8::{encode_utf8, valid_utf8};

verus! {

/// `core::str::Utf8Error`, carried through as an opaque value.
#[verifier::external_type_specification]
#[verifier::external_body]
pub struct ExUtf8Error(Utf8Error);

/// The error that `core::str::from_utf8` reports for `bytes`. It depends on the bytes alone.
pub uninterp spec fn utf8_error(bytes: Seq<u8>) -> Utf8Error;

/// `core::str::from_utf8` accepts exactly the valid UTF-8 sequences. An accepted slice becomes
/// the string with the same bytes; for any other slice the error is the one named by
/// `utf8_error`.
pub assume_specification[ core::str::from_utf8 ](v: &[u8]) -> (res: Result<&str, Utf8Error>)
    ensures
        match res {
            Ok(s) => valid_utf8(v@) && encode_utf8(s@) == v@,
            Err(err) => !valid_utf8(v@) && err == utf8_error(v@),
        },
;

} // verus!
