//! What this library takes on trust from the standard library's UTF-8
//! decoding.

use std::string::FromUtf8Error;
use vstd::prelude::*;
use vstd::utf8::{encode_utf8, valid_utf8};

verus! {

/// The error type of `String::from_utf8`, carried through as an opaque
/// value.
#[verifier::external_type_specification]
#[verifier::external_body]
pub struct ExFromUtf8Error(FromUtf8Error);

/// Trusted, not proved: `String::from_utf8` succeeds on exactly the byte
/// vectors that are valid UTF-8, and the string that it then returns
/// consists of the bytes that it was given.
pub assume_specification[ String::from_utf8 ](vec: Vec<u8>) -> (r: Result<String, FromUtf8Error>)
    ensures
        r.is_ok() <==> valid_utf8(vec@),
        r matches Ok(s) ==> encode_utf8(s@) == vec@,
;

} // verus!
