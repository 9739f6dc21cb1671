//! What is taken on trust of the standard library: the types and functions
//! that the codec uses and that the verifier has no statement of. Nothing
//! here is proved.

use vstd::prelude::*;
use vstd::utf8::{encode_utf8, valid_utf8};

verus! {

/// `std::string::FromUtf8Error`, the error of `String::from_utf8`. Nothing
/// is claimed of what it holds.
#[verifier::external_type_specification]
#[verifier::external_body]
pub struct ExFromUtf8Error(std::string::FromUtf8Error);

/// `std::io::Error`, the error type of the standard library's byte sinks.
/// Nothing is claimed of what it holds.
#[verifier::external_type_specification]
#[verifier::external_body]
pub struct ExIoError(std::io::Error);

/// `String::from_utf8` succeeds exactly on the byte sequences that are valid
/// UTF-8, and the string it then returns consists of the bytes it was given.
pub assume_specification[ std::string::String::from_utf8 ](vec: std::vec::Vec<u8>) -> (result:
    Result<std::string::String, std::string::FromUtf8Error>)
    ensures
        result is Ok <==> valid_utf8(vec@),
        result matches Ok(text) ==> encode_utf8(text@) == vec@,
;

} // verus!
