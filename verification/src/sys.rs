//! The few standard-library functions that the library calls without a
//! specification from vstd, each with the contract that its documentation
//! gives.

use vstd::prelude::*;
use vstd::utf8::*;

verus! {

#[verifier::external_type_specification]
#[verifier::external_body]
pub struct ExUtf8Error(std::str::Utf8Error);

/// What `Utf8Error::valid_up_to` gives for an error.
pub uninterp spec fn utf8_valid_up_to(error: std::str::Utf8Error) -> nat;

/// `n` is the length of the longest prefix of `bytes` that is valid UTF-8.
pub open spec fn is_longest_valid_prefix(bytes: Seq<u8>, n: int) -> bool {
    &&& 0 <= n <= bytes.len()
    &&& valid_utf8(bytes.take(n))
    &&& forall|j: int| n < j <= bytes.len() ==> !valid_utf8(#[trigger] bytes.take(j))
}

/// `std::str::from_utf8`: succeeds exactly when `bytes` is well-formed
/// UTF-8, and then the `str` it returns is made of those very bytes.  On
/// failure the error's `valid_up_to` is, as std documents it, the largest
/// index up to which the bytes are valid UTF-8.
#[verifier::external_body]
pub(crate) fn str_from_utf8(bytes: &[u8]) -> (res: Result<&str, std::str::Utf8Error>)
    ensures
        res is Ok <==> valid_utf8(bytes@),
        res matches Ok(s) ==> encode_utf8(s@) == bytes@,
        res matches Err(e) ==> is_longest_valid_prefix(bytes@, utf8_valid_up_to(e) as int),
{
    std::str::from_utf8(bytes)
}

/// `String::push`: appends one character to the end of the string.
#[verifier::external_body]
pub(crate) fn push_char(s: &mut String, c: char)
    ensures
        final(s)@ == old(s)@.push(c),
{
    s.push(c)
}

} // verus!
