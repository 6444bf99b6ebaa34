//! The few standard-library operations the library relies on that vstd gives
//! no specification for. Each contract below restates what the standard
//! library documentation says of the call; none of them is proved here.
use vstd::prelude::*;
use vstd::utf8::{decode_utf8, valid_utf8};

verus! {

/// `std::str::Utf8Error`, the error of a failed UTF-8 conversion. Its
/// contents are opaque to the library.
#[verifier::external_type_specification]
#[verifier::external_body]
pub struct ExUtf8Error(std::str::Utf8Error);

/// `std::io::Error`, the error of a failed read or write. Its contents are
/// opaque to the library.
#[verifier::external_type_specification]
#[verifier::external_body]
pub struct ExIoError(std::io::Error);

/// The error that `std::str::from_utf8` gives for the bytes `bytes`. Its
/// fields (the length of the valid prefix and the length of the bad
/// sequence) are determined by the bytes alone.
pub uninterp spec fn utf8_error_of(bytes: Seq<u8>) -> std::str::Utf8Error;

/// The text that the `Display` implementation of `std::str::Utf8Error`
/// writes for `e`; it is determined by the error alone.
pub uninterp spec fn utf8_error_display(e: std::str::Utf8Error) -> Seq<char>;

/// Calls `std::str::from_utf8`. Claimed of it, as its documentation says:
/// it succeeds exactly when `bytes` is well-formed UTF-8, and the string it
/// gives back holds the characters that `bytes` encodes; the error it gives
/// otherwise is determined by the bytes (it is named, not described).
#[verifier::external_body]
pub fn str_from_utf8<'a>(bytes: &'a [u8]) -> (r: Result<&'a str, std::str::Utf8Error>)
    ensures
        r is Ok <==> valid_utf8(bytes@),
        r matches Ok(s) ==> s@ == decode_utf8(bytes@),
        r matches Err(e) ==> e == utf8_error_of(bytes@),
{
    std::str::from_utf8(bytes)
}

/// Calls the `Display` implementation of `std::str::Utf8Error` (through
/// `format!`). Claimed of it: the text is the one named for the error; its
/// wording is not described.
#[verifier::external_body]
pub fn utf8_error_text(e: &std::str::Utf8Error) -> (s: String)
    ensures
        s@ == utf8_error_display(*e),
{
    format!("{e}")
}

/// Calls the `Display` implementation of `std::io::Error` (through
/// `format!`). Its text depends on the operating system's error messages,
/// so nothing is claimed of the result.
#[verifier::external_body]
pub fn io_error_text(e: &std::io::Error) -> String {
    format!("{e}")
}

} // verus!
