//! Calls into `core::str` that the library makes.

use vstd::prelude::*;
use vstd::string::*;
use vstd::utf8::*;

verus! {

/// Declares `core::str::Utf8Error` to Verus as an opaque type; nothing is
/// claimed of what it holds.
#[verifier::external_type_specification]
#[verifier::external_body]
pub struct ExUtf8Error(core::str::Utf8Error);

/// Calls `core::str::from_utf8`.
///
/// Claims what its documentation says: the call succeeds exactly when the bytes
/// are valid UTF-8, and then the string it returns is made of exactly those
/// bytes. Validity is vstd's `valid_utf8`, the UTF-8 definition of RFC 3629.
#[verifier::external_body]
pub(crate) fn str_from_utf8(bytes: &[u8]) -> (r: Result<&str, core::str::Utf8Error>)
    ensures
        match r {
            Ok(s) => valid_utf8(bytes@) && s.spec_bytes() == bytes@,
            Err(_) => !valid_utf8(bytes@),
        },
{
    core::str::from_utf8(bytes)
}

/// The message that `Display` writes for the error `core::str::from_utf8`
/// gives on `bytes`.
pub uninterp spec fn utf8_error_text(bytes: Seq<u8>) -> Seq<char>;

/// Calls `core::str::from_utf8` on `bytes` and writes the error it gives with
/// `format!("{}", ..)` (for bytes that are valid UTF-8, the empty text).
/// Claims only that the text is a function of the bytes, `utf8_error_text`:
/// the wording of `Utf8Error`'s `Display` is not documented.
#[verifier::external_body]
pub(crate) fn utf8_error_message(bytes: &[u8]) -> (r: String)
    ensures
        r@ == utf8_error_text(bytes@),
{
    match core::str::from_utf8(bytes) {
        Ok(_) => String::new(),
        Err(e) => format!("{}", e),
    }
}


/// The decimal digits of `n`, as `Display` writes an unsigned integer.
pub open spec fn decimal(n: nat) -> Seq<char>
    decreases n,
{
    if n < 10 {
        seq![(n + 48) as char]
    } else {
        decimal(n / 10).push(((n % 10) + 48) as char)
    }
}

/// Formats an I/O error with `format!("{}", ..)`: the message its `Display`
/// gives. Nothing is claimed of the text, which the operating system words.
#[verifier::external_body]
pub(crate) fn io_error_text(e: &std::io::Error) -> String {
    format!("{}", e)
}

} // verus!
