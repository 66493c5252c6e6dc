//! What the standard library's text functions are taken to do. Nothing in
//! this file is proved: the contracts say what the documentation of the
//! functions says, and the rest of the library builds on them.

use vstd::prelude::*;
use vstd::utf8::*;

verus! {

/// The error of `core::str::from_utf8`; nothing is read from it.
#[verifier::external_type_specification]
#[verifier::external_body]
pub struct ExUtf8Error(core::str::Utf8Error);

/// `core::str::from_utf8` succeeds exactly on well-formed UTF-8, and the text
/// it then hands back is the one those bytes encode.
pub assume_specification<'a>[ core::str::from_utf8 ](v: &'a [u8]) -> (r: Result<
    &'a str,
    core::str::Utf8Error,
>)
    ensures
        r is Ok <==> valid_utf8(v@),
        r matches Ok(s) ==> s@ == decode_utf8(v@),
;

/// The error of parsing an integer; nothing is read from it but its text.
#[verifier::external_type_specification]
#[verifier::external_body]
pub struct ExParseIntError(core::num::ParseIntError);

/// A decimal digit.
pub open spec fn is_digit(c: char) -> bool {
    '0' <= c && c <= '9'
}

/// The number that a run of decimal digits spells.
pub open spec fn digits_value(digits: Seq<char>) -> nat
    decreases digits.len(),
{
    if digits.len() == 0 {
        0
    } else {
        digits_value(digits.drop_last()) * 10 + (digits.last() as nat - '0' as nat) as nat
    }
}

/// The digits of a number's text: what follows a leading plus sign, or all
/// of it.
pub open spec fn digits_of(text: Seq<char>) -> Seq<char> {
    if text.len() > 0 && text[0] == '+' {
        text.drop_first()
    } else {
        text
    }
}

/// The texts that parse as a `u32`: an optional plus sign, then one or more
/// decimal digits that spell a number within range.
pub open spec fn is_u32_text(text: Seq<char>) -> bool {
    let digits = digits_of(text);
    &&& digits.len() > 0
    &&& forall|i: int| 0 <= i < digits.len() ==> is_digit(#[trigger] digits[i])
    &&& digits_value(digits) <= u32::MAX
}

/// `str::parse::<u32>` accepts an optional plus sign followed by decimal
/// digits and nothing else, not even blanks, and fails where the number
/// does not fit; on success it gives the number that the digits spell.
#[verifier::external_body]
pub(crate) fn parse_u32(text: &str) -> (r: Result<u32, core::num::ParseIntError>)
    ensures
        r is Ok <==> is_u32_text(text@),
        r matches Ok(n) ==> n == digits_value(digits_of(text@)),
{
    text.parse::<u32>()
}

/// `ParseIntError`'s own `description`, a short text that names the error;
/// no more is known of it here.
#[verifier::external_body]
#[allow(deprecated)]
pub(crate) fn parse_error_description(err: &core::num::ParseIntError) -> (text: &str) {
    std::error::Error::description(err)
}

} // verus!
