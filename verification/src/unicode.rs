//! Character classification and case mapping, as the standard library
//! defines them.
use vstd::prelude::*;

verus! {

/// Unicode `White_Space` property, the set that `char::is_whitespace` uses.
pub open spec fn is_white_space(c: char) -> bool {
    let u = c as u32;
    ||| 0x09 <= u <= 0x0D
    ||| u == 0x20
    ||| u == 0x85
    ||| u == 0xA0
    ||| u == 0x1680
    ||| 0x2000 <= u <= 0x200A
    ||| u == 0x2028
    ||| u == 0x2029
    ||| u == 0x202F
    ||| u == 0x205F
    ||| u == 0x3000
}

/// General category `Cc` (control codes), the set that `char::is_control` uses.
pub open spec fn is_control_code(c: char) -> bool {
    let u = c as u32;
    ||| u <= 0x1F
    ||| 0x7F <= u <= 0x9F
}

/// Calls `char::is_whitespace`, documented as true exactly for characters
/// with the Unicode `White_Space` property.
#[verifier::external_body]
pub(crate) fn char_is_whitespace(c: char) -> (r: bool)
    ensures
        r == is_white_space(c),
{
    c.is_whitespace()
}

/// Calls `char::is_control`, documented as true exactly for characters in
/// the general category for control codes (`Cc`).
#[verifier::external_body]
pub(crate) fn char_is_control(c: char) -> (r: bool)
    ensures
        r == is_control_code(c),
{
    c.is_control()
}

/// What `str::to_lowercase` returns for a string: the full Unicode lower-case
/// mapping of each character, which depends on the characters alone.
pub uninterp spec fn lowercase(s: Seq<char>) -> Seq<char>;

/// Calls `str::to_lowercase`.
#[verifier::external_body]
pub(crate) fn to_lowercase(s: &str) -> (r: String)
    ensures
        r@ == lowercase(s@),
{
    s.to_lowercase()
}

} // verus!
