use vstd::prelude::*;

verus! {

/// Relies on `String::push`: appends one character at the end.
#[verifier::external_body]
pub(crate) fn string_push(s: &mut String, c: char)
    ensures
        final(s)@ == old(s)@.push(c),
{
    s.push(c);
}

/// A valid Unicode scalar value, the values a `char` can hold.
pub open spec fn scalar_u32(x: u32) -> bool {
    x < 0xD800 || (0xE000 <= x && x < 0x110000)
}

/// Relies on `char::from_u32`: `Some` exactly on Unicode scalar values,
/// and the character it returns has the given code point.
#[verifier::external_body]
pub(crate) fn char_from_u32(x: u32) -> (r: Option<char>)
    ensures
        r == (if scalar_u32(x) {
            Option::Some(x as char)
        } else {
            Option::None
        }),
{
    char::from_u32(x)
}

} // verus!
