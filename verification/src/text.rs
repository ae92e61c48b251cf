//! Character classification and string building.
//!
//! The lexer's alphabet is split by two Unicode properties, alphanumeric and
//! whitespace. On ASCII both properties are small finite tables and are
//! stated outright; beyond ASCII each is a pure function of the character and
//! is only given a name.

use vstd::prelude::*;

verus! {

/// Whether a character beyond ASCII counts as alphanumeric. The result is a
/// function of the character alone.
pub uninterp spec fn unicode_alphanumeric(c: char) -> bool;

/// Whether a character beyond ASCII counts as whitespace. The result is a
/// function of the character alone.
pub uninterp spec fn unicode_whitespace(c: char) -> bool;

/// The lexer's notion of an identifier character: a decimal digit or a letter.
pub open spec fn char_alphanumeric(c: char) -> bool {
    if (c as u32) < 128 {
        (48 <= c as u32 && c as u32 <= 57)  // '0' ..= '9'
        || (65 <= c as u32 && c as u32 <= 90)  // 'A' ..= 'Z'
        || (97 <= c as u32 && c as u32 <= 122)  // 'a' ..= 'z'
    } else {
        unicode_alphanumeric(c)
    }
}

/// The lexer's notion of a separator character.
pub open spec fn char_whitespace(c: char) -> bool {
    if (c as u32) < 128 {
        (9 <= c as u32 && c as u32 <= 13)  // tab, newline, vertical tab, form feed, carriage return
        || c as u32 == 32  // space
    } else {
        unicode_whitespace(c)
    }
}

/// Relies on char::is_alphanumeric: on ASCII it accepts exactly the decimal
/// digits and the upper- and lower-case letters; beyond ASCII its outcome
/// depends on the character alone.
#[verifier::external_body]
pub(crate) fn is_alphanumeric(c: char) -> (r: bool)
    ensures
        r == char_alphanumeric(c),
        (c as u32) >= 128 ==> r == unicode_alphanumeric(c),
{
    c.is_alphanumeric()
}

/// Relies on char::is_whitespace: on ASCII it accepts exactly the characters
/// with code points 9 through 13 and the space; beyond ASCII its outcome
/// depends on the character alone.
#[verifier::external_body]
pub(crate) fn is_whitespace(c: char) -> (r: bool)
    ensures
        r == char_whitespace(c),
        (c as u32) >= 128 ==> r == unicode_whitespace(c),
{
    c.is_whitespace()
}

/// Relies on String::push: appends the given character to the end of the
/// string.
pub assume_specification[ String::push ](s: &mut String, ch: char)
    ensures
        final(s)@ == old(s)@.push(ch),
;

} // verus!
