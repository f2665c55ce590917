use vstd::prelude::*;

verus! {

/// Whether `c` has the Unicode property `White_Space`.
pub open spec fn is_space(c: char) -> bool {
    ||| '\u{9}' <= c <= '\u{d}'
    ||| c == ' '
    ||| c == '\u{85}'
    ||| c == '\u{a0}'
    ||| c == '\u{1680}'
    ||| '\u{2000}' <= c <= '\u{200a}'
    ||| c == '\u{2028}'
    ||| c == '\u{2029}'
    ||| c == '\u{202f}'
    ||| c == '\u{205f}'
    ||| c == '\u{3000}'
}

/// Whether `c` is one of the ten ASCII digits.
pub open spec fn is_digit(c: char) -> bool {
    '0' <= c <= '9'
}

/// Whether `c` has the Unicode property `Alphabetic`, as the standard
/// library's tables have it.
pub uninterp spec fn alphabetic(c: char) -> bool;

/// `char::is_alphabetic` of the standard library tells whether a character
/// has the property `Alphabetic`; the answer depends on the character alone.
pub assume_specification[ char::is_alphabetic ](c: char) -> (yes: bool)
    ensures
        yes == alphabetic(c),
;

/// Whether `c` may stand in an identifier: a letter or an underscore.
pub open spec fn is_word(c: char) -> bool {
    alphabetic(c) || c == '_'
}

/// Tells whether `c` is white space.
pub fn space(c: char) -> (yes: bool)
    ensures
        yes == is_space(c),
{
    (c >= '\u{9}' && c <= '\u{d}') || c == ' ' || c == '\u{85}' || c == '\u{a0}' || c
        == '\u{1680}' || (c >= '\u{2000}' && c <= '\u{200a}') || c == '\u{2028}' || c
        == '\u{2029}' || c == '\u{202f}' || c == '\u{205f}' || c == '\u{3000}'
}

/// Tells whether `c` is an ASCII digit.
pub fn digit(c: char) -> (yes: bool)
    ensures
        yes == is_digit(c),
{
    c >= '0' && c <= '9'
}

/// Tells whether `c` may stand in an identifier.
pub fn word(c: char) -> (yes: bool)
    ensures
        yes == is_word(c),
{
    c.is_alphabetic() || c == '_'
}

} // verus!
