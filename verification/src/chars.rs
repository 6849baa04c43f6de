//! Character classes used by the specification grammar.

use vstd::prelude::*;

verus! {

/// Whether the character carries the Unicode `White_Space` property.
pub open spec fn is_space(c: char) -> bool {
    let u = c as u32;
    ||| 9 <= u <= 13
    ||| u == 32
    ||| u == 0x85
    ||| u == 0xA0
    ||| u == 0x1680
    ||| 0x2000 <= u <= 0x200A
    ||| u == 0x2028
    ||| u == 0x2029
    ||| u == 0x202F
    ||| u == 0x205F
    ||| u == 0x3000
}

/// Executable test for `is_space`.
pub fn space(c: char) -> (r: bool)
    ensures
        r == is_space(c),
{
    let u = c as u32;
    (9 <= u && u <= 13) || u == 32 || u == 0x85 || u == 0xA0 || u == 0x1680 || (0x2000 <= u && u
        <= 0x200A) || u == 0x2028 || u == 0x2029 || u == 0x202F || u == 0x205F || u == 0x3000
}

/// The Unicode word-character classification of `regex_syntax`.
pub uninterp spec fn unicode_word_char(c: char) -> bool;

/// Calls `regex_syntax::is_word_character`, which tells whether `c` is a
/// Unicode word character (Alphabetic, Join_Control, Decimal_Number, Mark or
/// Connector_Punctuation). The result is a fixed function of `c`, named here.
#[verifier::external_body]
fn unicode_word(c: char) -> (r: bool)
    ensures
        r == unicode_word_char(c),
{
    regex_syntax::is_word_character(c)
}

/// Whether the character is a word character: `[A-Za-z0-9_]` in ASCII,
/// the Unicode word class beyond it.
pub open spec fn is_word(c: char) -> bool {
    if (c as u32) < 128 {
        is_ident(c)
    } else {
        unicode_word_char(c)
    }
}

/// ASCII letters, digits and the underscore.
pub open spec fn is_ident(c: char) -> bool {
    ||| 'a' <= c <= 'z'
    ||| 'A' <= c <= 'Z'
    ||| '0' <= c <= '9'
    ||| c == '_'
}

/// Executable test for `is_ident`.
pub fn ident(c: char) -> (r: bool)
    ensures
        r == is_ident(c),
{
    ('a' <= c && c <= 'z') || ('A' <= c && c <= 'Z') || ('0' <= c && c <= '9') || c == '_'
}

/// Executable test for `is_word`.
pub fn word(c: char) -> (r: bool)
    ensures
        r == is_word(c),
{
    if (c as u32) < 128 {
        ident(c)
    } else {
        unicode_word(c)
    }
}

} // verus!
