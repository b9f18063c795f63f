//! Characters of a string, one by one.

use vstd::prelude::*;

verus! {

broadcast use vstd::string::group_string_axioms;

/// Whether a number is a Unicode scalar value, which is what a `char` holds.
pub open spec fn is_scalar_value(codepoint: u32) -> bool {
    codepoint < 0xD800 || (0xE000 <= codepoint && codepoint <= 0x10FFFF)
}

/// How many UTF-8 bytes a character takes.
pub open spec fn utf8_width(ch: char) -> int {
    if (ch as u32) < 0x80 {
        1
    } else if (ch as u32) < 0x800 {
        2
    } else if (ch as u32) < 0x10000 {
        3
    } else {
        4
    }
}

/// Where character `i` starts, in UTF-8 bytes.
pub open spec fn utf8_offset(chars: Seq<char>, i: int) -> int
    decreases i,
{
    if i <= 0 {
        0
    } else {
        utf8_offset(chars, i - 1) + utf8_width(chars[i - 1])
    }
}

/// Whether a byte offset into a text's UTF-8 encoding is where one of its characters starts, or
/// its end.
pub open spec fn is_char_start(text: Seq<char>, byte: int) -> bool {
    exists|i: int| 0 <= i <= text.len() && #[trigger] utf8_offset(text, i) == byte
}

/// The character a number stands for, through `char::from_u32`.
#[verifier::external_body]
pub(crate) fn char_from_u32(codepoint: u32) -> (ch: Option<char>)
    ensures
        is_scalar_value(codepoint) ==> ch == Some(codepoint as char),
        !is_scalar_value(codepoint) ==> ch is None,
{
    char::from_u32(codepoint)
}

/// Appends a character to a string, through `String::push`.
#[verifier::external_body]
pub(crate) fn push_char(s: &mut String, ch: char)
    ensures
        final(s)@ == old(s)@.push(ch),
{
    s.push(ch);
}

/// The characters of a string, in order.
pub fn chars_of(text: &str) -> (chars: Vec<char>)
    ensures
        chars@ == text@,
{
    let mut chars: Vec<char> = Vec::new();
    for ch in it: text.chars()
        invariant
            chars@ == it.seq().take(it.index() as int),
    {
        chars.push(ch);
    }
    chars
}

} // verus!
