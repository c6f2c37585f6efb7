//! The 26-letter alphabet that keys, signatures and puzzles are written in.

use vstd::prelude::*;

verus! {

/// `c` is one of `A` to `Z`.
pub open spec fn is_upper(c: char) -> bool {
    'A' <= c && c <= 'Z'
}

/// `c` is one of `a` to `z`.
pub open spec fn is_lower(c: char) -> bool {
    'a' <= c && c <= 'z'
}

/// `c` is an ASCII letter of either case.
pub open spec fn is_letter(c: char) -> bool {
    is_upper(c) || is_lower(c)
}

/// The upper-case form of an ASCII letter; any other character is unchanged.
pub open spec fn upper(c: char) -> char {
    if is_lower(c) {
        ((c as int) - 32) as char
    } else {
        c
    }
}

/// Position of an upper-case letter in the alphabet: `A` is 0, `Z` is 25.
pub open spec fn letter_index(c: char) -> int {
    (c as int) - 65
}

/// The upper-case letter at a position of the alphabet.
pub open spec fn letter_at(i: int) -> char {
    (i + 65) as char
}

/// Tells whether `c` is an ASCII letter.
pub fn is_ascii_letter(c: char) -> (r: bool)
    ensures
        r == is_letter(c),
{
    (c >= 'A' && c <= 'Z') || (c >= 'a' && c <= 'z')
}

/// Folds an ASCII letter to upper case.
pub fn to_upper(c: char) -> (r: char)
    ensures
        r == upper(c),
{
    if c >= 'a' && c <= 'z' {
        ((c as u8) - 32) as char
    } else {
        c
    }
}

/// Alphabet position of an upper-case letter.
pub fn index_of_letter(c: char) -> (r: usize)
    requires
        is_upper(c),
    ensures
        r == letter_index(c),
        r < 26,
{
    ((c as u8) - 65) as usize
}

/// Upper-case letter at an alphabet position.
pub fn letter_of_index(i: usize) -> (r: char)
    requires
        i < 26,
    ensures
        r == letter_at(i as int),
        is_upper(r),
        letter_index(r) == i,
{
    ((i as u8) + 65) as char
}

} // verus!
