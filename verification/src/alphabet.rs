//! The bracket alphabet: thirty classes of matching left/right symbols.
//!
//! Class 0 is `(`/`)`, class 1 is `<`/`>`, class 2 is `{`/`}`, class 3 is
//! `[`/`]`, and classes 4 to 29 are the letters `A`..`Z` paired with
//! `a`..`z`. The class index disambiguates which opening bracket a closing
//! bracket matches when base pairs cross.

use vstd::prelude::*;

verus! {

/// Number of bracket classes the alphabet provides.
pub const NUM_BRACKET_CLASSES: usize = 30;

/// Class of `c` as a left (opening) bracket, or -1 when `c` is no left
/// bracket.
pub open spec fn left_class(c: char) -> int {
    if c == '(' {
        0
    } else if c == '<' {
        1
    } else if c == '{' {
        2
    } else if c == '[' {
        3
    } else if 'A' <= c && c <= 'Z' {
        4 + (c as int - 'A' as int)
    } else {
        -1
    }
}

/// Class of `c` as a right (closing) bracket, or -1 when `c` is no right
/// bracket.
pub open spec fn right_class(c: char) -> int {
    if c == ')' {
        0
    } else if c == '>' {
        1
    } else if c == '}' {
        2
    } else if c == ']' {
        3
    } else if 'a' <= c && c <= 'z' {
        4 + (c as int - 'a' as int)
    } else {
        -1
    }
}

pub open spec fn is_left_bracket_char(c: char) -> bool {
    left_class(c) >= 0
}

pub open spec fn is_right_bracket_char(c: char) -> bool {
    right_class(c) >= 0
}

/// The left symbol of class `k`.
pub open spec fn left_symbol(k: int) -> char {
    if k == 0 {
        '('
    } else if k == 1 {
        '<'
    } else if k == 2 {
        '{'
    } else if k == 3 {
        '['
    } else {
        (('A' as u8) + ((k - 4) as u8)) as char
    }
}

/// The right symbol of class `k`.
pub open spec fn right_symbol(k: int) -> char {
    if k == 0 {
        ')'
    } else if k == 1 {
        '>'
    } else if k == 2 {
        '}'
    } else if k == 3 {
        ']'
    } else {
        (('a' as u8) + ((k - 4) as u8)) as char
    }
}

/// No character is both a left and a right bracket, and symbol/class lookup
/// round-trips in both directions within the thirty classes.
pub proof fn lemma_alphabet_consistent()
    ensures
        forall|c: char| !(is_left_bracket_char(c) && is_right_bracket_char(c)),
        forall|k: int|
            0 <= k < NUM_BRACKET_CLASSES ==> #[trigger] left_class(left_symbol(k)) == k
                && right_class(right_symbol(k)) == k,
        forall|c: char| is_left_bracket_char(c) ==> left_symbol(#[trigger] left_class(c)) == c,
        forall|c: char| is_right_bracket_char(c) ==> right_symbol(#[trigger] right_class(c)) == c,
{
}

/// True iff `c` is one of the thirty left bracket symbols.
pub fn is_left_bracket(brace: char) -> (r: bool)
    ensures
        r == is_left_bracket_char(brace),
{
    brace == '(' || brace == '<' || brace == '{' || brace == '[' || ('A' <= brace && brace <= 'Z')
}

/// True iff `c` is one of the thirty right bracket symbols.
pub fn is_right_bracket(brace: char) -> (r: bool)
    ensures
        r == is_right_bracket_char(brace),
{
    brace == ')' || brace == '>' || brace == '}' || brace == ']' || ('a' <= brace && brace <= 'z')
}

/// The class of `brace` as a left bracket, or `NUM_BRACKET_CLASSES` when it
/// is none.
pub fn left_class_of(brace: char) -> (k: usize)
    ensures
        is_left_bracket_char(brace) ==> k == left_class(brace),
        !is_left_bracket_char(brace) ==> k == NUM_BRACKET_CLASSES,
{
    if brace == '(' {
        0
    } else if brace == '<' {
        1
    } else if brace == '{' {
        2
    } else if brace == '[' {
        3
    } else if 'A' <= brace && brace <= 'Z' {
        4 + (brace as u32 - 'A' as u32) as usize
    } else {
        NUM_BRACKET_CLASSES
    }
}

/// The class of `brace` as a right bracket, or `NUM_BRACKET_CLASSES` when it
/// is none.
pub fn right_class_of(brace: char) -> (k: usize)
    ensures
        is_right_bracket_char(brace) ==> k == right_class(brace),
        !is_right_bracket_char(brace) ==> k == NUM_BRACKET_CLASSES,
{
    if brace == ')' {
        0
    } else if brace == '>' {
        1
    } else if brace == '}' {
        2
    } else if brace == ']' {
        3
    } else if 'a' <= brace && brace <= 'z' {
        4 + (brace as u32 - 'a' as u32) as usize
    } else {
        NUM_BRACKET_CLASSES
    }
}

/// The left symbol of class `k`.
pub fn left_symbol_of(k: usize) -> (c: char)
    requires
        k < NUM_BRACKET_CLASSES,
    ensures
        c == left_symbol(k as int),
{
    if k == 0 {
        '('
    } else if k == 1 {
        '<'
    } else if k == 2 {
        '{'
    } else if k == 3 {
        '['
    } else {
        ((('A' as u32) as u8) + ((k - 4) as u8)) as char
    }
}

/// The right symbol of class `k`.
pub fn right_symbol_of(k: usize) -> (c: char)
    requires
        k < NUM_BRACKET_CLASSES,
    ensures
        c == right_symbol(k as int),
{
    if k == 0 {
        ')'
    } else if k == 1 {
        '>'
    } else if k == 2 {
        '}'
    } else if k == 3 {
        ']'
    } else {
        ((('a' as u32) as u8) + ((k - 4) as u8)) as char
    }
}

} // verus!
