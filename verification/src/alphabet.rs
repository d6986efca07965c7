//! The 26 lowercase letters, by character and by position.

use vstd::prelude::*;

verus! {

/// Number of letters in the alphabet.
pub const ALPHABET_LEN: usize = 26;

/// `c` is one of the lowercase letters `a` to `z`.
pub open spec fn is_letter(c: char) -> bool {
    'a' <= c && c <= 'z'
}

/// Position of a letter in the alphabet: `a` is 0 and `z` is 25.
pub open spec fn letter_index(c: char) -> int {
    c as int - 97
}

/// The letter at a position of the alphabet.
pub open spec fn letter_at(i: int) -> char {
    (i + 97) as char
}

/// ASCII case folding: `A` to `Z` become `a` to `z`, every other character stays.
pub open spec fn fold_case(c: char) -> char {
    if 'A' <= c && c <= 'Z' {
        (c as int + 32) as char
    } else {
        c
    }
}

/// A letter is the letter at its own position.
pub proof fn lemma_letter_at_index(c: char)
    requires
        is_letter(c),
    ensures
        letter_at(letter_index(c)) == c,
        0 <= letter_index(c) < 26,
{
}

/// Tells whether `c` is a lowercase letter.
pub fn is_lowercase_letter(c: char) -> (r: bool)
    ensures
        r == is_letter(c),
{
    'a' <= c && c <= 'z'
}

/// Position of the letter `c`.
pub fn index_of_letter(c: char) -> (i: usize)
    requires
        is_letter(c),
    ensures
        i == letter_index(c),
        i < 26,
{
    let code: u32 = c as u32;
    (code - 97) as usize
}

/// The letter at position `i`.
pub fn letter_of_index(i: usize) -> (c: char)
    requires
        i < 26,
    ensures
        c == letter_at(i as int),
        is_letter(c),
        letter_index(c) == i,
{
    let code: u8 = (i + 97) as u8;
    code as char
}

/// Folds an uppercase ASCII letter to lowercase and leaves other characters alone.
pub fn to_folded(c: char) -> (r: char)
    ensures
        r == fold_case(c),
{
    if 'A' <= c && c <= 'Z' {
        let code: u8 = (c as u32 + 32) as u8;
        code as char
    } else {
        c
    }
}

} // verus!
