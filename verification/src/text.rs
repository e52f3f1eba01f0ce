//! Characters and words: comparison and case mapping.

use vstd::prelude::*;

verus! {

/// Number of letters in a word of the game.
pub const CHAR_COUNT: usize = 5;

/// A word of the game: exactly five characters.
pub type TargetWord = [char; CHAR_COUNT];

/// Whether `c` occurs in the word `w`.
pub open spec fn word_contains(w: Seq<char>, c: char) -> bool {
    exists|i: int| 0 <= i < w.len() && w[i] == c
}

/// Compares two words letter by letter.
pub fn same_word(a: &TargetWord, b: &TargetWord) -> (r: bool)
    ensures
        r == (a@ == b@),
{
    let mut i: usize = 0;
    while i < CHAR_COUNT
        invariant
            i <= CHAR_COUNT,
            forall|j: int| 0 <= j < i ==> a@[j] == b@[j],
        decreases CHAR_COUNT - i,
    {
        if a[i] != b[i] {
            return false;
        }
        i = i + 1;
    }
    assert(a@ =~= b@);
    true
}

/// Whether the character `c` occurs in the word `w`.
pub fn contains_char(w: &TargetWord, c: char) -> (r: bool)
    ensures
        r == word_contains(w@, c),
{
    let mut i: usize = 0;
    while i < CHAR_COUNT
        invariant
            i <= CHAR_COUNT,
            forall|j: int| 0 <= j < i ==> w@[j] != c,
        decreases CHAR_COUNT - i,
    {
        if w[i] == c {
            return true;
        }
        i = i + 1;
    }
    false
}

/// Whether `c` is an ASCII character.
pub open spec fn is_ascii_char(c: char) -> bool {
    (c as u32) < 128
}

/// ASCII upper-case mapping: `a`..`z` become `A`..`Z`, every other character stays.
pub open spec fn ascii_upper(c: char) -> char {
    if 'a' <= c && c <= 'z' {
        ((c as u32) - 32) as char
    } else {
        c
    }
}

/// ASCII lower-case mapping: `A`..`Z` become `a`..`z`, every other character stays.
pub open spec fn ascii_lower(c: char) -> char {
    if 'A' <= c && c <= 'Z' {
        ((c as u32) + 32) as char
    } else {
        c
    }
}

/// The first character of the Unicode upper-case mapping of `c`.
pub uninterp spec fn uppercase_first(c: char) -> char;

/// The first character of the Unicode lower-case mapping of `c`.
pub uninterp spec fn lowercase_first(c: char) -> char;

/// Calls `char::to_uppercase` and takes the first character it yields.
/// Trusted: the result is the named mapping `uppercase_first`; for an ASCII
/// character it is the ASCII upper-case mapping, as std documents. The
/// iterator always yields at least one character, so nothing panics.
#[verifier::external_body]
pub(crate) fn char_to_uppercase(c: char) -> (r: char)
    ensures
        r == uppercase_first(c),
        is_ascii_char(c) ==> r == ascii_upper(c),
{
    c.to_uppercase().next().unwrap()
}

/// Calls `char::to_lowercase` and takes the first character it yields.
/// Trusted: the result is the named mapping `lowercase_first`; for an ASCII
/// character it is the ASCII lower-case mapping, as std documents. The
/// iterator always yields at least one character, so nothing panics.
#[verifier::external_body]
pub(crate) fn char_to_lowercase(c: char) -> (r: char)
    ensures
        r == lowercase_first(c),
        is_ascii_char(c) ==> r == ascii_lower(c),
{
    c.to_lowercase().next().unwrap()
}

/// The ASCII upper-case form of `c`, as `char::to_ascii_uppercase` gives it.
pub fn ascii_uppercase(c: char) -> (r: char)
    ensures
        r == ascii_upper(c),
{
    if 'a' <= c && c <= 'z' {
        let b: u8 = c as u8;
        assert(b == c as u32);
        let r: char = (b - 32) as char;
        r
    } else {
        c
    }
}

} // verus!
