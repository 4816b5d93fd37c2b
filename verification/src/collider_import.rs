//! Rules for colliders that are imported from a page of text, one per letter.

use regex::Regex;
use vstd::prelude::*;

verus! {

/// Marks a collider that a rope can be hooked to.
#[derive(Clone, Copy, Debug, PartialEq, Eq, Structural)]
pub struct Hookable;

/// An ASCII letter or digit.
pub open spec fn is_plain(c: char) -> bool {
    ||| 'a' <= c <= 'z'
    ||| 'A' <= c <= 'Z'
    ||| '0' <= c <= '9'
}

/// Some character of `text` is neither an ASCII letter nor an ASCII digit.
pub open spec fn has_special_char(text: Seq<char>) -> bool {
    exists|i: int| 0 <= i < text.len() && !is_plain(#[trigger] text[i])
}

/// Calls `Regex::new` of the `regex` crate on the pattern, and `Regex::is_match`
/// on the text.
///
/// The one pattern admitted is the class of all characters but the ASCII letters
/// and digits. It is taken on trust that the pattern compiles, that the class
/// matches exactly the single characters outside those ranges, and that
/// `is_match` finds a match wherever in the text there is one: so the call
/// succeeds exactly if the text holds such a character.
#[verifier::external_body]
fn is_match(pattern: &str, text: &str) -> (found: bool)
    requires
        pattern@ == "[^a-zA-Z0-9]"@,
    ensures
        found == has_special_char(text@),
{
    Regex::new(pattern).unwrap().is_match(text)
}

/// Tells whether `s` holds anything but ASCII letters and digits.
pub fn contains_special_chars(s: &str) -> (special: bool)
    ensures
        special == has_special_char(s@),
{
    is_match("[^a-zA-Z0-9]", s)
}

/// Decides whether the collider of a letter can be hooked: it can unless the
/// letter holds a special character.
pub fn hookable(letter: &str) -> (marker: Option<Hookable>)
    ensures
        marker is Some <==> !has_special_char(letter@),
{
    if contains_special_chars(letter) {
        None
    } else {
        Some(Hookable)
    }
}

} // verus!
