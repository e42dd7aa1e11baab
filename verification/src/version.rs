//! Version numbers of compilers: a version is compared by the number that
//! its digits make once the dots are taken out.

use vstd::prelude::*;

verus! {

/// Whether every character is a decimal digit.
pub open spec fn all_digits(digits: Seq<char>) -> bool {
    forall|i: int| 0 <= i < digits.len() ==> '0' <= #[trigger] digits[i] <= '9'
}

/// The number that decimal digits make.
pub open spec fn digits_value(digits: Seq<char>) -> nat
    decreases digits.len(),
{
    if digits.len() == 0 {
        0
    } else {
        digits_value(digits.drop_last()) * 10 + (digits.last() as nat - '0' as nat) as nat
    }
}

/// The number that a text stands for: one or more decimal digits, with or
/// without a plus sign before them, whose value a `usize` can hold.
pub open spec fn number_of(text: Seq<char>) -> Option<usize> {
    let digits = if text.len() > 0 && text[0] == '+' {
        text.drop_first()
    } else {
        text
    };
    if digits.len() > 0 && all_digits(digits) && digits_value(digits) <= usize::MAX {
        Some(digits_value(digits) as usize)
    } else {
        None
    }
}

/// A text without the occurrences of one character.
pub open spec fn without(text: Seq<char>, c: char) -> Seq<char> {
    text.filter(|x: char| x != c)
}

/// The number by which a version is compared, where it has one.
pub open spec fn version_number(version: Seq<char>) -> Option<usize> {
    number_of(without(version, '.'))
}

/// Whether a version is at least the wanted one, where both have a number.
pub open spec fn reaches(version: Seq<char>, wanted: Seq<char>) -> Option<bool> {
    match (version_number(wanted), version_number(version)) {
        (Some(least), Some(found)) => Some(found >= least),
        _ => None,
    }
}

/// Trusted: `str::parse::<usize>` of the standard library. It gives the
/// number of a text that is made of decimal digits, with or without a plus
/// sign before them, and refuses every other text: an empty one, one with
/// another character in it, and one whose value a `usize` cannot hold.
#[verifier::external_body]
pub(crate) fn parse_number(text: &str) -> (r: Option<usize>)
    ensures
        r == number_of(text@),
{
    text.parse::<usize>().ok()
}

/// Trusted: `str::replace` of the standard library, with one character as
/// the pattern and the empty text in its place. It gives the text without
/// the occurrences of that character.
#[verifier::external_body]
pub(crate) fn remove_char(text: &str, c: char) -> (r: String)
    ensures
        r@ == without(text@, c),
{
    text.replace(c, "")
}

/// The number by which a version is compared.
pub fn version_number_of(version: &str) -> (r: Option<usize>)
    ensures
        r == version_number(version@),
{
    let digits = remove_char(version, '.');
    parse_number(digits.as_str())
}

/// Whether a version is at least the wanted one. A version without a number
/// cannot be compared, whichever of the two it is.
pub fn version_reaches(version: &str, wanted: &str) -> (r: Option<bool>)
    ensures
        r == reaches(version@, wanted@),
{
    match version_number_of(wanted) {
        Some(least) => match version_number_of(version) {
            Some(found) => Some(found >= least),
            None => None,
        },
        None => None,
    }
}

} // verus!
