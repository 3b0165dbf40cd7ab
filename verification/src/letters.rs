//! Characters: the lower-case form in which a puzzle keeps its letters, and
//! what it takes for a character to be a letter.

use itertools::Itertools;
use vstd::prelude::*;

verus! {

/// The ASCII lower-case form of a character: `'A'..='Z'` move to `'a'..='z'`,
/// every other character stays as it is.
pub open spec fn ascii_lower(c: char) -> char {
    if 'A' <= c && c <= 'Z' {
        ((c as u8) + 32) as char
    } else {
        c
    }
}

/// Whether `c` is one of the 52 letters of ASCII.
pub open spec fn is_ascii_letter(c: char) -> bool {
    ('a' <= c && c <= 'z') || ('A' <= c && c <= 'Z')
}

/// Whether `c` has the Unicode property `Alphabetic`, as `char::is_alphabetic`
/// reports it. The property is a table of the Unicode character database and
/// is not written out here.
pub uninterp spec fn alphabetic(c: char) -> bool;

/// `char::is_alphabetic` answers with the Unicode property `Alphabetic`.
/// Within ASCII the alphabetic characters are exactly the 52 letters.
pub assume_specification[ char::is_alphabetic ](c: char) -> (b: bool)
    ensures
        b == alphabetic(c),
        c <= '\x7f' ==> b == is_ascii_letter(c),
;

/// The lower-case mapping of `c` in the Unicode character database, as
/// `char::to_lowercase` yields it: one character or more, and for every
/// character but U+0130 exactly one. The mapping is a table and is not
/// written out here.
pub uninterp spec fn lowercase_of(c: char) -> Seq<char>;

/// `char::to_lowercase` on `c`, with the characters that its iterator yields
/// collected in their order.
#[verifier::external_body]
pub(crate) fn lowercase(c: char) -> (form: Vec<char>)
    ensures
        form@ == lowercase_of(c),
{
    c.to_lowercase().collect()
}

/// The lower-case letter that stands for `c` in a puzzle and in a word held
/// against it.
///
/// Within ASCII this is the small letter of a capital and every other
/// character itself, which is also what the Unicode mapping gives there.
/// Beyond ASCII it is the first character of the Unicode lower-case mapping.
/// For U+0130, the one character whose mapping is two characters, a small
/// `i` and a combining dot above, this leaves the `i`. A mapping without any
/// character, which `char::to_lowercase` never yields, would leave `c` itself.
pub open spec fn lower(c: char) -> char {
    if c <= '\x7f' {
        ascii_lower(c)
    } else if lowercase_of(c).len() > 0 {
        lowercase_of(c)[0]
    } else {
        c
    }
}

/// The lower-case letter that stands for `c`.
pub fn to_lower(c: char) -> (r: char)
    ensures
        r == lower(c),
{
    if c <= '\x7f' {
        if 'A' <= c && c <= 'Z' {
            ((c as u8) + 32) as char
        } else {
            c
        }
    } else {
        let form: Vec<char> = lowercase(c);
        if form.len() > 0 {
            form[0]
        } else {
            c
        }
    }
}

/// `Itertools::exactly_one` on the characters of `text`: the character of a
/// text that is one character long, and nothing for the empty text and for a
/// longer one.
#[verifier::external_body]
pub(crate) fn only_char(text: &str) -> (one: Option<char>)
    ensures
        text@.len() == 1 ==> one == Some(text@[0]),
        text@.len() != 1 ==> one is None,
{
    text.chars().exactly_one().ok()
}

} // verus!
