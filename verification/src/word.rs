//! Dictionary word hygiene: the filter applied to raw word lists before the
//! search sees them.

use vstd::prelude::*;

verus! {

/// Whether a character has the Unicode uppercase property: the result of
/// `char::is_uppercase`, a function of the character alone.
pub uninterp spec fn char_is_uppercase(c: char) -> bool;

/// Relies on char::is_uppercase: the Unicode Uppercase property, depending
/// on the character alone; among ASCII letters exactly A-Z are uppercase.
#[verifier::external_body]
fn uppercase(c: char) -> (r: bool)
    ensures
        r == char_is_uppercase(c),
        'a' <= c && c <= 'z' ==> !r,
        'A' <= c && c <= 'Z' ==> r,
{
    c.is_uppercase()
}

/// Is `c` an ASCII letter?
pub open spec fn is_ascii_alpha(c: char) -> bool {
    ('a' <= c && c <= 'z') || ('A' <= c && c <= 'Z')
}

/// A word is clean when its first character is not uppercase and every
/// later character is an ASCII letter.
pub open spec fn is_clean_spec(w: Seq<char>) -> bool {
    !char_is_uppercase(w[0]) && forall|j: int| 1 <= j < w.len() ==> is_ascii_alpha(#[trigger] w[j])
}

/// Does the word pass the dictionary filter?  The word must not be empty.
pub fn is_clean(word: &str) -> (r: bool)
    requires
        word@.len() > 0,
    ensures
        r == is_clean_spec(word@),
{
    let len = word.unicode_len();
    let first = word.get_char(0);
    if uppercase(first) {
        return false;
    }
    let mut i: usize = 1;
    while i < len
        invariant
            1 <= i <= len,
            len == word@.len(),
            !char_is_uppercase(word@[0]),
            forall|k: int| 1 <= k < i ==> is_ascii_alpha(#[trigger] word@[k]),
        decreases len - i,
    {
        let c = word.get_char(i);
        if !(('a' <= c && c <= 'z') || ('A' <= c && c <= 'Z')) {
            return false;
        }
        i += 1;
    }
    true
}

} // verus!
