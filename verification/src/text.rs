//! Text primitives that the normaliser is built from.
//!
//! Unicode classification, case mapping, trimming, stemming and splitting are
//! done by the standard library and by two outside crates. Their results are
//! given names here, and the items below say, without proof, how each call
//! relates to its name.

use vstd::prelude::*;

verus! {

/// Whether `char::is_alphanumeric` holds of `c`.
pub uninterp spec fn alphanumeric(c: char) -> bool;

/// What `str::trim` leaves of `s`.
pub uninterp spec fn trimmed(s: Seq<char>) -> Seq<char>;

/// What `str::to_lowercase` makes of `s`.
pub uninterp spec fn lowercased(s: Seq<char>) -> Seq<char>;

/// The Porter stem that `porter_stemmer::stem` computes for `word`.
pub uninterp spec fn stemmed(word: Seq<char>) -> Seq<char>;

/// Not proved: `char::is_alphanumeric` is a function of the character alone.
pub assume_specification[ char::is_alphanumeric ](c: char) -> (b: bool)
    ensures
        b == alphanumeric(c),
;

/// Not proved: `String::push` appends the character at the end.
pub assume_specification[ String::push ](s: &mut String, c: char)
    ensures
        final(s)@ == old(s)@.push(c),
;

/// Not proved: `str::trim` is a function of the characters of the slice.
pub assume_specification[ str::trim ](s: &str) -> (rest: &str)
    ensures
        rest@ == trimmed(s@),
;

/// Not proved: `str::to_lowercase` is a function of the characters of the
/// slice.
pub assume_specification[ str::to_lowercase ](s: &str) -> (lower: String)
    ensures
        lower@ == lowercased(s@),
;

/// Not proved: `porter_stemmer::stem` is a function of the characters of the
/// word. It returns for every word: no input makes it fail.
pub assume_specification[ porter_stemmer::stem ](word: &str) -> (stem: String)
    ensures
        stem@ == stemmed(word@),
;

/// Not proved: `==` on string slices compares their characters.
pub assume_specification[ <str as PartialEq>::eq ](a: &str, b: &str) -> (same: bool)
    ensures
        same == (a@ == b@),
;

/// The characters of `s` that are alphanumeric, in order.
pub open spec fn alphanumerics(s: Seq<char>) -> Seq<char>
    decreases s.len(),
{
    if s.len() == 0 {
        Seq::empty()
    } else if alphanumeric(s.last()) {
        alphanumerics(s.drop_last()).push(s.last())
    } else {
        alphanumerics(s.drop_last())
    }
}

/// Drops every character of `word` that is not alphanumeric.
pub fn keep_alphanumerics(word: &str) -> (kept: String)
    ensures
        kept@ == alphanumerics(word@),
{
    let mut kept = String::new();
    for c in it: word.chars()
        invariant
            it.seq() == word@,
            kept@ == alphanumerics(word@.take(it.index() as int)),
    {
        proof {
            let n = it.index() as int;
            assert(word@.take(n + 1).drop_last() == word@.take(n));
        }
        if c.is_alphanumeric() {
            kept.push(c);
        }
    }
    proof {
        assert(word@.take(word@.len() as int) == word@);
    }
    kept
}

/// The two characters that separate tokens.
pub open spec fn blank(c: char) -> bool {
    c == ' ' || c == '\n'
}

/// The pieces of `text` between its runs of blanks, read character by
/// character: a character that is not blank extends the last piece, the first
/// blank of a run opens a new piece, and the other blanks of a run do nothing.
/// A text that begins or ends with a blank so has an empty first or last piece,
/// and the empty text has one empty piece.
pub open spec fn pieces(text: Seq<char>) -> Seq<Seq<char>>
    decreases text.len(),
{
    if text.len() == 0 {
        seq![Seq::empty()]
    } else {
        let before = pieces(text.drop_last());
        if !blank(text.last()) {
            before.drop_last().push(before.last().push(text.last()))
        } else if text.len() >= 2 && blank(text[text.len() - 2]) {
            before
        } else {
            before.push(Seq::empty())
        }
    }
}

/// The characters of each string of `strings`.
pub open spec fn views(strings: Seq<String>) -> Seq<Seq<char>> {
    Seq::new(strings.len(), |i: int| strings[i]@)
}

/// Splits `text` with `regex::Regex::split`, the expression being `pattern`.
///
/// Not proved: with the expression `[ \n]+` a match is a maximal run of
/// spaces and newlines, and `split` hands out what lies between the matches,
/// before the first and after the last, empty pieces included.
#[verifier::external_body]
pub(crate) fn split(pattern: &str, text: &str) -> (parts: Vec<String>)
    requires
        pattern@ == "[ \n]+"@,
    ensures
        views(parts@) == pieces(text@),
{
    let expression = regex::Regex::new(pattern).unwrap();
    let mut parts = Vec::new();
    for part in expression.split(text) {
        parts.push(part.to_string());
    }
    parts
}

} // verus!
