//! Splitting text into words.

use vstd::prelude::*;

verus! {

/// The words of a text: its maximal runs of characters that are not white
/// space, in the order in which they stand, as `str::split_whitespace`
/// yields them.
pub uninterp spec fn whitespace_words(text: Seq<char>) -> Seq<Seq<char>>;

/// The characters of each of the strings.
pub open spec fn chars_of_all(strings: Seq<String>) -> Seq<Seq<char>> {
    strings.map_values(|s: String| s@)
}

/// Calls `str::split_whitespace` and collects what it yields, each word as a
/// string of its own. The contract only gives the result its name,
/// `whitespace_words`: what the standard library does is not proved here.
#[verifier::external_body]
pub(crate) fn split_words(text: &str) -> (words: Vec<String>)
    ensures
        chars_of_all(words@) == whitespace_words(text@),
{
    text.split_whitespace().map(str::to_string).collect()
}

} // verus!
