//! Finding the words of a text that a dictionary does not list.

use crate::words::{chars_of_all, split_words, whitespace_words};
use vstd::prelude::*;

verus! {

/// Those of `words` that are not among `known`, in their order and as often
/// as they occur.
pub open spec fn unknown_words(words: Seq<Seq<char>>, known: Seq<Seq<char>>) -> Seq<Seq<char>>
    decreases words.len(),
{
    if words.len() == 0 {
        Seq::empty()
    } else {
        unknown_words(words.drop_last(), known) + if known.contains(words.last()) {
            Seq::empty()
        } else {
            seq![words.last()]
        }
    }
}

/// Whether `word` is one of `known`.
pub fn is_known(known: &Vec<String>, word: &String) -> (listed: bool)
    ensures
        listed == chars_of_all(known@).contains(word@),
{
    let mut i: usize = 0;
    while i < known.len()
        invariant
            i <= known@.len(),
            forall|j: int| 0 <= j < i ==> (#[trigger] known@[j])@ != word@,
        decreases known@.len() - i,
    {
        if known[i] == *word {
            proof {
                assert(chars_of_all(known@)[i as int] == word@);
            }
            return true;
        }
        i += 1;
    }
    proof {
        let all = chars_of_all(known@);
        assert forall|j: int| 0 <= j < all.len() implies all[j] != word@ by {
            assert(known@[j]@ != word@);
        }
    }
    false
}

/// The words of `ip_words` that are not among `dict_words`, in their order
/// and as often as they occur.
pub fn words_not_listed(ip_words: &Vec<String>, dict_words: &Vec<String>) -> (wrong: Vec<String>)
    ensures
        chars_of_all(wrong@) == unknown_words(chars_of_all(ip_words@), chars_of_all(dict_words@)),
{
    let mut wrong_spelling_words: Vec<String> = Vec::new();
    let ghost heard = chars_of_all(ip_words@);
    let ghost known = chars_of_all(dict_words@);
    let mut i: usize = 0;
    proof {
        assert(chars_of_all(wrong_spelling_words@) =~= unknown_words(heard.take(0), known));
    }
    while i < ip_words.len()
        invariant
            i <= ip_words@.len(),
            heard == chars_of_all(ip_words@),
            known == chars_of_all(dict_words@),
            chars_of_all(wrong_spelling_words@) == unknown_words(heard.take(i as int), known),
        decreases ip_words@.len() - i,
    {
        let ghost before = chars_of_all(wrong_spelling_words@);
        let word = &ip_words[i];
        proof {
            assert(heard.take(i + 1).drop_last() =~= heard.take(i as int));
            assert(heard.take(i + 1).last() == word@);
        }
        if !is_known(dict_words, word) {
            wrong_spelling_words.push(word.clone());
            proof {
                assert(chars_of_all(wrong_spelling_words@) =~= before + seq![word@]);
            }
        } else {
            proof {
                assert(before + Seq::<Seq<char>>::empty() =~= before);
            }
        }
        i += 1;
    }
    proof {
        assert(heard.take(ip_words@.len() as int) =~= heard);
    }
    wrong_spelling_words
}

/// The words of `input` that are not words of `dictionary`, in the order in
/// which they stand in `input` and as often as they occur there.
pub fn misspelled_words(input: &str, dictionary: &str) -> (wrong: Vec<String>)
    ensures
        chars_of_all(wrong@) == unknown_words(
            whitespace_words(input@),
            whitespace_words(dictionary@),
        ),
{
    let ip_words = split_words(input);
    let dict_words = split_words(dictionary);
    words_not_listed(&ip_words, &dict_words)
}

} // verus!
