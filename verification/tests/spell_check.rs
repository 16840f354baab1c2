use algokit::spell_check::{is_known, misspelled_words, words_not_listed};

#[test]
fn words_missing_from_the_dictionary_are_reported() {
    let wrong = misspelled_words("helo world  this is\ta tset", "this is a world\nhello test");
    assert_eq!(wrong, vec!["helo".to_string(), "tset".to_string()]);
}

#[test]
fn repeated_words_are_reported_each_time() {
    let wrong = misspelled_words("x y x", "y");
    assert_eq!(wrong, vec!["x".to_string(), "x".to_string()]);
}

#[test]
fn nothing_is_wrong_in_an_empty_text() {
    assert_eq!(misspelled_words("", "a b"), Vec::<String>::new());
    assert_eq!(misspelled_words("   \n ", ""), Vec::<String>::new());
}

#[test]
fn every_word_is_wrong_with_an_empty_dictionary() {
    assert_eq!(misspelled_words("a b", ""), vec!["a".to_string(), "b".to_string()]);
}

#[test]
fn spelling_is_case_sensitive() {
    assert_eq!(misspelled_words("Hello", "hello"), vec!["Hello".to_string()]);
}

#[test]
fn words_not_listed_keeps_order() {
    let words = vec!["c".to_string(), "a".to_string(), "b".to_string()];
    let dict = vec!["a".to_string()];
    assert_eq!(words_not_listed(&words, &dict), vec!["c".to_string(), "b".to_string()]);
    assert!(is_known(&dict, &"a".to_string()));
    assert!(!is_known(&dict, &"b".to_string()));
}
