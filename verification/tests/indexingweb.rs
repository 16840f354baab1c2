use algokit::indexingweb::InvertedWebPages;

fn sample_pages() -> Vec<String> {
    vec![
        "rust is fast and safe".to_string(),
        "rust has a great compiler".to_string(),
        "python is slow but easy".to_string(),
        "java is verbose".to_string(),
    ]
}

#[test]
fn index_lists_the_pages_of_each_word() {
    let mut index = InvertedWebPages::new(&sample_pages());
    index.populate_index();
    assert_eq!(index.pages_with("rust"), Some(&vec![0, 1]));
    assert_eq!(index.pages_with("is"), Some(&vec![0, 2, 3]));
    assert_eq!(index.pages_with("slow"), Some(&vec![2]));
    assert_eq!(index.pages_with("missing"), None);
}

#[test]
fn index_is_empty_before_it_is_populated() {
    let index = InvertedWebPages::new(&sample_pages());
    assert_eq!(index.pages_with("rust"), None);
    assert_eq!(index.page_count(), 4);
    assert_eq!(index.page(2), "python is slow but easy");
}

#[test]
fn a_word_that_occurs_twice_in_a_page_is_listed_twice() {
    let pages = vec!["a b a".to_string(), "  b\t\tb \n a ".to_string()];
    let mut index = InvertedWebPages::new(&pages);
    index.populate_index();
    assert_eq!(index.pages_with("a"), Some(&vec![0, 0, 1]));
    assert_eq!(index.pages_with("b"), Some(&vec![0, 1, 1]));
    assert_eq!(index.pages_with("a b a"), None);
    assert_eq!(index.pages_with(""), None);
}

#[test]
fn populating_again_appends_again() {
    let pages = vec!["x".to_string()];
    let mut index = InvertedWebPages::new(&pages);
    index.populate_index();
    index.populate_index();
    assert_eq!(index.pages_with("x"), Some(&vec![0, 0]));
}

#[test]
fn index_words_adds_the_given_page_number() {
    let mut index = InvertedWebPages::new(&Vec::new());
    index.index_words(&vec!["u".to_string(), "v".to_string(), "u".to_string()], 7);
    assert_eq!(index.pages_with("u"), Some(&vec![7, 7]));
    assert_eq!(index.pages_with("v"), Some(&vec![7]));
}

#[test]
fn common_elements_of_two_word_lists() {
    let mut index = InvertedWebPages::new(&sample_pages());
    index.populate_index();
    let list_a = index.pages_with("rust").unwrap();
    let list_b = index.pages_with("is").unwrap();
    assert_eq!(InvertedWebPages::find_common_elements(list_a, list_b), vec![0]);
}

#[test]
fn common_elements_of_ascending_lists() {
    let a = vec![1, 3, 4, 7, 9];
    let b = vec![2, 3, 7, 8, 9, 10];
    assert_eq!(InvertedWebPages::find_common_elements(&a, &b), vec![3, 7, 9]);
    assert_eq!(InvertedWebPages::find_common_elements(&a, &vec![]), Vec::<usize>::new());
    assert_eq!(InvertedWebPages::find_common_elements(&vec![], &b), Vec::<usize>::new());
    assert_eq!(InvertedWebPages::find_common_elements(&vec![1, 1, 2], &vec![1, 1, 1]), vec![1, 1]);
}

#[test]
fn common_elements_walk_on_lists_out_of_order() {
    // 5 is passed over before 1 is reached in the second list
    assert_eq!(InvertedWebPages::find_common_elements(&vec![5, 1], &vec![1, 5]), vec![5]);
}
