use catalog::text::{contains_word, filter_stopwords, kept_words, ngrams};

#[test]
fn ngrams_of_identifier() {
    assert_eq!(ngrams("abc"), "a ab abc b bc c");
}

#[test]
fn ngrams_split_at_spaces() {
    assert_eq!(ngrams("ab cd"), "a ab b c cd d");
}

#[test]
fn ngrams_of_empty_text() {
    assert_eq!(ngrams(""), "");
}

#[test]
fn ngrams_are_not_idempotent() {
    assert_eq!(ngrams("ab"), "a ab b");
    assert_eq!(ngrams(&ngrams("ab")), "a a ab b b");
}

#[test]
fn stopwords_are_removed_ignoring_case() {
    assert_eq!(
        filter_stopwords("Foundations of Programming"),
        "Foundations Programming"
    );
    assert_eq!(filter_stopwords("The Art OF Computer  Science"), "Art Computer Science");
    assert_eq!(filter_stopwords("of the and"), "");
}

#[test]
fn stopword_filtering_is_idempotent() {
    let once = filter_stopwords("An Introduction to the Theory of Computation");
    assert_eq!(once, "Introduction Theory Computation");
    assert_eq!(filter_stopwords(&once), once);
}

#[test]
fn query_words_drop_stopwords() {
    assert_eq!(kept_words("foundations of"), vec!["foundations".to_string()]);
    assert_eq!(kept_words(" COMP  202 "), vec!["COMP".to_string(), "202".to_string()]);
}

#[test]
fn words_match_ignoring_case() {
    assert!(contains_word("Foundations Programming", "foundations"));
    assert!(!contains_word("Foundations Programming", "found"));
    assert!(contains_word("COMP", "comp"));
}
