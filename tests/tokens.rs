use local_searcher::tokens::{is_stop_word, tokenize, tokenize_lowered};

#[test]
fn test_tokenize() {
    let query = "  the   best   chess  openning    ";
    assert_eq!(tokenize(query), vec!["best", "chess", "openning"]);
}

#[test]
fn tokenize_lowercases_before_filtering() {
    assert_eq!(tokenize("The KING and The Queen"), vec!["king", "queen"]);
}

#[test]
fn tokenize_lowered_keeps_case() {
    assert_eq!(tokenize_lowered("The KING is here"), vec!["The", "KING", "here"]);
}

#[test]
fn tokenize_empty_and_only_stop_words() {
    assert!(tokenize("").is_empty());
    assert!(tokenize("  a an THE of  ").is_empty());
}

#[test]
fn stop_word_membership() {
    assert!(is_stop_word(&"that".chars().collect()));
    assert!(!is_stop_word(&"chess".chars().collect()));
    assert!(!is_stop_word(&"th".chars().collect()));
}
