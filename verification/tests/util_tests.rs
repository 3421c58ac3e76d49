use force_alias::util::{contains_text, index_of_substr, index_of_word, split_text, unquote_string};

#[test]
fn index_of_substr_works() {
    assert_eq!(index_of_substr("Don't let your dreams be dreams",
                               "dreams"),
                               Some(15));
    assert_eq!(index_of_substr("Don't let your dreams be dreams",
                               "memes"),
                               None);
}

#[test]
fn unquote_string_works() {
    assert_eq!(unquote_string(&"'42'".to_string()), "42".to_string());
    assert_eq!(unquote_string(&"42".to_string()), "42".to_string());
}

#[test]
fn index_of_substr_edges() {
    assert_eq!(index_of_substr("abc", ""), Some(0));
    assert_eq!(index_of_substr("", ""), None);
    assert_eq!(index_of_substr("ab", "abc"), None);
    assert_eq!(index_of_substr("xabab", "ab"), Some(1));
}

#[test]
fn index_of_word_checks_only_first_occurrence() {
    assert_eq!(index_of_word("git-shell git", "git"), None);
    assert_eq!(index_of_word("a git b", "git"), Some(2));
    assert_eq!(index_of_word("git", "git"), Some(0));
}

#[test]
fn unquote_string_edges() {
    assert_eq!(unquote_string(&"x".to_string()), "".to_string());
    assert_eq!(unquote_string(&"\"ab\"".to_string()), "ab".to_string());
    assert_eq!(unquote_string(&"'é'".to_string()), "é'".to_string());
}

#[test]
fn contains_text_works() {
    assert!(contains_text("alias -g G", "alias -g"));
    assert!(!contains_text("alias G", "alias -g"));
    assert!(contains_text("", ""));
}

#[test]
fn split_text_works() {
    assert_eq!(split_text("a b  c", ' '), vec!["a".to_string(), "b".to_string(), "".to_string(), "c".to_string()]);
    assert_eq!(split_text("", '\n'), vec!["".to_string()]);
}
