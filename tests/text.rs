use model_catalog::text::{contains_ignore_case, is_space, split_words, str_eq, str_eq_fold};

#[test]
fn words_split_on_any_white_space() {
    assert_eq!(split_words("  red\tcat\n dog "), vec!["red", "cat", "dog"]);
    assert_eq!(split_words("a\u{3000}b"), vec!["a", "b"]);
    assert!(split_words("").is_empty());
    assert!(split_words(" \t ").is_empty());
    assert_eq!(split_words("one"), vec!["one"]);
}

#[test]
fn substring_ignores_ascii_case() {
    assert!(contains_ignore_case("My Red Cat", "red cat"));
    assert!(contains_ignore_case("abc", ""));
    assert!(!contains_ignore_case("ab", "abc"));
    assert!(!contains_ignore_case("Ärger", "ärger"));
    assert!(contains_ignore_case("xxABx", "ab"));
}

#[test]
fn equality_helpers() {
    assert!(str_eq_fold("LoRA", "lora"));
    assert!(!str_eq_fold("lora", "loras"));
    assert!(str_eq("abc", "abc"));
    assert!(!str_eq("abc", "abC"));
    assert!(is_space('\u{a0}'));
    assert!(!is_space('x'));
}
