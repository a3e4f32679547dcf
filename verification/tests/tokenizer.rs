use tfidf_search::tokenizer::{normalized_tokens, to_upper_char, to_uppercase, tokenize, word_char};

fn strings(items: &[&str]) -> Vec<String> {
    items.iter().map(|s| s.to_string()).collect()
}

#[test]
fn tokenize_splits_at_punctuation_and_keeps_case() {
    assert_eq!(tokenize("Green-Smoothie!"), strings(&["Green", "Smoothie"]));
}

#[test]
fn normalized_tokens_of_green_smoothie() {
    assert_eq!(normalized_tokens("Green-Smoothie!"), strings(&["GREEN", "SMOOTHIE"]));
}

#[test]
fn tokenizing_twice_gives_the_same_tokens() {
    let text = "The quick, brown fox; jumps over 13 lazy dogs.";
    assert_eq!(tokenize(text), tokenize(text));
    assert_eq!(normalized_tokens(text), normalized_tokens(text));
}

#[test]
fn tokenize_empty_text_gives_nothing() {
    assert_eq!(tokenize(""), Vec::<String>::new());
}

#[test]
fn tokenize_text_without_words_gives_nothing() {
    assert_eq!(tokenize(" \t\n.,;:!?-()[]{}\"'"), Vec::<String>::new());
}

#[test]
fn tokenize_keeps_letters_and_digits_together() {
    assert_eq!(tokenize("abc123 45def"), strings(&["abc123", "45def"]));
}

#[test]
fn tokenize_splits_a_decimal_number_at_the_point() {
    assert_eq!(tokenize("4.7"), strings(&["4", "7"]));
}

#[test]
fn tokenize_handles_leading_and_trailing_separators() {
    assert_eq!(tokenize("  hello   world  "), strings(&["hello", "world"]));
}

#[test]
fn tokenize_single_word() {
    assert_eq!(tokenize("word"), strings(&["word"]));
}

#[test]
fn tokenize_keeps_letters_outside_ascii() {
    assert_eq!(tokenize("caf\u{e9} na\u{ef}ve \u{4e2d}\u{6587}"), strings(&["caf\u{e9}", "na\u{ef}ve", "\u{4e2d}\u{6587}"]));
}

#[test]
fn tokenize_drops_symbols_outside_ascii() {
    assert_eq!(tokenize("a\u{2014}b \u{20ac}5"), strings(&["a", "b", "5"]));
}

#[test]
fn word_char_knows_ascii() {
    assert!(word_char('a'));
    assert!(word_char('Z'));
    assert!(word_char('0'));
    assert!(word_char('9'));
    assert!(!word_char(' '));
    assert!(!word_char('-'));
    assert!(!word_char('_'));
    assert!(!word_char('@'));
    assert!(!word_char('['));
    assert!(!word_char('`'));
    assert!(!word_char('{'));
    assert!(!word_char('/'));
    assert!(!word_char(':'));
}

#[test]
fn word_char_asks_unicode_outside_ascii() {
    assert!(word_char('\u{e9}'));
    assert!(word_char('\u{4e2d}'));
    assert!(!word_char('\u{2014}'));
    assert!(!word_char('\u{a0}'));
}

#[test]
fn to_upper_char_folds_ascii_letters_only() {
    assert_eq!(to_upper_char('a'), 'A');
    assert_eq!(to_upper_char('z'), 'Z');
    assert_eq!(to_upper_char('m'), 'M');
    assert_eq!(to_upper_char('A'), 'A');
    assert_eq!(to_upper_char('5'), '5');
    assert_eq!(to_upper_char('-'), '-');
    assert_eq!(to_upper_char('\u{e9}'), '\u{e9}');
}

#[test]
fn to_uppercase_folds_a_token() {
    assert_eq!(to_uppercase("Smoothie42"), "SMOOTHIE42".to_string());
    assert_eq!(to_uppercase(""), String::new());
    assert_eq!(to_uppercase("caf\u{e9}"), "CAF\u{e9}".to_string());
}

#[test]
fn to_uppercase_agrees_with_the_standard_library_on_ascii() {
    let text = "abcdefghijklmnopqrstuvwxyzABCDEFGHIJKLMNOPQRSTUVWXYZ0123456789";
    assert_eq!(to_uppercase(text), text.to_ascii_uppercase());
}
