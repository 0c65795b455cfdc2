use rusty_lemon::tokens::{runs_of, split_tokens, split_words, Class};

fn v(s: &str) -> Vec<char> {
    s.chars().collect()
}

#[test]
fn words_of_a_sentence() {
    assert_eq!(split_words("The quick, brown fox!"), ["the", "quick", "brown", "fox"]);
}

#[test]
fn words_are_cut_at_every_non_letter() {
    assert_eq!(split_words("don't e-mail me2you x_y"), ["don", "t", "e", "mail", "me", "you", "x", "y"]);
    assert_eq!(split_words("caf\u{e9} na\u{ef}ve"), ["caf", "na", "ve"]);
}

#[test]
fn words_keep_their_order_and_repetitions() {
    assert_eq!(split_words("b a b A B"), ["b", "a", "b", "a", "b"]);
}

#[test]
fn no_words() {
    assert!(split_words("").is_empty());
    assert!(split_words("123 ... \n").is_empty());
    assert!(split_words(" ").is_empty());
}

#[test]
fn words_at_the_ends() {
    assert_eq!(split_words("word"), ["word"]);
    assert_eq!(split_words("word "), ["word"]);
    assert_eq!(split_words(" word"), ["word"]);
    assert_eq!(split_words("a"), ["a"]);
    assert_eq!(split_words("a.b"), ["a", "b"]);
}

#[test]
fn tokens_of_a_document() {
    assert_eq!(
        split_tokens("Teh  cat,\tsat\non the\r\nmat."),
        ["Teh", "cat,", "sat", "on", "the", "mat."]
    );
}

#[test]
fn tokens_keep_case_and_punctuation() {
    assert_eq!(split_tokens("Don't STOP (now)"), ["Don't", "STOP", "(now)"]);
}

#[test]
fn tokens_are_cut_at_unicode_white_space() {
    assert_eq!(split_tokens("a\u{a0}b\u{2003}c\u{3000}d\u{85}e"), ["a", "b", "c", "d", "e"]);
    assert_eq!(split_tokens("a\u{200b}b"), ["a\u{200b}b"]);
}

#[test]
fn no_tokens() {
    assert!(split_tokens("").is_empty());
    assert!(split_tokens(" \t\n").is_empty());
}

#[test]
fn tokens_agree_with_split_whitespace() {
    for text in ["", " ", "a", " a ", "a  b", "one two\tthree\nfour", "\u{a0}x\u{2028}y ", "x\u{b}y\u{c}z"] {
        let expected: Vec<String> = text.split_whitespace().map(|t| t.to_string()).collect();
        assert_eq!(split_tokens(text), expected);
    }
}

#[test]
fn runs_of_each_class() {
    assert_eq!(runs_of(&v("ab1cd e"), Class::Letter), vec![v("ab"), v("cd"), v("e")]);
    assert_eq!(runs_of(&v("ab1cd e"), Class::Visible), vec![v("ab1cd"), v("e")]);
    assert_eq!(runs_of(&v("AbC"), Class::Letter), vec![v("AbC")]);
    assert!(runs_of(&v(""), Class::Letter).is_empty());
    assert!(runs_of(&v("12"), Class::Letter).is_empty());
    assert!(runs_of(&v("  "), Class::Visible).is_empty());
}

#[test]
fn class_membership() {
    assert!(Class::Letter.test('a'));
    assert!(!Class::Letter.test('1'));
    assert!(Class::Visible.test('1'));
    assert!(!Class::Visible.test(' '));
}
