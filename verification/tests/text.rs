use rusty_lemon::text::{
    chars_of, comes_before, distinct_of, fold, fold_all, letter, string_of, whitespace,
};

fn v(s: &str) -> Vec<char> {
    s.chars().collect()
}

#[test]
fn letters_are_the_ascii_letters() {
    for c in ['a', 'm', 'z', 'A', 'M', 'Z'] {
        assert!(letter(c));
    }
    for c in ['`', '{', '@', '[', '0', '9', ' ', '\'', '-', '_', '\u{e9}', '\u{df}', '\u{3b1}'] {
        assert!(!letter(c));
    }
}

#[test]
fn letters_agree_with_std_on_every_character() {
    for n in 0u32..=0x10FFFF {
        if let Some(c) = char::from_u32(n) {
            assert_eq!(letter(c), c.is_ascii_alphabetic());
        }
    }
}

#[test]
fn white_space_agrees_with_std_on_every_character() {
    for n in 0u32..=0x10FFFF {
        if let Some(c) = char::from_u32(n) {
            assert_eq!(whitespace(c), c.is_whitespace(), "{:x}", n);
        }
    }
}

#[test]
fn white_space_samples() {
    for c in [' ', '\t', '\n', '\r', '\u{b}', '\u{c}', '\u{85}', '\u{a0}', '\u{2003}', '\u{3000}'] {
        assert!(whitespace(c));
    }
    for c in ['a', '0', '-', '\u{8}', '\u{e}', '\u{200b}', '\u{180e}', '\u{feff}'] {
        assert!(!whitespace(c));
    }
}

#[test]
fn folding_agrees_with_std_on_every_character() {
    for n in 0u32..=0x10FFFF {
        if let Some(c) = char::from_u32(n) {
            assert_eq!(fold(c), c.to_ascii_lowercase());
        }
    }
}

#[test]
fn folding_samples() {
    assert_eq!(fold('A'), 'a');
    assert_eq!(fold('Z'), 'z');
    assert_eq!(fold('Q'), 'q');
    assert_eq!(fold('q'), 'q');
    assert_eq!(fold('@'), '@');
    assert_eq!(fold('['), '[');
    assert_eq!(fold('7'), '7');
    assert_eq!(fold('\u{c9}'), '\u{c9}');
}

#[test]
fn folding_a_word() {
    assert_eq!(fold_all(&v("Hello, World!")), v("hello, world!"));
    assert_eq!(fold_all(&v("")), v(""));
    assert_eq!(fold_all(&v("\u{c9}COLE")), v("\u{c9}cole"));
    let once = fold_all(&v("MiXeD 123"));
    assert_eq!(fold_all(&once), once);
}

#[test]
fn strings_and_characters() {
    assert_eq!(chars_of("abc"), vec!['a', 'b', 'c']);
    assert_eq!(chars_of(""), Vec::<char>::new());
    assert_eq!(chars_of("h\u{e9}\u{4e2d}"), vec!['h', '\u{e9}', '\u{4e2d}']);
    assert_eq!(string_of(&vec!['a', 'b', 'c']), "abc");
    assert_eq!(string_of(&Vec::new()), "");
    assert_eq!(string_of(&vec!['h', '\u{e9}', '\u{4e2d}']), "h\u{e9}\u{4e2d}");
    assert_eq!(string_of(&chars_of("round trip")), "round trip");
}

#[test]
fn order_on_words() {
    assert!(comes_before(&v("a"), &v("b")));
    assert!(!comes_before(&v("b"), &v("a")));
    assert!(!comes_before(&v("a"), &v("a")));
    assert!(comes_before(&v(""), &v("a")));
    assert!(!comes_before(&v("a"), &v("")));
    assert!(!comes_before(&v(""), &v("")));
    assert!(comes_before(&v("ab"), &v("abc")));
    assert!(!comes_before(&v("abc"), &v("ab")));
    assert!(comes_before(&v("abc"), &v("abd")));
    assert!(comes_before(&v("abz"), &v("ac")));
    assert!(comes_before(&v("Z"), &v("a")));
    assert!(comes_before(&v("z"), &v("\u{e9}")));
}

#[test]
fn order_on_words_agrees_with_the_order_on_strings() {
    let words = ["", "a", "ab", "abc", "abd", "b", "ba", "B", "z", "\u{e9}", "\u{4e2d}", "a\u{e9}"];
    for a in words {
        for b in words {
            assert_eq!(comes_before(&v(a), &v(b)), a < b, "{} {}", a, b);
        }
    }
}

#[test]
fn distinct_characters_in_order_of_first_occurrence() {
    assert_eq!(distinct_of(&v("")), v(""));
    assert_eq!(distinct_of(&v("abc")), v("abc"));
    assert_eq!(distinct_of(&v("abcabc")), v("abc"));
    assert_eq!(distinct_of(&v("banana")), v("ban"));
    assert_eq!(distinct_of(&v("aaaa")), v("a"));
    assert_eq!(distinct_of(&v("aAa")), v("aA"));
    let alphabet = v("abcdefghijklmnopqrstuvwxyz");
    assert_eq!(distinct_of(&alphabet), alphabet);
}
