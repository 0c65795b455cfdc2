use rusty_lemon::document::replace_all;

#[test]
fn replaces_every_occurrence() {
    assert_eq!(replace_all("teh cat and teh dog", "teh", "the"), "the cat and the dog");
    assert_eq!(replace_all("teh", "teh", "the"), "the");
    assert_eq!(replace_all("tehteh", "teh", "the"), "thethe");
}

#[test]
fn replaces_inside_longer_words_too() {
    assert_eq!(replace_all("tehn teh", "teh", "the"), "then the");
}

#[test]
fn leaves_a_text_without_the_token() {
    assert_eq!(replace_all("the cat", "teh", "the"), "the cat");
    assert_eq!(replace_all("te", "teh", "the"), "te");
    assert_eq!(replace_all("", "teh", "the"), "");
}

#[test]
fn occurrences_do_not_overlap() {
    assert_eq!(replace_all("aaa", "aa", "b"), "ba");
    assert_eq!(replace_all("aaaa", "aa", "b"), "bb");
    assert_eq!(replace_all("ababa", "aba", "x"), "xba");
}

#[test]
fn replacement_is_not_searched_again() {
    assert_eq!(replace_all("ab", "a", "aa"), "aab");
    assert_eq!(replace_all("aa", "a", "ba"), "baba");
}

#[test]
fn replacement_may_be_longer_shorter_or_empty() {
    assert_eq!(replace_all("a-b-c", "-", " and "), "a and b and c");
    assert_eq!(replace_all("a and b", " and ", "&"), "a&b");
    assert_eq!(replace_all("a-b-c", "-", ""), "abc");
}

#[test]
fn empty_token_separates_the_characters() {
    assert_eq!(replace_all("ab", "", "-"), "-a-b-");
    assert_eq!(replace_all("", "", "-"), "-");
    assert_eq!(replace_all("ab", "", ""), "ab");
}

#[test]
fn works_on_characters_not_bytes() {
    assert_eq!(replace_all("caf\u{e9} caf\u{e9}", "\u{e9}", "e"), "cafe cafe");
    assert_eq!(replace_all("\u{4e2d}\u{6587}", "\u{6587}", "x"), "\u{4e2d}x");
}

#[test]
fn agrees_with_the_standard_replace() {
    let texts = ["", "a", "aaa", "abcabc", "teh teh", "xx yy xx", "\u{e9}a\u{e9}"];
    let tokens = ["", "a", "aa", "abc", "teh", "x", "\u{e9}", "zzz"];
    let with = ["", "b", "the", "aa"];
    for t in texts {
        for k in tokens {
            for w in with {
                assert_eq!(replace_all(t, k, w), t.replace(k, w), "{:?} {:?} {:?}", t, k, w);
            }
        }
    }
}

#[test]
fn applies_a_suggestion_to_a_document() {
    let mut s = rusty_lemon::speller::Speller::new("abcdefghijklmnopqrstuvwxyz");
    s.train("the cat the dog");
    let content = "teh cat and teh dgo";
    let c = s.corrections(content);
    assert_eq!(
        c,
        vec![("teh".to_string(), "the".to_string()), ("dgo".to_string(), "dog".to_string())]
    );
    let content = replace_all(content, &c[0].0, &c[0].1);
    assert_eq!(content, "the cat and the dgo");
    let content = replace_all(&content, &c[1].0, &c[1].1);
    assert_eq!(content, "the cat and the dog");
    assert!(s.corrections(&content).is_empty());
}
