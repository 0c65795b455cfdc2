use rusty_lemon::edits::candidates_of;

fn v(s: &str) -> Vec<char> {
    s.chars().collect()
}

fn strings(l: Vec<Vec<char>>) -> Vec<String> {
    l.into_iter().map(|w| w.into_iter().collect()).collect()
}

#[test]
fn candidates_in_order() {
    let found = strings(candidates_of(&v("ab"), &v("bc")));
    let expected = [
        "b", "a", "ba", "bb", "cb", "ac", "bab", "cab", "abb", "acb", "abb", "abc",
    ];
    assert_eq!(found, expected);
}

#[test]
fn candidates_of_the_empty_word() {
    assert_eq!(strings(candidates_of(&v(""), &v("xyz"))), ["x", "y", "z"]);
    assert!(candidates_of(&v(""), &v("")).is_empty());
}

#[test]
fn candidates_without_an_alphabet() {
    assert_eq!(strings(candidates_of(&v("abc"), &v(""))), ["bc", "ac", "ab", "bac", "acb"]);
}

#[test]
fn candidates_count() {
    let alphabet = v("abcdefghijklmnopqrstuvwxyz");
    for w in ["a", "it", "teh", "word", "spelling"] {
        let n = w.len();
        let found = candidates_of(&v(w), &alphabet);
        assert_eq!(found.len(), n + (n - 1) + 25 * n + 26 * (n + 1));
        assert_eq!(found.len(), 53 * n + 25);
    }
}

#[test]
fn candidates_count_with_a_letter_outside_the_alphabet() {
    let alphabet = v("abcdefghijklmnopqrstuvwxyz");
    assert_eq!(candidates_of(&v("a-b"), &alphabet).len(), 3 + 2 + (25 + 26 + 25) + 26 * 4);
}

#[test]
fn candidates_with_a_repeated_letter_in_the_alphabet() {
    assert_eq!(strings(candidates_of(&v("a"), &v("bb"))), ["", "b", "b", "ba", "ba", "ab", "ab"]);
}

#[test]
fn transposition_of_equal_neighbours_is_the_word() {
    let found = strings(candidates_of(&v("aa"), &v("")));
    assert_eq!(found, ["a", "a", "aa"]);
}
