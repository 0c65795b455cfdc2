use rusty_lemon::lexicon::MAX_WORD_LEN;
use rusty_lemon::speller::Speller;

const LETTERS: &str = "abcdefghijklmnopqrstuvwxyz";

fn trained(corpus: &str) -> Speller {
    let mut s = Speller::new(LETTERS);
    s.train(corpus);
    s
}

fn the_and_their() -> Speller {
    trained("the their the the their the their the")
}

#[test]
fn training_counts_each_word() {
    let s = the_and_their();
    assert_eq!(s.count("the"), 5);
    assert_eq!(s.count("their"), 3);
    assert_eq!(s.count("teh"), 0);
    assert!(s.knows("the"));
    assert!(s.knows("their"));
    assert!(!s.knows("teh"));
}

#[test]
fn training_lowercases_and_splits_on_non_letters() {
    let s = trained("The THE tHe, the-the; don't 42nd caf\u{e9}");
    assert_eq!(s.count("the"), 5);
    assert_eq!(s.count("The"), 0);
    assert_eq!(s.count("don"), 1);
    assert_eq!(s.count("t"), 1);
    assert_eq!(s.count("nd"), 1);
    assert_eq!(s.count("caf"), 1);
    assert_eq!(s.count("don't"), 0);
    assert_eq!(s.count("42nd"), 0);
    assert_eq!(s.count(""), 0);
}

#[test]
fn training_replaces_what_was_known() {
    let mut s = trained("alpha beta");
    assert_eq!(s.count("alpha"), 1);
    s.train("gamma gamma");
    assert_eq!(s.count("alpha"), 0);
    assert_eq!(s.count("beta"), 0);
    assert_eq!(s.count("gamma"), 2);
}

#[test]
fn training_twice_gives_the_same_table() {
    let corpus = "one two two three three three";
    let a = trained(corpus);
    let b = trained(corpus);
    let mut c = trained("something else");
    c.train(corpus);
    for w in ["one", "two", "three", "four", "something", "else", ""] {
        assert_eq!(a.count(w), b.count(w));
        assert_eq!(a.count(w), c.count(w));
    }
    assert_eq!(a.count("three"), 3);
}

#[test]
fn empty_corpus_knows_nothing() {
    let s = trained("");
    assert!(!s.knows("anything"));
    assert_eq!(s.count("anything"), 0);
    assert_eq!(s.correct("anything"), "anything");
    assert_eq!(s.correct("Anything"), "anything");
}

#[test]
fn corpus_without_letters_is_like_an_empty_one() {
    let s = trained("1234 5678 ... --- \n\t !?");
    assert_eq!(s.count("1234"), 0);
    assert!(!s.knows(""));
    assert_eq!(s.correct("anything"), "anything");
    assert_eq!(s.correct("1234"), "1234");
}

#[test]
fn untrained_speller_changes_nothing_but_case() {
    let s = Speller::new(LETTERS);
    assert_eq!(s.correct("Hello"), "hello");
    assert_eq!(s.count("hello"), 0);
}

#[test]
fn corrects_a_transposition() {
    let s = the_and_their();
    assert_eq!(s.correct("teh"), "the");
}

#[test]
fn leaves_a_known_word() {
    let s = the_and_their();
    assert_eq!(s.correct("the"), "the");
    assert_eq!(s.correct("their"), "their");
}

#[test]
fn corrects_a_transposition_in_a_longer_word() {
    let s = the_and_their();
    assert_eq!(s.correct("thier"), "their");
}

#[test]
fn leaves_a_word_with_no_known_neighbour() {
    let s = the_and_their();
    assert_eq!(s.correct("xyzxyz"), "xyzxyz");
}

#[test]
fn known_words_are_stable_whatever_their_case() {
    let s = the_and_their();
    assert_eq!(s.correct("The"), "the");
    assert_eq!(s.correct("THEIR"), "their");
}

#[test]
fn correction_is_in_lowercase() {
    let s = the_and_their();
    assert_eq!(s.correct("TEH"), "the");
    assert_eq!(s.correct("XYZXYZ"), "xyzxyz");
    assert_eq!(s.correct("\u{c9}t\u{e9}"), "\u{c9}t\u{e9}");
}

#[test]
fn corrects_each_kind_of_edit() {
    let s = trained("spelling");
    assert_eq!(s.correct("speling"), "spelling");
    assert_eq!(s.correct("spellling"), "spelling");
    assert_eq!(s.correct("spalling"), "spelling");
    assert_eq!(s.correct("sepelling"), "spelling");
    assert_eq!(s.correct("spellnig"), "spelling");
    assert_eq!(s.correct("pelling"), "spelling");
    assert_eq!(s.correct("spellin"), "spelling");
    assert_eq!(s.correct("spellingg"), "spelling");
}

#[test]
fn corrects_at_distance_two() {
    let s = trained("spelling");
    assert_eq!(s.correct("spling"), "spelling");
    assert_eq!(s.correct("speellingg"), "spelling");
    assert_eq!(s.correct("zpellinq"), "spelling");
    assert_eq!(s.correct("psellign"), "spelling");
    assert_eq!(s.correct("Spellnig"), "spelling");
}

#[test]
fn gives_up_at_distance_three() {
    let s = trained("spelling");
    assert_eq!(s.correct("sling"), "sling");
    assert_eq!(s.correct("zpezlinq"), "zpezlinq");
}

#[test]
fn prefers_the_more_frequent_word() {
    let s = trained("cat cat cat cot cot cut");
    assert_eq!(s.correct("cxt"), "cat");
    let s = trained("cat cot cot cot cut cut");
    assert_eq!(s.correct("cxt"), "cot");
    let s = trained("cat cot cut cut");
    assert_eq!(s.correct("cxt"), "cut");
}

#[test]
fn breaks_a_tie_by_the_order_on_words() {
    let s = trained("cot cat cut cot cat cut");
    assert_eq!(s.correct("cxt"), "cat");
    let s = trained("bat cat");
    assert_eq!(s.correct("aat"), "bat");
    let s = trained("cat bat");
    assert_eq!(s.correct("aat"), "bat");
    let s = trained("ab abc");
    assert_eq!(s.correct("abd"), "ab");
}

#[test]
fn prefers_one_edit_to_two_whatever_the_counts() {
    let s = trained("the the the the the thee");
    assert_eq!(s.correct("theee"), "thee");
    assert_eq!(s.correct("theeee"), "thee");
}

#[test]
fn correction_stays_among_the_candidates() {
    let s = trained("the their there then them they the the");
    for w in ["teh", "thier", "ther", "thme", "xyzxyz", "The", "t", "", "thhhe"] {
        let lower = w.to_ascii_lowercase();
        let r = s.correct(w);
        let near = s.edits1(&lower);
        let far = s.edits2(&lower);
        let known1 = near.iter().any(|e| *e == r) && s.knows(&r);
        let known2 = far.iter().any(|e| *e == r) && s.knows(&r);
        assert!(r == lower || known1 || known2);
        if !s.knows(&lower) && near.iter().any(|e| s.knows(e)) {
            assert!(known1);
        }
    }
}

#[test]
fn correcting_a_correction_changes_nothing() {
    let s = trained("the their there then them they the the");
    for w in ["teh", "thier", "ther", "thme", "xyzxyz", "The", "t", "", "QQQQ"] {
        let once = s.correct(w);
        let twice = s.correct(&once);
        assert_eq!(once, twice);
    }
    assert_eq!(s.correct("xyzxyz"), "xyzxyz");
    assert_eq!(s.correct(&s.correct("xyzxyz")), "xyzxyz");
}

#[test]
fn correcting_twice_gives_the_same_result() {
    let s = the_and_their();
    for w in ["teh", "thier", "xyzxyz", "the"] {
        assert_eq!(s.correct(w), s.correct(w));
    }
}

#[test]
fn long_words_pass_through() {
    let s = trained("abcdefghijklmnopqrstu abcdefghijklmnopqrst");
    let just_right = "abcdefghijklmnopqrsx";
    assert_eq!(just_right.chars().count(), MAX_WORD_LEN);
    assert_eq!(s.correct(just_right), "abcdefghijklmnopqrst");
    let too_long = "abcdefghijklmnopqrstx";
    assert_eq!(too_long.chars().count(), MAX_WORD_LEN + 1);
    assert_eq!(s.correct(too_long), too_long);
    assert_eq!(s.correct("ABCDEFGHIJKLMNOPQRSTX"), too_long);
    assert_eq!(s.correct("abcdefghijklmnopqrstu"), "abcdefghijklmnopqrstu");
}

#[test]
fn length_is_counted_in_characters() {
    let s = trained("abcdefghijklmnopqrs e");
    let word = "\u{e9}abcdefghijklmnopqrs";
    assert_eq!(word.chars().count(), MAX_WORD_LEN);
    assert!(word.len() > MAX_WORD_LEN);
    assert_eq!(s.correct(word), "abcdefghijklmnopqrs");
    assert_eq!(s.correct("\u{e9}"), "e");
}

#[test]
fn empty_word() {
    let s = trained("a a i");
    assert_eq!(s.correct(""), "a");
    let s = trained("");
    assert_eq!(s.correct(""), "");
}

#[test]
fn alphabet_limits_replacements_and_insertions() {
    let mut s = Speller::new("ab");
    s.train("cat");
    assert_eq!(s.correct("at"), "at");
    assert_eq!(s.correct("ct"), "cat");
    assert_eq!(s.correct("cxt"), "cat");
    assert_eq!(s.correct("caat"), "cat");
    assert_eq!(s.correct("act"), "cat");
    let mut s = Speller::new("");
    s.train("cat");
    assert_eq!(s.correct("cxt"), "cxt");
    assert_eq!(s.correct("caat"), "cat");
    assert_eq!(s.correct("cta"), "cat");
}

#[test]
fn edits1_of_one_letter() {
    let s = Speller::new(LETTERS);
    let e = s.edits1("a");
    assert_eq!(e.len(), 26 * 2 + 25 + 0 + 1);
    assert_eq!(e.len(), 78);
    assert_eq!(e[0], "");
    assert_eq!(e[1], "b");
    assert_eq!(e[25], "z");
    assert_eq!(e[26], "aa");
    assert_eq!(e[27], "ba");
    assert_eq!(e[51], "za");
    assert_eq!(e[52], "aa");
    assert_eq!(e[53], "ab");
    assert_eq!(e[77], "az");
    assert!(!e.iter().any(|x| x == "a"));
}

#[test]
fn edits1_has_the_expected_length() {
    let s = Speller::new(LETTERS);
    for w in ["a", "teh", "spelling", "abcdefghijklmnopqrst"] {
        let n = w.len();
        assert_eq!(s.edits1(w).len(), 26 * (n + 1) + 25 * n + (n - 1) + n);
    }
    assert_eq!(s.edits1("teh").len(), 184);
    assert_eq!(s.edits1("").len(), 26);
    assert_eq!(s.edits1("T").len(), 1 + 0 + 26 + 52);
}

#[test]
fn edits1_in_order() {
    let s = Speller::new("xy");
    let e = s.edits1("ax");
    let expected = [
        "x", "a", "xa", "xx", "yx", "ay", "xax", "yax", "axx", "ayx", "axx", "axy",
    ];
    assert_eq!(e, expected);
}

#[test]
fn edits1_holds_each_kind() {
    let s = Speller::new(LETTERS);
    let e = s.edits1("teh");
    for w in ["eh", "th", "te", "eth", "the", "tah", "tez", "xteh", "tehx", "tegh"] {
        assert!(e.iter().any(|x| x == w), "{}", w);
    }
    for w in ["teh", "het", "t", "tehxx", "Teh", "te-h"] {
        assert!(!e.iter().any(|x| x == w), "{}", w);
    }
}

#[test]
fn edits2_is_edits1_of_each_edit() {
    let s = Speller::new("ab");
    let first = s.edits1("ba");
    let mut expected: Vec<String> = Vec::new();
    for m in first.iter() {
        expected.extend(s.edits1(m));
    }
    let e = s.edits2("ba");
    assert_eq!(e, expected);
    assert!(e.iter().any(|x| x == ""));
    assert!(e.iter().any(|x| x == "ba"));
    assert!(e.iter().any(|x| x == "abab"));
    assert!(e.iter().any(|x| x == "bbaa"));
    assert!(!e.iter().any(|x| x == "bbbbb"));
    assert!(!e.iter().any(|x| x == "ca"));
}

#[test]
fn edits2_of_nothing() {
    let s = Speller::new("ab");
    let e = s.edits2("");
    assert_eq!(e.len(), 2 * (1 + 0 + 1 + 4));
    assert_eq!(e[0], "");
    assert_eq!(e[1], "b");
    assert_eq!(e[2], "aa");
}

#[test]
fn suggestions_for_a_document() {
    let s = the_and_their();
    let c = s.corrections("Teh cat saw thier  teh\tdog,\nthe end THE");
    let expected = vec![
        ("Teh".to_string(), "the".to_string()),
        ("thier".to_string(), "their".to_string()),
        ("teh".to_string(), "the".to_string()),
    ];
    assert_eq!(c, expected);
}

#[test]
fn suggestions_keep_one_entry_for_each_token() {
    let s = the_and_their();
    let c = s.corrections("teh teh thier teh thier");
    assert_eq!(c.len(), 2);
    assert_eq!(c[0], ("teh".to_string(), "the".to_string()));
    assert_eq!(c[1], ("thier".to_string(), "their".to_string()));
}

#[test]
fn suggestions_take_the_token_with_its_punctuation() {
    let s = trained("hello world");
    let c = s.corrections("helo, wrld");
    assert_eq!(
        c,
        vec![
            ("helo,".to_string(), "hello".to_string()),
            ("wrld".to_string(), "world".to_string()),
        ]
    );
    let c = s.corrections("he-lo,, wrld?!");
    assert!(c.is_empty());
    let c = s.corrections("hello, world");
    assert_eq!(c, vec![("hello,".to_string(), "hello".to_string())]);
}

#[test]
fn no_suggestions_for_an_empty_document() {
    let s = the_and_their();
    assert!(s.corrections("").is_empty());
    assert!(s.corrections(" \n\t ").is_empty());
    assert!(s.corrections("the their THE").is_empty());
    let s = trained("");
    assert!(s.corrections("nothing is known here").is_empty());
}

#[test]
fn a_repeated_letter_counts_once() {
    let s = Speller::new("abab");
    assert_eq!(s.edits1(""), ["a", "b"]);
    let s = Speller::new("zzaz");
    assert_eq!(s.edits1(""), ["z", "a"]);
    assert_eq!(s.edits1("z"), ["", "a", "zz", "az", "zz", "za"]);
}

#[test]
fn trains_on_a_long_text() {
    let mut corpus = String::new();
    for _ in 0..20_000 {
        corpus.push_str("The quick brown fox jumps over the lazy dog.\n");
    }
    let s = trained(&corpus);
    assert_eq!(s.count("the"), 40_000);
    assert_eq!(s.count("fox"), 20_000);
    assert_eq!(s.count("dog"), 20_000);
    assert_eq!(s.count("cat"), 0);
    assert_eq!(s.correct("teh"), "the");
    assert_eq!(s.correct("quikc"), "quick");
    assert_eq!(s.correct("jmups"), "jumps");
    assert_eq!(s.correct("lasy"), "lazy");
}

#[test]
fn corrects_a_whole_sentence() {
    let s = trained("the quick brown fox jumps over the lazy dog");
    let c = s.corrections("Teh qick borwn fxo jmups ovre the lzy dgo");
    let found: Vec<(&str, &str)> = c.iter().map(|e| (e.0.as_str(), e.1.as_str())).collect();
    assert_eq!(
        found,
        [
            ("Teh", "the"),
            ("qick", "quick"),
            ("borwn", "brown"),
            ("fxo", "fox"),
            ("jmups", "jumps"),
            ("ovre", "over"),
            ("lzy", "lazy"),
            ("dgo", "dog"),
        ]
    );
}
