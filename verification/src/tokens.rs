//! Cutting text into pieces: the words of a training text and the tokens of a
//! document.

use vstd::prelude::*;
use crate::text::{
    is_letter, is_whitespace, lowercase, letter, whitespace, chars_of, string_of, fold_all,
};

verus! {

/// The kind of character that a run is made of.
#[derive(Clone, Copy, Debug)]
pub enum Class {
    /// ASCII letters.
    Letter,
    /// Everything but white space.
    Visible,
}

impl Class {
    /// `c` belongs to the class.
    pub open spec fn holds(self, c: char) -> bool {
        match self {
            Class::Letter => is_letter(c),
            Class::Visible => !is_whitespace(c),
        }
    }

    /// Tells whether `c` belongs to the class.
    pub fn test(&self, c: char) -> (r: bool)
        ensures
            r == self.holds(c),
    {
        match self {
            Class::Letter => letter(c),
            Class::Visible => !whitespace(c),
        }
    }
}

/// The length of the longest prefix of `text` made of characters of `class`.
pub open spec fn run_len(text: Seq<char>, class: Class) -> nat
    decreases text.len(),
{
    if text.len() > 0 && class.holds(text[0]) {
        1 + run_len(text.skip(1), class)
    } else {
        0
    }
}

/// The maximal runs of characters of `class` in `text`, from left to right.
/// Characters outside the class separate the runs and belong to none.
pub open spec fn runs(text: Seq<char>, class: Class) -> Seq<Seq<char>>
    decreases text.len(),
{
    if text.len() == 0 {
        Seq::empty()
    } else if !class.holds(text[0]) {
        runs(text.skip(1), class)
    } else {
        let n = run_len(text, class) as int;
        proof {
            lemma_run_len_bounds(text, class);
        }
        seq![text.take(n)] + runs(text.skip(n), class)
    }
}

/// The words of a training text: its maximal runs of ASCII letters, each in
/// lowercase, from left to right.
pub open spec fn words(text: Seq<char>) -> Seq<Seq<char>> {
    let rs = runs(text, Class::Letter);
    Seq::new(rs.len(), |i: int| lowercase(rs[i]))
}

/// The tokens of a document: its maximal runs of characters that are not white
/// space, from left to right.
pub open spec fn tokens(text: Seq<char>) -> Seq<Seq<char>> {
    runs(text, Class::Visible)
}

/// The view of each vector, in order.
pub open spec fn views(v: Seq<Vec<char>>) -> Seq<Seq<char>> {
    Seq::new(v.len(), |i: int| v[i]@)
}

/// A run is no longer than the text, and not empty where the text begins with
/// a character of the class.
pub proof fn lemma_run_len_bounds(text: Seq<char>, class: Class)
    ensures
        run_len(text, class) <= text.len(),
        text.len() > 0 && class.holds(text[0]) ==> run_len(text, class) >= 1,
    decreases text.len(),
{
    if text.len() > 0 && class.holds(text[0]) {
        lemma_run_len_bounds(text.skip(1), class);
    }
}

/// The first `n` characters of `text` are its first run when all of them are of
/// the class and the run cannot be extended.
pub proof fn lemma_run_len_is(text: Seq<char>, class: Class, n: int)
    requires
        0 <= n <= text.len(),
        forall|k: int| 0 <= k < n ==> class.holds(#[trigger] text[k]),
        n == text.len() || !class.holds(text[n]),
    ensures
        run_len(text, class) == n,
    decreases n,
{
    if n > 0 {
        let rest = text.skip(1);
        assert forall|k: int| 0 <= k < n - 1 implies class.holds(#[trigger] rest[k]) by {}
        lemma_run_len_is(rest, class, n - 1);
    }
}

/// Every run is non-empty and made of characters of the class only.
pub proof fn lemma_runs_are_runs(text: Seq<char>, class: Class, i: int)
    requires
        0 <= i < runs(text, class).len(),
    ensures
        runs(text, class)[i].len() > 0,
        forall|k: int|
            0 <= k < runs(text, class)[i].len() ==> class.holds(#[trigger] runs(text, class)[i][k]),
    decreases text.len(),
{
    if text.len() == 0 {
    } else if !class.holds(text[0]) {
        lemma_runs_are_runs(text.skip(1), class, i);
    } else {
        let n = run_len(text, class) as int;
        lemma_run_len_bounds(text, class);
        if i == 0 {
            lemma_run_prefix_holds(text, class);
        } else {
            lemma_runs_are_runs(text.skip(n), class, i - 1);
        }
    }
}

/// The characters of the first run are of the class.
pub proof fn lemma_run_prefix_holds(text: Seq<char>, class: Class)
    ensures
        forall|k: int| 0 <= k < run_len(text, class) ==> class.holds(#[trigger] text[k]),
    decreases text.len(),
{
    if text.len() > 0 && class.holds(text[0]) {
        let rest = text.skip(1);
        lemma_run_prefix_holds(rest, class);
        lemma_run_len_bounds(text, class);
        assert forall|k: int| 0 <= k < run_len(text, class) implies class.holds(
            #[trigger] text[k],
        ) by {
            if k > 0 {
                assert(text[k] == rest[k - 1]);
            }
        }
    }
}

/// A text without a character of the class has no run.
pub proof fn lemma_no_runs(text: Seq<char>, class: Class)
    requires
        forall|k: int| 0 <= k < text.len() ==> !class.holds(#[trigger] text[k]),
    ensures
        runs(text, class) == Seq::<Seq<char>>::empty(),
    decreases text.len(),
{
    if text.len() > 0 {
        let rest = text.skip(1);
        assert forall|k: int| 0 <= k < rest.len() implies !class.holds(#[trigger] rest[k]) by {
            assert(rest[k] == text[k + 1]);
        }
        lemma_no_runs(rest, class);
    }
}

/// The maximal runs of characters of `class` in `text`, from left to right.
pub fn runs_of(text: &Vec<char>, class: Class) -> (r: Vec<Vec<char>>)
    ensures
        views(r@) == runs(text@, class),
{
    let mut out: Vec<Vec<char>> = Vec::new();
    let mut i: usize = 0;
    assert(text@.skip(0) =~= text@);
    while i < text.len()
        invariant
            i <= text.len(),
            views(out@) + runs(text@.skip(i as int), class) == runs(text@, class),
        decreases text.len() - i,
    {
        let ghost rest = text@.skip(i as int);
        if !class.test(text[i]) {
            assert(rest.skip(1) =~= text@.skip(i + 1));
            i += 1;
        } else {
            let start: usize = i;
            let mut run: Vec<char> = Vec::new();
            while i < text.len() && class.test(text[i])
                invariant
                    start <= i <= text.len(),
                    run@ == text@.subrange(start as int, i as int),
                    forall|k: int| start <= k < i ==> class.holds(#[trigger] text@[k]),
                decreases text.len() - i,
            {
                run.push(text[i]);
                i += 1;
            }
            proof {
                let n = i - start;
                assert forall|k: int| 0 <= k < n implies class.holds(#[trigger] rest[k]) by {}
                lemma_run_len_is(rest, class, n);
                assert(rest.take(n) =~= run@);
                assert(rest.skip(n) =~= text@.skip(i as int));
            }
            out.push(run);
        }
    }
    out
}

/// Appends `s` to `out`.
pub(crate) fn push_string(out: &mut Vec<String>, s: String)
    ensures
        final(out).deep_view() == old(out).deep_view().push(s@),
{
    out.push(s);
}

/// The strings made of each vector of characters, in order.
pub(crate) fn strings_of(v: &Vec<Vec<char>>) -> (r: Vec<String>)
    ensures
        r.deep_view() == views(v@),
{
    let mut out: Vec<String> = Vec::new();
    let mut i: usize = 0;
    while i < v.len()
        invariant
            i <= v.len(),
            out.deep_view() == views(v@.take(i as int)),
        decreases v.len() - i,
    {
        push_string(&mut out, string_of(&v[i]));
        i += 1;
    }
    out
}

/// The words of `text`: its maximal runs of ASCII letters, each in lowercase.
pub fn split_words(text: &str) -> (r: Vec<String>)
    ensures
        r.deep_view() == words(text@),
{
    let chars = chars_of(text);
    let found = runs_of(&chars, Class::Letter);
    let mut out: Vec<String> = Vec::new();
    let mut i: usize = 0;
    while i < found.len()
        invariant
            i <= found.len(),
            views(found@) == runs(text@, Class::Letter),
            out.deep_view() == words(text@).take(i as int),
        decreases found.len() - i,
    {
        let low = fold_all(&found[i]);
        push_string(&mut out, string_of(&low));
        i += 1;
    }
    out
}

/// The tokens of `text`: its maximal runs of characters that are not white
/// space.
pub fn split_tokens(text: &str) -> (r: Vec<String>)
    ensures
        r.deep_view() == tokens(text@),
{
    let chars = chars_of(text);
    let found = runs_of(&chars, Class::Visible);
    strings_of(&found)
}

} // verus!
