//! The speller: training on a text and correcting words against what was
//! learnt.

use vstd::prelude::*;
use vstd::hash_map::StringHashMap;
use crate::text::{
    chars_of, string_of, fold_all, comes_before, distinct, distinct_of, lowercase, lemma_distinct,
    lemma_lowercase_of_word,
};
use crate::tokens::{split_tokens, split_words, strings_of, tokens, views};
use crate::edits::{
    candidates, candidates2, candidates2_upto, candidates_of, edits1, edits2,
    lemma_candidates_are_edits, lemma_candidates2_are_edits, lemma_candidates_bound,
    lemma_candidates_len, spelt_with,
};
use crate::lexicon::{
    Lexicon, MAX_WORD_LEN, occurrences, trained, lemma_trained_wf, lemma_occurrences,
    lemma_occurrences_push,
};

verus! {

/// A spelling corrector: an alphabet and the table of the words it was trained
/// on.
pub struct Speller {
    letters: Vec<char>,
    n_words: StringHashMap<u64>,
}

impl View for Speller {
    type V = Lexicon;

    closed spec fn view(&self) -> Lexicon {
        Lexicon {
            alphabet: self.letters@,
            frequencies: Map::new(
                |w: Seq<char>| self.n_words@.contains_key(w),
                |w: Seq<char>| self.n_words@[w] as nat,
            ),
        }
    }
}

/// The word of the best so far, if there is one.
spec fn word_of(best: Option<(Vec<char>, u64)>) -> Option<Seq<char>> {
    match best {
        None => None,
        Some(b) => Some(b.0@),
    }
}

impl Speller {
    #[verifier::type_invariant]
    spec fn inv(&self) -> bool {
        self@.wf()
    }

    /// `best` is the best known word of `l`, with its count.
    spec fn holds(&self, best: Option<(Vec<char>, u64)>, l: Seq<Seq<char>>) -> bool {
        &&& self@.tops(word_of(best), l)
        &&& best matches Some(b) ==> b.1 == self.n_words@[b.0@]
    }

    /// A speller that edits with the letters of `letters` and knows no word
    /// yet. A letter that stands more than once in `letters` counts where it
    /// stands first.
    pub fn new(letters: &str) -> (r: Speller)
        ensures
            r@.alphabet == distinct(letters@),
            letters@.no_duplicates() ==> r@.alphabet == letters@,
            r@.frequencies == Map::<Seq<char>, nat>::empty(),
            r@.wf(),
    {
        let given = chars_of(letters);
        let alphabet = distinct_of(&given);
        let table: StringHashMap<u64> = StringHashMap::new();
        proof {
            lemma_distinct(letters@);
        }
        Speller { letters: alphabet, n_words: table }
    }

    /// Learns the words of `text` in place of what was known before: each
    /// maximal run of ASCII letters, in lowercase, counts once. The alphabet
    /// stays as it is.
    pub fn train(&mut self, text: &str)
        ensures
            final(self)@ == trained(old(self)@.alphabet, text@),
            final(self)@.wf(),
    {
        let ws = split_words(text);
        let mut table: StringHashMap<u64> = StringHashMap::new();
        let mut i: usize = 0;
        let ghost all = ws.deep_view();
        while i < ws.len()
            invariant
                i <= ws.len(),
                all == ws.deep_view(),
                forall|w: Seq<char>|
                    table@.contains_key(w) <==> #[trigger] all.take(i as int).contains(w),
                forall|w: Seq<char>| #[trigger]
                    table@.contains_key(w) ==> table@[w] == occurrences(all.take(i as int), w),
            decreases ws.len() - i,
        {
            let ghost seen = all.take(i as int);
            let ghost word = ws[i as int]@;
            let n: u64 = match table.get(ws[i].as_str()) {
                Some(c) => *c,
                None => 0,
            };
            proof {
                assert(all.take(i + 1) =~= seen.push(word));
                lemma_occurrences(seen, word);
            }
            table.insert(ws[i].clone(), n + 1);
            i += 1;
            proof {
                let now = all.take(i as int);
                assert forall|w: Seq<char>| table@.contains_key(w) <==> #[trigger] now.contains(
                    w,
                ) by {
                    lemma_occurrences(seen, w);
                    lemma_occurrences(now, w);
                    lemma_occurrences_push(seen, word, w);
                }
                assert forall|w: Seq<char>| #[trigger] table@.contains_key(w) implies table@[w]
                    == occurrences(now, w) by {
                    lemma_occurrences_push(seen, word, w);
                }
            }
        }
        assert(all.take(i as int) =~= all);
        proof {
            use_type_invariant(&*self);
            let given = Speller { letters: self.letters, n_words: table };
            lemma_trained_wf(self@.alphabet, text@);
            assert(given@.frequencies =~= trained(self@.alphabet, text@).frequencies);
        }
        self.n_words = table;
    }

    /// How often `word` was seen in training; 0 for a word that is not in the
    /// table.
    pub fn count(&self, word: &str) -> (r: u64)
        ensures
            r == self@.frequency(word@),
    {
        match self.n_words.get(word) {
            Some(c) => *c,
            None => 0,
        }
    }

    /// Tells whether `word` is in the table.
    pub fn knows(&self, word: &str) -> (r: bool)
        ensures
            r == self@.knows(word@),
    {
        self.n_words.contains_key(word)
    }

    /// Every result of one edit of `word`, with repetitions: the deletions, the
    /// transpositions, the replacements and the insertions, in this order. For
    /// a word of `n >= 1` letters of an alphabet of `k` letters these are `n`
    /// deletions, `n - 1` transpositions, `n * (k - 1)` replacements and
    /// `(n + 1) * k` insertions.
    pub fn edits1(&self, word: &str) -> (r: Vec<String>)
        ensures
            r.deep_view() == candidates(word@, self@.alphabet),
            forall|e: Seq<char>|
                r.deep_view().contains(e) <==> #[trigger] edits1(word@, self@.alphabet).contains(e),
            r.len() <= 2 * word@.len() + (2 * word@.len() + 1) * self@.alphabet.len(),
            word@.len() >= 1 && spelt_with(word@, self@.alphabet) ==> r.len() == word@.len() + (
            word@.len() - 1) + word@.len() * (self@.alphabet.len() - 1) + (word@.len() + 1)
                * self@.alphabet.len(),
            word@.len() >= 1 && spelt_with(word@, self@.alphabet) && self@.alphabet.len() == 26
                ==> r.len() == 26 * (word@.len() + 1) + 25 * word@.len() + (word@.len() - 1)
                + word@.len(),
    {
        let w = chars_of(word);
        let found = candidates_of(&w, &self.letters);
        let r = strings_of(&found);
        proof {
            use_type_invariant(self);
            assert forall|e: Seq<char>|
                r.deep_view().contains(e) <==> #[trigger] edits1(word@, self@.alphabet).contains(
                    e,
                ) by {
                lemma_candidates_are_edits(word@, self@.alphabet, e);
            }
            lemma_candidates_bound(word@, self@.alphabet);
            if word@.len() >= 1 && spelt_with(word@, self@.alphabet) {
                lemma_candidates_len(word@, self@.alphabet);
            }
        }
        r
    }

    /// Every result of two edits of `word`, with repetitions: the results of
    /// one edit of each result of one edit of `word`, in order.
    pub fn edits2(&self, word: &str) -> (r: Vec<String>)
        ensures
            r.deep_view() == candidates2(word@, self@.alphabet),
            forall|e: Seq<char>|
                r.deep_view().contains(e) <==> #[trigger] edits2(word@, self@.alphabet).contains(e),
    {
        let w = chars_of(word);
        let first = candidates_of(&w, &self.letters);
        let mut out: Vec<Vec<char>> = Vec::new();
        let mut i: usize = 0;
        while i < first.len()
            invariant
                i <= first.len(),
                views(first@) == candidates(word@, self@.alphabet),
                views(out@) == candidates2_upto(word@, self@.alphabet, i as nat),
            decreases first.len() - i,
        {
            let mut second = candidates_of(&first[i], &self.letters);
            out.append(&mut second);
            i += 1;
        }
        let r = strings_of(&out);
        proof {
            assert forall|e: Seq<char>|
                r.deep_view().contains(e) <==> #[trigger] edits2(word@, self@.alphabet).contains(
                    e,
                ) by {
                lemma_candidates2_are_edits(word@, self@.alphabet, e);
            }
        }
        r
    }

    /// Goes on from the best known word of `seen` to the best known word of
    /// `seen` and `cands` together.
    fn scan(
        &self,
        cands: &Vec<Vec<char>>,
        best: Option<(Vec<char>, u64)>,
        Ghost(seen): Ghost<Seq<Seq<char>>>,
    ) -> (r: Option<(Vec<char>, u64)>)
        requires
            self.holds(best, seen),
        ensures
            self.holds(r, seen + views(cands@)),
    {
        let mut best = best;
        let mut i: usize = 0;
        while i < cands.len()
            invariant
                i <= cands.len(),
                self.holds(best, seen + views(cands@).take(i as int)),
            decreases cands.len() - i,
        {
            let ghost l = seen + views(cands@).take(i as int);
            let ghost before = word_of(best);
            let c = &cands[i];
            let key = string_of(c);
            match self.n_words.get(key.as_str()) {
                None => {},
                Some(f) => {
                    let f: u64 = *f;
                    let better = match &best {
                        None => true,
                        Some(b) => f > b.1 || (f == b.1 && comes_before(c, &b.0)),
                    };
                    if better {
                        best = Some((c.clone(), f));
                    }
                },
            }
            i += 1;
            proof {
                self@.lemma_pick_tops(before, l, c@);
                assert(l.push(c@) =~= seen + views(cands@).take(i as int));
            }
        }
        assert(views(cands@).take(i as int) =~= views(cands@));
        best
    }

    /// The correction of `word`. With `w` the lowercase form of `word`: `w`
    /// itself where it is known or longer than `MAX_WORD_LEN`; else the best
    /// known word one edit away from `w`; where there is none, the best known
    /// word two edits away; where there is none either, `w`. The best is the
    /// word seen most often and, among these, the first in the order on words.
    pub fn correct(&self, word: &str) -> (r: String)
        ensures
            self@.is_correction(word@, r@),
            r@ == self@.correction(word@),
            self@.knows(word@) || self@.knows(lowercase(word@)) ==> r@ == lowercase(word@),
            ({
                ||| r@ == lowercase(word@)
                ||| edits1(lowercase(word@), self@.alphabet).contains(r@) && self@.knows(r@)
                ||| edits2(lowercase(word@), self@.alphabet).contains(r@) && self@.knows(r@)
            }),
    {
        let w = fold_all(&chars_of(word));
        let lower = string_of(&w);
        let ghost lex = self@;
        proof {
            use_type_invariant(self);
            if lex.knows(word@) {
                lemma_lowercase_of_word(word@);
            }
        }
        if w.len() > MAX_WORD_LEN || self.n_words.contains_key(lower.as_str()) {
            proof {
                lex.lemma_correction_unique(word@, lower@, lower@);
            }
            return lower;
        }
        let first = candidates_of(&w, &self.letters);
        let best1 = self.scan(&first, None, Ghost(Seq::empty()));
        proof {
            let l = candidates(w@, lex.alphabet);
            assert forall|e: Seq<char>| l.contains(e) <==> edits1(w@, lex.alphabet).contains(e) by {
                lemma_candidates_are_edits(w@, lex.alphabet, e);
            }
            lex.lemma_tops_ranks_first(word_of(best1), l, edits1(w@, lex.alphabet));
        }
        match best1 {
            Some(b) => {
                let r = string_of(&b.0);
                proof {
                    lex.lemma_correction_unique(word@, r@, r@);
                }
                return r;
            },
            None => {},
        }
        let mut best: Option<(Vec<char>, u64)> = None;
        let mut i: usize = 0;
        while i < first.len()
            invariant
                i <= first.len(),
                lex == self@,
                views(first@) == candidates(w@, lex.alphabet),
                self.holds(best, candidates2_upto(w@, lex.alphabet, i as nat)),
            decreases first.len() - i,
        {
            let second = candidates_of(&first[i], &self.letters);
            best = self.scan(&second, best, Ghost(candidates2_upto(w@, lex.alphabet, i as nat)));
            i += 1;
        }
        proof {
            let l = candidates2(w@, lex.alphabet);
            assert forall|e: Seq<char>| l.contains(e) <==> edits2(w@, lex.alphabet).contains(e) by {
                lemma_candidates2_are_edits(w@, lex.alphabet, e);
            }
            lex.lemma_tops_ranks_first(word_of(best), l, edits2(w@, lex.alphabet));
        }
        let r = match best {
            Some(b) => string_of(&b.0),
            None => lower,
        };
        proof {
            lex.lemma_correction_unique(word@, r@, r@);
        }
        r
    }

    /// The suggestions for a document: for each of its tokens that has a
    /// correction other than its own lowercase form, at its first occurrence,
    /// the token as it stands and its correction. The tokens are the maximal
    /// runs of characters that are not white space.
    pub fn corrections(&self, content: &str) -> (r: Vec<(String, String)>)
        ensures
            r.deep_view() == self@.suggestions(tokens(content@)),
            forall|i: int, j: int|
                0 <= i < j < r.len() ==> (#[trigger] r.deep_view()[i]).0 != (
                #[trigger] r.deep_view()[j]).0,
    {
        let ts = split_tokens(content);
        let mut out: Vec<(String, String)> = Vec::new();
        let mut i: usize = 0;
        let ghost all = ts.deep_view();
        while i < ts.len()
            invariant
                i <= ts.len(),
                all == ts.deep_view(),
                out.deep_view() == self@.suggestions(all.take(i as int)),
            decreases ts.len() - i,
        {
            let ghost seen = all.take(i as int);
            let ghost t = ts[i as int]@;
            let fixed = self.correct(ts[i].as_str());
            let lower = string_of(&fold_all(&chars_of(ts[i].as_str())));
            if !(fixed == lower) && !has_key(&out, &ts[i]) {
                out.push((ts[i].clone(), fixed));
            }
            i += 1;
            proof {
                let now = all.take(i as int);
                assert(now.drop_last() =~= seen);
                self@.lemma_suggestions_entries(seen, t);
            }
        }
        assert(all.take(i as int) =~= all);
        proof {
            assert forall|i: int, j: int| 0 <= i < j < out.len() implies (
            #[trigger] out.deep_view()[i]).0 != (#[trigger] out.deep_view()[j]).0 by {
                self@.lemma_suggestions_distinct(all, i, j);
            }
        }
        out
    }
}

/// Tells whether `l` holds a suggestion for the token `t`.
fn has_key(l: &Vec<(String, String)>, t: &String) -> (r: bool)
    ensures
        r == Lexicon::has_entry(l.deep_view(), t@),
{
    let mut j: usize = 0;
    while j < l.len()
        invariant
            j <= l.len(),
            forall|k: int| 0 <= k < j ==> (#[trigger] l.deep_view()[k]).0 != t@,
        decreases l.len() - j,
    {
        if l[j].0 == *t {
            assert(l.deep_view()[j as int].0 == t@);
            return true;
        }
        j += 1;
    }
    false
}

} // verus!
