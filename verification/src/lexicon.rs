//! The model of a trained speller: an alphabet, a table of word counts, the
//! ranking of known words and the correction that follows from them.

use vstd::prelude::*;
use crate::text::{
    is_letter, is_word, lowercase, precedes, lemma_precedes_total, lemma_precedes_transitive,
    lemma_lowercase_idempotent, lemma_lowercase_of_word, lemma_fold_char_idempotent,
};
use crate::tokens::{words, runs, Class, lemma_no_runs, lemma_runs_are_runs};
use crate::edits::{
    edits1, edits2, candidates, candidates2, lemma_candidates_are_edits,
    lemma_candidates2_are_edits,
};

verus! {

/// The longest word, in characters, for which a correction is looked for. A
/// longer word is taken to be no misspelling and is handed back in lowercase.
pub const MAX_WORD_LEN: usize = 20;

/// What a speller knows: the letters it edits with and how often it has seen
/// each word.
pub struct Lexicon {
    /// The letters that replacements and insertions draw from, in order.
    pub alphabet: Seq<char>,
    /// The number of occurrences of each word seen in training.
    pub frequencies: Map<Seq<char>, nat>,
}

/// The number of positions at which `ws` holds `w`.
pub open spec fn occurrences(ws: Seq<Seq<char>>, w: Seq<char>) -> nat
    decreases ws.len(),
{
    if ws.len() == 0 {
        0
    } else {
        occurrences(ws.drop_last(), w) + if ws.last() == w {
            1nat
        } else {
            0nat
        }
    }
}

/// A word occurs in a list at least once exactly when the list holds it, and
/// never more often than the list is long.
pub proof fn lemma_occurrences(ws: Seq<Seq<char>>, w: Seq<char>)
    ensures
        occurrences(ws, w) <= ws.len(),
        occurrences(ws, w) > 0 <==> ws.contains(w),
    decreases ws.len(),
{
    if ws.len() > 0 {
        let init = ws.drop_last();
        lemma_occurrences(init, w);
        if init.contains(w) {
            let j = choose|j: int| 0 <= j < init.len() && init[j] == w;
            assert(ws[j] == w);
        }
        if ws.last() == w {
            assert(ws[ws.len() - 1] == w);
        }
        if ws.contains(w) && ws.last() != w {
            let j = choose|j: int| 0 <= j < ws.len() && ws[j] == w;
            assert(init[j] == w);
        }
    }
}

/// One more word at the end counts once more for that word and leaves the
/// other counts as they are.
pub proof fn lemma_occurrences_push(ws: Seq<Seq<char>>, x: Seq<char>, w: Seq<char>)
    ensures
        occurrences(ws.push(x), w) == occurrences(ws, w) + if x == w {
            1nat
        } else {
            0nat
        },
{
    assert(ws.push(x).drop_last() =~= ws);
}

/// The table of a list of words: each word that occurs, with the number of its
/// occurrences.
pub open spec fn word_counts(ws: Seq<Seq<char>>) -> Map<Seq<char>, nat> {
    Map::new(|w: Seq<char>| ws.contains(w), |w: Seq<char>| occurrences(ws, w))
}

/// The lexicon that training on `text` gives: the table of the words of `text`.
pub open spec fn trained(alphabet: Seq<char>, text: Seq<char>) -> Lexicon {
    Lexicon { alphabet, frequencies: word_counts(words(text)) }
}

impl Lexicon {
    /// No letter stands twice in the alphabet, and every word of the table is a
    /// non-empty run of lowercase letters that has been seen at least once.
    pub open spec fn wf(self) -> bool {
        &&& self.alphabet.no_duplicates()
        &&& forall|w: Seq<char>| #[trigger]
            self.frequencies.contains_key(w) ==> is_word(w) && self.frequencies[w] >= 1
    }

    /// `w` is in the table.
    pub open spec fn knows(self, w: Seq<char>) -> bool {
        self.frequencies.contains_key(w)
    }

    /// How often `w` was seen; 0 for a word that is not in the table.
    pub open spec fn frequency(self, w: Seq<char>) -> nat {
        if self.knows(w) {
            self.frequencies[w]
        } else {
            0
        }
    }

    /// `a` is the better correction of the two: it was seen more often, or as
    /// often and it comes first in the order on words.
    pub open spec fn outranks(self, a: Seq<char>, b: Seq<char>) -> bool {
        self.frequency(a) > self.frequency(b) || (self.frequency(a) == self.frequency(b)
            && precedes(a, b))
    }

    /// Some word of `cands` is in the table.
    pub open spec fn has_known(self, cands: Set<Seq<char>>) -> bool {
        exists|c: Seq<char>| #[trigger] cands.contains(c) && self.knows(c)
    }

    /// `c` is the best known word of `cands`: it is in the table, and it is the
    /// better correction against every other word of `cands` in the table.
    pub open spec fn ranks_first(self, cands: Set<Seq<char>>, c: Seq<char>) -> bool {
        &&& cands.contains(c)
        &&& self.knows(c)
        &&& forall|d: Seq<char>| #[trigger]
            cands.contains(d) && self.knows(d) && d != c ==> self.outranks(c, d)
    }

    /// `r` is the correction of `word`. With `w` the lowercase form of `word`:
    /// `w` itself where it is known or longer than `MAX_WORD_LEN`; else the
    /// best known word one edit away from `w`; where there is none, the best
    /// known word two edits away; where there is none either, `w`.
    pub open spec fn is_correction(self, word: Seq<char>, r: Seq<char>) -> bool {
        let w = lowercase(word);
        if self.knows(w) || w.len() > MAX_WORD_LEN {
            r == w
        } else if self.has_known(edits1(w, self.alphabet)) {
            self.ranks_first(edits1(w, self.alphabet), r)
        } else if self.has_known(edits2(w, self.alphabet)) {
            self.ranks_first(edits2(w, self.alphabet), r)
        } else {
            r == w
        }
    }

    /// The correction of `word`.
    pub open spec fn correction(self, word: Seq<char>) -> Seq<char> {
        choose|r: Seq<char>| self.is_correction(word, r)
    }

    /// The best of a list so far: `None` while no word of `l` is known, else
    /// the known word of `l` that is the better correction against every
    /// other.
    pub open spec fn tops(self, best: Option<Seq<char>>, l: Seq<Seq<char>>) -> bool {
        match best {
            None => forall|j: int| 0 <= j < l.len() ==> !self.knows(#[trigger] l[j]),
            Some(b) => {
                &&& self.knows(b)
                &&& l.contains(b)
                &&& forall|j: int|
                    0 <= j < l.len() && self.knows(#[trigger] l[j]) && l[j] != b
                        ==> self.outranks(b, l[j])
            },
        }
    }

    /// The best so far after one more word `c`.
    pub open spec fn pick(self, best: Option<Seq<char>>, c: Seq<char>) -> Option<Seq<char>> {
        if !self.knows(c) {
            best
        } else {
            match best {
                None => Some(c),
                Some(b) => if self.outranks(c, b) {
                    Some(c)
                } else {
                    Some(b)
                },
            }
        }
    }

    /// The best of a whole list, word by word.
    pub open spec fn best_of(self, l: Seq<Seq<char>>) -> Option<Seq<char>>
        decreases l.len(),
    {
        if l.len() == 0 {
            None
        } else {
            self.pick(self.best_of(l.drop_last()), l.last())
        }
    }

    /// Of two different words one is the better correction, and only one.
    pub proof fn lemma_outranks_total(self, a: Seq<char>, b: Seq<char>)
        requires
            a != b,
        ensures
            self.outranks(a, b) <==> !self.outranks(b, a),
    {
        lemma_precedes_total(a, b);
    }

    /// Being the better correction is transitive.
    pub proof fn lemma_outranks_transitive(self, a: Seq<char>, b: Seq<char>, c: Seq<char>)
        requires
            self.outranks(a, b),
            self.outranks(b, c),
        ensures
            self.outranks(a, c),
    {
        if self.frequency(a) == self.frequency(b) && self.frequency(b) == self.frequency(c) {
            lemma_precedes_transitive(a, b, c);
        }
    }

    /// A set of candidates has at most one best known word.
    pub proof fn lemma_ranks_first_unique(self, cands: Set<Seq<char>>, c: Seq<char>, d: Seq<char>)
        requires
            self.ranks_first(cands, c),
            self.ranks_first(cands, d),
        ensures
            c == d,
    {
        if c != d {
            self.lemma_outranks_total(c, d);
        }
    }

    /// One more word keeps the best so far the best.
    pub proof fn lemma_pick_tops(self, best: Option<Seq<char>>, l: Seq<Seq<char>>, c: Seq<char>)
        requires
            self.tops(best, l),
        ensures
            self.tops(self.pick(best, c), l.push(c)),
    {
        let l2 = l.push(c);
        let next = self.pick(best, c);
        assert(l2[l.len() as int] == c);
        assert forall|j: int| 0 <= j < l.len() implies l2[j] == l[j] by {}
        match next {
            None => {
                assert forall|j: int| 0 <= j < l2.len() implies !self.knows(#[trigger] l2[j]) by {
                    if j < l.len() {
                        assert(l2[j] == l[j]);
                    }
                }
            },
            Some(n) => {
                if best is Some && n == best->0 {
                    let b = best->0;
                    let k = choose|k: int| 0 <= k < l.len() && l[k] == b;
                    assert(l2[k] == b);
                    assert forall|j: int|
                        0 <= j < l2.len() && self.knows(#[trigger] l2[j]) && l2[j]
                            != n implies self.outranks(n, l2[j]) by {
                        if j < l.len() {
                            assert(l2[j] == l[j]);
                        } else {
                            self.lemma_outranks_total(c, b);
                        }
                    }
                } else {
                    assert(n == c);
                    assert forall|j: int|
                        0 <= j < l2.len() && self.knows(#[trigger] l2[j]) && l2[j]
                            != n implies self.outranks(n, l2[j]) by {
                        if j < l.len() {
                            assert(l2[j] == l[j]);
                            let b = best->0;
                            if l[j] != b {
                                self.lemma_outranks_transitive(c, b, l[j]);
                            }
                        }
                    }
                }
            },
        }
    }

    /// The best of a list is its best known word.
    pub proof fn lemma_best_of_tops(self, l: Seq<Seq<char>>)
        ensures
            self.tops(self.best_of(l), l),
        decreases l.len(),
    {
        if l.len() > 0 {
            self.lemma_best_of_tops(l.drop_last());
            self.lemma_pick_tops(self.best_of(l.drop_last()), l.drop_last(), l.last());
            assert(l.drop_last().push(l.last()) =~= l);
        }
    }

    /// What is best in a list is best in the set of the words that the list
    /// holds.
    pub proof fn lemma_tops_ranks_first(
        self,
        best: Option<Seq<char>>,
        l: Seq<Seq<char>>,
        cands: Set<Seq<char>>,
    )
        requires
            self.tops(best, l),
            forall|e: Seq<char>| l.contains(e) <==> cands.contains(e),
        ensures
            best is None <==> !self.has_known(cands),
            best is Some ==> self.ranks_first(cands, best->0),
    {
        match best {
            None => {
                if self.has_known(cands) {
                    let c = choose|c: Seq<char>| #[trigger] cands.contains(c) && self.knows(c);
                    assert(l.contains(c));
                    let j = choose|j: int| 0 <= j < l.len() && l[j] == c;
                    assert(!self.knows(l[j]));
                }
            },
            Some(b) => {
                assert(cands.contains(b) && self.knows(b));
                assert forall|d: Seq<char>| #[trigger]
                    cands.contains(d) && self.knows(d) && d != b implies self.outranks(b, d) by {
                    assert(l.contains(d));
                    let j = choose|j: int| 0 <= j < l.len() && l[j] == d;
                    assert(self.knows(l[j]));
                }
            },
        }
    }

    /// Where a word one edit away from `w` is known, one of them is the best.
    pub proof fn lemma_best_edit1_exists(self, w: Seq<char>)
        requires
            self.has_known(edits1(w, self.alphabet)),
        ensures
            exists|c: Seq<char>| self.ranks_first(edits1(w, self.alphabet), c),
    {
        let l = candidates(w, self.alphabet);
        let cands = edits1(w, self.alphabet);
        self.lemma_best_of_tops(l);
        assert forall|e: Seq<char>| l.contains(e) <==> cands.contains(e) by {
            lemma_candidates_are_edits(w, self.alphabet, e);
        }
        self.lemma_tops_ranks_first(self.best_of(l), l, cands);
        assert(self.ranks_first(cands, self.best_of(l)->0));
    }

    /// Where a word two edits away from `w` is known, one of them is the best.
    pub proof fn lemma_best_edit2_exists(self, w: Seq<char>)
        requires
            self.has_known(edits2(w, self.alphabet)),
        ensures
            exists|c: Seq<char>| self.ranks_first(edits2(w, self.alphabet), c),
    {
        let l = candidates2(w, self.alphabet);
        let cands = edits2(w, self.alphabet);
        self.lemma_best_of_tops(l);
        assert forall|e: Seq<char>| l.contains(e) <==> cands.contains(e) by {
            lemma_candidates2_are_edits(w, self.alphabet, e);
        }
        self.lemma_tops_ranks_first(self.best_of(l), l, cands);
        assert(self.ranks_first(cands, self.best_of(l)->0));
    }

    /// Every word has a correction.
    pub proof fn lemma_correction_exists(self, word: Seq<char>)
        ensures
            self.is_correction(word, self.correction(word)),
    {
        let w = lowercase(word);
        if self.knows(w) || w.len() > MAX_WORD_LEN {
            assert(self.is_correction(word, w));
        } else if self.has_known(edits1(w, self.alphabet)) {
            self.lemma_best_edit1_exists(w);
            let c = choose|c: Seq<char>| self.ranks_first(edits1(w, self.alphabet), c);
            assert(self.is_correction(word, c));
        } else if self.has_known(edits2(w, self.alphabet)) {
            self.lemma_best_edit2_exists(w);
            let c = choose|c: Seq<char>| self.ranks_first(edits2(w, self.alphabet), c);
            assert(self.is_correction(word, c));
        } else {
            assert(self.is_correction(word, w));
        }
    }

    /// A word has one correction only: correcting the same word twice against
    /// the same lexicon gives the same result.
    pub proof fn lemma_correction_unique(self, word: Seq<char>, r1: Seq<char>, r2: Seq<char>)
        requires
            self.is_correction(word, r1),
            self.is_correction(word, r2),
        ensures
            r1 == r2,
            r1 == self.correction(word),
    {
        let w = lowercase(word);
        self.lemma_correction_exists(word);
        let r = self.correction(word);
        if self.knows(w) || w.len() > MAX_WORD_LEN {
        } else if self.has_known(edits1(w, self.alphabet)) {
            self.lemma_ranks_first_unique(edits1(w, self.alphabet), r1, r2);
            self.lemma_ranks_first_unique(edits1(w, self.alphabet), r1, r);
        } else if self.has_known(edits2(w, self.alphabet)) {
            self.lemma_ranks_first_unique(edits2(w, self.alphabet), r1, r2);
            self.lemma_ranks_first_unique(edits2(w, self.alphabet), r1, r);
        }
    }

    /// Against an empty table every word is its own correction, in lowercase.
    pub proof fn lemma_empty_table_changes_nothing(self, word: Seq<char>)
        requires
            self.frequencies == Map::<Seq<char>, nat>::empty(),
        ensures
            self.correction(word) == lowercase(word),
    {
        self.lemma_correction_exists(word);
    }

    /// A word that is in the table, as it stands or in lowercase, is its own
    /// correction, in lowercase.
    pub proof fn lemma_known_word_is_stable(self, word: Seq<char>)
        requires
            self.knows(lowercase(word)) || (self.wf() && self.knows(word)),
        ensures
            self.correction(word) == lowercase(word),
    {
        if self.wf() && self.knows(word) {
            lemma_lowercase_of_word(word);
        }
        self.lemma_correction_exists(word);
    }

    /// The correction of a word is its lowercase form, or a known word one
    /// edit away from that form, or a known word two edits away from it.
    pub proof fn lemma_correction_is_candidate(self, word: Seq<char>)
        ensures
            ({
                let w = lowercase(word);
                let r = self.correction(word);
                ||| r == w
                ||| edits1(w, self.alphabet).contains(r) && self.knows(r)
                ||| edits2(w, self.alphabet).contains(r) && self.knows(r)
            }),
    {
        self.lemma_correction_exists(word);
    }

    /// The correction depends on the lowercase form of the word only.
    pub proof fn lemma_correction_ignores_case(self, word: Seq<char>)
        ensures
            self.correction(lowercase(word)) == self.correction(word),
    {
        lemma_lowercase_idempotent(word);
        self.lemma_correction_exists(word);
        assert(self.is_correction(lowercase(word), self.correction(word)));
        self.lemma_correction_exists(lowercase(word));
        self.lemma_correction_unique(
            lowercase(word),
            self.correction(word),
            self.correction(lowercase(word)),
        );
    }

    /// Correcting a correction changes nothing: where no correction was found,
    /// and, for a well-formed lexicon, everywhere.
    pub proof fn lemma_correction_idempotent(self, word: Seq<char>)
        requires
            self.wf() || self.correction(word) == lowercase(word),
        ensures
            self.correction(self.correction(word)) == self.correction(word),
    {
        let r = self.correction(word);
        self.lemma_correction_exists(word);
        if r == lowercase(word) {
            self.lemma_correction_ignores_case(word);
        } else {
            assert(self.knows(r));
            self.lemma_known_word_is_stable(r);
            lemma_lowercase_of_word(r);
        }
    }
}

impl Lexicon {
    /// `word` has a correction other than its own lowercase form.
    pub open spec fn is_misspelt(self, word: Seq<char>) -> bool {
        self.correction(word) != lowercase(word)
    }

    /// The suggestions for a list of tokens: for each token that has a
    /// correction other than its own lowercase form, at its first occurrence,
    /// the token as it stands and its correction.
    pub open spec fn suggestions(self, ts: Seq<Seq<char>>) -> Seq<(Seq<char>, Seq<char>)>
        decreases ts.len(),
    {
        if ts.len() == 0 {
            Seq::empty()
        } else {
            let before = self.suggestions(ts.drop_last());
            let t = ts.last();
            if self.is_misspelt(t) && !ts.drop_last().contains(t) {
                before.push((t, self.correction(t)))
            } else {
                before
            }
        }
    }

    /// `t` is one of the tokens that `l` holds a suggestion for.
    pub open spec fn has_entry(l: Seq<(Seq<char>, Seq<char>)>, t: Seq<char>) -> bool {
        exists|j: int| 0 <= j < l.len() && (#[trigger] l[j]).0 == t
    }

    /// The suggestions hold an entry for a token exactly when the token is one
    /// of the list and has a correction other than its lowercase form; each
    /// entry holds the correction of its token.
    pub proof fn lemma_suggestions_entries(self, ts: Seq<Seq<char>>, t: Seq<char>)
        ensures
            Self::has_entry(self.suggestions(ts), t) <==> ts.contains(t) && self.is_misspelt(t),
            forall|j: int|
                0 <= j < self.suggestions(ts).len() ==> (#[trigger] self.suggestions(ts)[j]).1
                    == self.correction(self.suggestions(ts)[j].0),
        decreases ts.len(),
    {
        let l = self.suggestions(ts);
        if ts.len() > 0 {
            let init = ts.drop_last();
            let last = ts.last();
            let before = self.suggestions(init);
            self.lemma_suggestions_entries(init, t);
            self.lemma_suggestions_entries(init, last);
            assert(ts[ts.len() - 1] == last);
            if Self::has_entry(before, t) {
                let j = choose|j: int| 0 <= j < before.len() && (#[trigger] before[j]).0 == t;
                assert(l[j].0 == t);
                let k = choose|k: int| 0 <= k < init.len() && init[k] == t;
                assert(ts[k] == t);
            }
            if Self::has_entry(l, t) && !Self::has_entry(before, t) {
                let j = choose|j: int| 0 <= j < l.len() && (#[trigger] l[j]).0 == t;
                if j < before.len() {
                    assert(before[j].0 == t);
                }
            }
            if ts.contains(t) && self.is_misspelt(t) {
                let k = choose|k: int| 0 <= k < ts.len() && ts[k] == t;
                if k < init.len() {
                    assert(init[k] == t);
                } else if !init.contains(t) {
                    assert(l[before.len() as int].0 == t);
                }
            }
            assert forall|j: int| 0 <= j < l.len() implies (#[trigger] l[j]).1 == self.correction(
                l[j].0,
            ) by {
                if j < before.len() {
                    assert(l[j] == before[j]);
                }
            }
        } else {
            if Self::has_entry(l, t) {
                let j = choose|j: int| 0 <= j < l.len() && (#[trigger] l[j]).0 == t;
            }
        }
    }

    /// No token has two suggestions.
    pub proof fn lemma_suggestions_distinct(self, ts: Seq<Seq<char>>, i: int, j: int)
        requires
            0 <= i < j < self.suggestions(ts).len(),
        ensures
            self.suggestions(ts)[i].0 != self.suggestions(ts)[j].0,
        decreases ts.len(),
    {
        let l = self.suggestions(ts);
        if ts.len() > 0 {
            let init = ts.drop_last();
            let before = self.suggestions(init);
            if j < before.len() {
                self.lemma_suggestions_distinct(init, i, j);
            } else {
                self.lemma_suggestions_entries(init, ts.last());
                if before[i].0 == ts.last() {
                    assert(Self::has_entry(before, ts.last()));
                }
            }
        }
    }
}

/// A text without a letter trains to the empty table, as the empty text does.
pub proof fn lemma_trained_on_no_letters(alphabet: Seq<char>, text: Seq<char>)
    requires
        forall|k: int| 0 <= k < text.len() ==> !is_letter(#[trigger] text[k]),
    ensures
        trained(alphabet, text).frequencies == Map::<Seq<char>, nat>::empty(),
{
    lemma_no_runs(text, Class::Letter);
    assert(words(text) =~= Seq::<Seq<char>>::empty());
    assert(trained(alphabet, text).frequencies =~= Map::<Seq<char>, nat>::empty());
}

/// Training on the same text gives the same table, whatever the alphabet.
pub proof fn lemma_training_is_deterministic(a: Lexicon, b: Lexicon, text: Seq<char>)
    requires
        a == trained(a.alphabet, text),
        b == trained(b.alphabet, text),
    ensures
        a.frequencies == b.frequencies,
{
}

/// The words of a text are non-empty runs of lowercase letters.
pub proof fn lemma_words_are_words(text: Seq<char>, i: int)
    requires
        0 <= i < words(text).len(),
    ensures
        is_word(words(text)[i]),
{
    let rs = runs(text, Class::Letter);
    lemma_runs_are_runs(text, Class::Letter, i);
    let w = words(text)[i];
    assert(w == lowercase(rs[i]));
    assert forall|k: int| 0 <= k < w.len() implies crate::text::is_lower(#[trigger] w[k]) by {
        assert(Class::Letter.holds(rs[i][k]));
        lemma_fold_char_idempotent(rs[i][k]);
    }
}

/// A lexicon trained with an alphabet without repetitions is well formed, and
/// it is empty when the text holds no letter.
pub proof fn lemma_trained_wf(alphabet: Seq<char>, text: Seq<char>)
    requires
        alphabet.no_duplicates(),
    ensures
        trained(alphabet, text).wf(),
        words(text).len() == 0 ==> trained(alphabet, text).frequencies == Map::<
            Seq<char>,
            nat,
        >::empty(),
{
    let lex = trained(alphabet, text);
    let ws = words(text);
    assert forall|w: Seq<char>| #[trigger] lex.frequencies.contains_key(w) implies is_word(w)
        && lex.frequencies[w] >= 1 by {
        assert(ws.contains(w));
        let i = choose|i: int| 0 <= i < ws.len() && ws[i] == w;
        lemma_words_are_words(text, i);
        lemma_occurrences(ws, w);
    }
    if ws.len() == 0 {
        assert(lex.frequencies =~= Map::<Seq<char>, nat>::empty());
    }
}

} // verus!
