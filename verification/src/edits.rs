//! The words one edit away from a word: deletions, transpositions of
//! neighbours, replacements and insertions of a letter of the alphabet.

use vstd::prelude::*;
use crate::tokens::views;

verus! {

/// `w` without its character at position `i`.
pub open spec fn deletion(w: Seq<char>, i: int) -> Seq<char> {
    w.remove(i)
}

/// `w` with its characters at positions `i` and `i + 1` exchanged.
pub open spec fn transposition(w: Seq<char>, i: int) -> Seq<char> {
    w.update(i, w[i + 1]).update(i + 1, w[i])
}

/// `w` with `c` in place of its character at position `i`.
pub open spec fn replacement(w: Seq<char>, i: int, c: char) -> Seq<char> {
    w.update(i, c)
}

/// `w` with `c` put in before position `i`; at `i == w.len()`, after the end.
pub open spec fn insertion(w: Seq<char>, i: int, c: char) -> Seq<char> {
    w.insert(i, c)
}

/// The deletions of `w`, by position.
pub open spec fn deletions(w: Seq<char>) -> Seq<Seq<char>> {
    Seq::new(w.len(), |i: int| deletion(w, i))
}

/// The transpositions of `w`, by the position of the left neighbour.
pub open spec fn transpositions(w: Seq<char>) -> Seq<Seq<char>> {
    Seq::new(
        if w.len() > 0 {
            (w.len() - 1) as nat
        } else {
            0
        },
        |i: int| transposition(w, i),
    )
}

/// The replacements of `w` at position `i`: one for each letter of `alphabet`
/// other than the character that stands there, in the alphabet's order.
pub open spec fn replacements_at(w: Seq<char>, i: int, alphabet: Seq<char>) -> Seq<Seq<char>>
    decreases alphabet.len(),
{
    if alphabet.len() == 0 {
        Seq::empty()
    } else {
        let before = replacements_at(w, i, alphabet.drop_last());
        if alphabet.last() == w[i] {
            before
        } else {
            before.push(replacement(w, i, alphabet.last()))
        }
    }
}

/// The replacements of `w` at its first `n` positions, position by position.
pub open spec fn replacements_upto(w: Seq<char>, alphabet: Seq<char>, n: nat) -> Seq<Seq<char>>
    decreases n,
{
    if n == 0 {
        Seq::empty()
    } else {
        replacements_upto(w, alphabet, (n - 1) as nat) + replacements_at(w, n - 1, alphabet)
    }
}

/// The replacements of `w`, position by position.
pub open spec fn replacements(w: Seq<char>, alphabet: Seq<char>) -> Seq<Seq<char>> {
    replacements_upto(w, alphabet, w.len())
}

/// The insertions into `w` before position `i`: one for each letter of
/// `alphabet`, in the alphabet's order.
pub open spec fn insertions_at(w: Seq<char>, i: int, alphabet: Seq<char>) -> Seq<Seq<char>> {
    Seq::new(alphabet.len(), |k: int| insertion(w, i, alphabet[k]))
}

/// The insertions into `w` at its first `n` positions, position by position.
pub open spec fn insertions_upto(w: Seq<char>, alphabet: Seq<char>, n: nat) -> Seq<Seq<char>>
    decreases n,
{
    if n == 0 {
        Seq::empty()
    } else {
        insertions_upto(w, alphabet, (n - 1) as nat) + insertions_at(w, n - 1, alphabet)
    }
}

/// The insertions into `w`, position by position, the end included.
pub open spec fn insertions(w: Seq<char>, alphabet: Seq<char>) -> Seq<Seq<char>> {
    insertions_upto(w, alphabet, w.len() + 1)
}

/// Every result of one edit of `w`, with repetitions: the deletions, then the
/// transpositions, the replacements and the insertions.
pub open spec fn candidates(w: Seq<char>, alphabet: Seq<char>) -> Seq<Seq<char>> {
    deletions(w) + transpositions(w) + replacements(w, alphabet) + insertions(w, alphabet)
}

/// Every result of one edit of one of the first `n` candidates of `w`, with
/// repetitions, candidate by candidate.
pub open spec fn candidates2_upto(w: Seq<char>, alphabet: Seq<char>, n: nat) -> Seq<Seq<char>>
    decreases n,
{
    if n == 0 {
        Seq::empty()
    } else {
        candidates2_upto(w, alphabet, (n - 1) as nat) + candidates(
            candidates(w, alphabet)[n - 1],
            alphabet,
        )
    }
}

/// Every result of two edits of `w`, with repetitions: the candidates of each
/// candidate of `w`, in order.
pub open spec fn candidates2(w: Seq<char>, alphabet: Seq<char>) -> Seq<Seq<char>> {
    candidates2_upto(w, alphabet, candidates(w, alphabet).len())
}

/// Every character of `w` is a letter of `alphabet`.
pub open spec fn spelt_with(w: Seq<char>, alphabet: Seq<char>) -> bool {
    forall|i: int| 0 <= i < w.len() ==> alphabet.contains(#[trigger] w[i])
}

/// `e` is `w` with one character left out.
pub open spec fn is_deletion(w: Seq<char>, e: Seq<char>) -> bool {
    exists|i: int| 0 <= i < w.len() && e == #[trigger] deletion(w, i)
}

/// `e` is `w` with two neighbouring characters exchanged.
pub open spec fn is_transposition(w: Seq<char>, e: Seq<char>) -> bool {
    exists|i: int| 0 <= i < w.len() - 1 && e == #[trigger] transposition(w, i)
}

/// `e` is `w` with the character at position `i` replaced by another letter of
/// `alphabet`.
pub open spec fn is_replacement_at(w: Seq<char>, i: int, e: Seq<char>, alphabet: Seq<char>) -> bool {
    exists|c: char| alphabet.contains(c) && c != w[i] && e == #[trigger] replacement(w, i, c)
}

/// `e` is `w` with one character replaced by another letter of `alphabet`.
pub open spec fn is_replacement(w: Seq<char>, e: Seq<char>, alphabet: Seq<char>) -> bool {
    exists|i: int| 0 <= i < w.len() && #[trigger] is_replacement_at(w, i, e, alphabet)
}

/// `e` is `w` with a letter of `alphabet` put in before position `i`.
pub open spec fn is_insertion_at(w: Seq<char>, i: int, e: Seq<char>, alphabet: Seq<char>) -> bool {
    exists|c: char| alphabet.contains(c) && e == #[trigger] insertion(w, i, c)
}

/// `e` is `w` with a letter of `alphabet` put in somewhere, the two ends
/// included.
pub open spec fn is_insertion(w: Seq<char>, e: Seq<char>, alphabet: Seq<char>) -> bool {
    exists|i: int| 0 <= i <= w.len() && #[trigger] is_insertion_at(w, i, e, alphabet)
}

/// `e` is one edit away from `w`: a deletion, a transposition, a replacement
/// or an insertion.
pub open spec fn one_edit(w: Seq<char>, e: Seq<char>, alphabet: Seq<char>) -> bool {
    is_deletion(w, e) || is_transposition(w, e) || is_replacement(w, e, alphabet) || is_insertion(
        w,
        e,
        alphabet,
    )
}

/// `e` is two edits away from `w`: one edit away from a word that is one edit
/// away from `w`.
pub open spec fn two_edits(w: Seq<char>, e: Seq<char>, alphabet: Seq<char>) -> bool {
    exists|m: Seq<char>| one_edit(w, m, alphabet) && #[trigger] one_edit(m, e, alphabet)
}

/// The words one edit away from `w`.
pub open spec fn edits1(w: Seq<char>, alphabet: Seq<char>) -> Set<Seq<char>> {
    Set::new(|e: Seq<char>| one_edit(w, e, alphabet))
}

/// The words two edits away from `w`: the union, over the words one edit away
/// from `w`, of the words one edit away from each.
pub open spec fn edits2(w: Seq<char>, alphabet: Seq<char>) -> Set<Seq<char>> {
    Set::new(|e: Seq<char>| two_edits(w, e, alphabet))
}

/// A concatenation holds what either part holds.
proof fn lemma_concat_contains(x: Seq<Seq<char>>, y: Seq<Seq<char>>, e: Seq<char>)
    ensures
        (x + y).contains(e) <==> x.contains(e) || y.contains(e),
{
    if x.contains(e) {
        let j = choose|j: int| 0 <= j < x.len() && x[j] == e;
        assert((x + y)[j] == e);
    }
    if y.contains(e) {
        let j = choose|j: int| 0 <= j < y.len() && y[j] == e;
        assert((x + y)[x.len() + j] == e);
    }
    if (x + y).contains(e) {
        let j = choose|j: int| 0 <= j < (x + y).len() && (x + y)[j] == e;
        if j < x.len() {
            assert(x[j] == e);
        } else {
            assert(y[j - x.len()] == e);
        }
    }
}

/// The list of deletions holds the deletions and nothing else.
pub proof fn lemma_deletions_contains(w: Seq<char>, e: Seq<char>)
    ensures
        deletions(w).contains(e) <==> is_deletion(w, e),
{
    if deletions(w).contains(e) {
        let j = choose|j: int| 0 <= j < deletions(w).len() && deletions(w)[j] == e;
        assert(e == deletion(w, j));
    }
    if is_deletion(w, e) {
        let i = choose|i: int| 0 <= i < w.len() && e == #[trigger] deletion(w, i);
        assert(deletions(w)[i] == e);
    }
}

/// The list of transpositions holds the transpositions and nothing else.
pub proof fn lemma_transpositions_contains(w: Seq<char>, e: Seq<char>)
    ensures
        transpositions(w).contains(e) <==> is_transposition(w, e),
{
    if transpositions(w).contains(e) {
        let j = choose|j: int| 0 <= j < transpositions(w).len() && transpositions(w)[j] == e;
        assert(e == transposition(w, j));
    }
    if is_transposition(w, e) {
        let i = choose|i: int| 0 <= i < w.len() - 1 && e == #[trigger] transposition(w, i);
        assert(transpositions(w)[i] == e);
    }
}

/// The list of replacements at one position holds the replacements there and
/// nothing else.
pub proof fn lemma_replacements_at_contains(w: Seq<char>, i: int, alphabet: Seq<char>, e: Seq<char>)
    ensures
        replacements_at(w, i, alphabet).contains(e) <==> is_replacement_at(w, i, e, alphabet),
    decreases alphabet.len(),
{
    if alphabet.len() > 0 {
        let init = alphabet.drop_last();
        let last = alphabet.last();
        let before = replacements_at(w, i, init);
        lemma_replacements_at_contains(w, i, init, e);
        assert(alphabet =~= init.push(last));
        if replacements_at(w, i, alphabet).contains(e) {
            if before.contains(e) {
                let c = choose|c: char|
                    init.contains(c) && c != w[i] && e == #[trigger] replacement(w, i, c);
                let k = choose|k: int| 0 <= k < init.len() && init[k] == c;
                assert(alphabet[k] == c);
            } else {
                let j = choose|j: int|
                    0 <= j < replacements_at(w, i, alphabet).len() && replacements_at(
                        w,
                        i,
                        alphabet,
                    )[j] == e;
                assert(last != w[i]);
                assert(j == before.len());
                assert(alphabet[alphabet.len() - 1] == last);
                assert(e == replacement(w, i, last));
            }
        }
        if is_replacement_at(w, i, e, alphabet) {
            let c = choose|c: char|
                alphabet.contains(c) && c != w[i] && e == #[trigger] replacement(w, i, c);
            let k = choose|k: int| 0 <= k < alphabet.len() && alphabet[k] == c;
            if k < init.len() {
                assert(init[k] == c);
                assert(is_replacement_at(w, i, e, init));
                let j = choose|j: int| 0 <= j < before.len() && before[j] == e;
                assert(replacements_at(w, i, alphabet)[j] == e);
            } else {
                assert(c == last);
                assert(replacements_at(w, i, alphabet)[before.len() as int] == e);
            }
        }
    } else {
        if is_replacement_at(w, i, e, alphabet) {
            let c = choose|c: char|
                alphabet.contains(c) && c != w[i] && e == #[trigger] replacement(w, i, c);
            assert(false);
        }
    }
}

/// The list of replacements at the first `n` positions holds the replacements
/// there and nothing else.
pub proof fn lemma_replacements_upto_contains(
    w: Seq<char>,
    alphabet: Seq<char>,
    n: nat,
    e: Seq<char>,
)
    ensures
        replacements_upto(w, alphabet, n).contains(e) <==> exists|i: int|
            0 <= i < n && #[trigger] is_replacement_at(w, i, e, alphabet),
    decreases n,
{
    if n > 0 {
        let m = (n - 1) as nat;
        lemma_replacements_upto_contains(w, alphabet, m, e);
        lemma_replacements_at_contains(w, n - 1, alphabet, e);
        lemma_concat_contains(
            replacements_upto(w, alphabet, m),
            replacements_at(w, n - 1, alphabet),
            e,
        );
        if replacements_upto(w, alphabet, n).contains(e) {
            if replacements_upto(w, alphabet, m).contains(e) {
                let i = choose|i: int| 0 <= i < m && #[trigger] is_replacement_at(w, i, e, alphabet);
                assert(0 <= i < n && is_replacement_at(w, i, e, alphabet));
            } else {
                assert(is_replacement_at(w, n - 1, e, alphabet));
            }
        }
    }
}

/// The list of insertions at one position holds the insertions there and nothing
/// else.
pub proof fn lemma_insertions_at_contains(w: Seq<char>, i: int, alphabet: Seq<char>, e: Seq<char>)
    ensures
        insertions_at(w, i, alphabet).contains(e) <==> is_insertion_at(w, i, e, alphabet),
{
    let row = insertions_at(w, i, alphabet);
    if row.contains(e) {
        let k = choose|k: int| 0 <= k < row.len() && row[k] == e;
        assert(alphabet.contains(alphabet[k]));
        assert(e == insertion(w, i, alphabet[k]));
    }
    if is_insertion_at(w, i, e, alphabet) {
        let c = choose|c: char| alphabet.contains(c) && e == #[trigger] insertion(w, i, c);
        let k = choose|k: int| 0 <= k < alphabet.len() && alphabet[k] == c;
        assert(row[k] == e);
    }
}

/// The list of insertions at the first `n` positions holds the insertions there
/// and nothing else.
pub proof fn lemma_insertions_upto_contains(
    w: Seq<char>,
    alphabet: Seq<char>,
    n: nat,
    e: Seq<char>,
)
    ensures
        insertions_upto(w, alphabet, n).contains(e) <==> exists|i: int|
            0 <= i < n && #[trigger] is_insertion_at(w, i, e, alphabet),
    decreases n,
{
    if n > 0 {
        let m = (n - 1) as nat;
        lemma_insertions_upto_contains(w, alphabet, m, e);
        lemma_insertions_at_contains(w, n - 1, alphabet, e);
        lemma_concat_contains(
            insertions_upto(w, alphabet, m),
            insertions_at(w, n - 1, alphabet),
            e,
        );
        if insertions_upto(w, alphabet, n).contains(e) {
            if insertions_upto(w, alphabet, m).contains(e) {
                let i = choose|i: int| 0 <= i < m && #[trigger] is_insertion_at(w, i, e, alphabet);
                assert(0 <= i < n && is_insertion_at(w, i, e, alphabet));
            } else {
                assert(is_insertion_at(w, n - 1, e, alphabet));
            }
        }
    }
}

/// The list of candidates holds exactly the words one edit away from `w`.
pub proof fn lemma_candidates_are_edits(w: Seq<char>, alphabet: Seq<char>, e: Seq<char>)
    ensures
        candidates(w, alphabet).contains(e) <==> one_edit(w, e, alphabet),
        candidates(w, alphabet).contains(e) <==> edits1(w, alphabet).contains(e),
{
    let d = deletions(w);
    let t = transpositions(w);
    let r = replacements(w, alphabet);
    let i = insertions(w, alphabet);
    lemma_deletions_contains(w, e);
    lemma_transpositions_contains(w, e);
    lemma_replacements_upto_contains(w, alphabet, w.len(), e);
    lemma_insertions_upto_contains(w, alphabet, w.len() + 1, e);
    lemma_concat_contains(d, t, e);
    lemma_concat_contains(d + t, r, e);
    lemma_concat_contains(d + t + r, i, e);
    if is_insertion(w, e, alphabet) {
        let p = choose|p: int| 0 <= p <= w.len() && #[trigger] is_insertion_at(w, p, e, alphabet);
        assert(0 <= p < w.len() + 1 && is_insertion_at(w, p, e, alphabet));
    }
}

/// The list of second candidates built from the first `n` candidates holds the
/// words one edit away from one of these and nothing else.
pub proof fn lemma_candidates2_upto_contains(
    w: Seq<char>,
    alphabet: Seq<char>,
    n: nat,
    e: Seq<char>,
)
    requires
        n <= candidates(w, alphabet).len(),
    ensures
        candidates2_upto(w, alphabet, n).contains(e) <==> exists|j: int|
            0 <= j < n && one_edit(#[trigger] candidates(w, alphabet)[j], e, alphabet),
    decreases n,
{
    if n > 0 {
        let m = (n - 1) as nat;
        let mid = candidates(w, alphabet)[n - 1];
        lemma_candidates2_upto_contains(w, alphabet, m, e);
        lemma_candidates_are_edits(mid, alphabet, e);
        lemma_concat_contains(candidates2_upto(w, alphabet, m), candidates(mid, alphabet), e);
        if candidates2_upto(w, alphabet, n).contains(e) {
            if candidates2_upto(w, alphabet, m).contains(e) {
                let j = choose|j: int|
                    0 <= j < m && one_edit(#[trigger] candidates(w, alphabet)[j], e, alphabet);
                assert(0 <= j < n && one_edit(candidates(w, alphabet)[j], e, alphabet));
            } else {
                assert(one_edit(candidates(w, alphabet)[n - 1], e, alphabet));
            }
        }
    }
}

/// The list of second candidates holds exactly the words two edits away from
/// `w`.
pub proof fn lemma_candidates2_are_edits(w: Seq<char>, alphabet: Seq<char>, e: Seq<char>)
    ensures
        candidates2(w, alphabet).contains(e) <==> two_edits(w, e, alphabet),
        candidates2(w, alphabet).contains(e) <==> edits2(w, alphabet).contains(e),
{
    let first = candidates(w, alphabet);
    lemma_candidates2_upto_contains(w, alphabet, first.len(), e);
    if candidates2(w, alphabet).contains(e) {
        let j = choose|j: int| 0 <= j < first.len() && one_edit(#[trigger] first[j], e, alphabet);
        lemma_candidates_are_edits(w, alphabet, first[j]);
        assert(first.contains(first[j]));
        assert(one_edit(w, first[j], alphabet) && one_edit(first[j], e, alphabet));
    }
    if two_edits(w, e, alphabet) {
        let m = choose|m: Seq<char>| one_edit(w, m, alphabet) && #[trigger] one_edit(m, e, alphabet);
        lemma_candidates_are_edits(w, alphabet, m);
        let j = choose|j: int| 0 <= j < first.len() && first[j] == m;
        assert(0 <= j < first.len() && one_edit(first[j], e, alphabet));
    }
}

/// At a position that holds a letter of an alphabet without repetitions there
/// is one replacement for each of the other letters; elsewhere, one for each
/// letter.
pub proof fn lemma_replacements_at_len(w: Seq<char>, i: int, alphabet: Seq<char>)
    requires
        alphabet.no_duplicates(),
    ensures
        replacements_at(w, i, alphabet).len() == if alphabet.contains(w[i]) {
            alphabet.len() - 1
        } else {
            alphabet.len() as int
        },
    decreases alphabet.len(),
{
    if alphabet.len() > 0 {
        let init = alphabet.drop_last();
        let last = alphabet.last();
        lemma_replacements_at_len(w, i, init);
        if init.contains(w[i]) {
            let k = choose|k: int| 0 <= k < init.len() && init[k] == w[i];
            assert(alphabet[k] == w[i]);
            assert(alphabet[alphabet.len() - 1] == last);
        }
        if alphabet.contains(w[i]) && last != w[i] {
            let k = choose|k: int| 0 <= k < alphabet.len() && alphabet[k] == w[i];
            assert(init[k] == w[i]);
        }
        if last == w[i] {
            assert(alphabet[alphabet.len() - 1] == w[i]);
        }
    }
}

/// The number of replacements at the first `n` positions of a word over an
/// alphabet without repetitions.
pub proof fn lemma_replacements_upto_len(w: Seq<char>, alphabet: Seq<char>, n: nat)
    requires
        n <= w.len(),
        alphabet.no_duplicates(),
        spelt_with(w, alphabet),
    ensures
        replacements_upto(w, alphabet, n).len() == n * (alphabet.len() - 1),
    decreases n,
{
    let k = alphabet.len() as int;
    if n > 0 {
        let m = (n - 1) as nat;
        lemma_replacements_upto_len(w, alphabet, m);
        lemma_replacements_at_len(w, n - 1, alphabet);
        assert(m * (k - 1) + (k - 1) == n * (k - 1)) by (nonlinear_arith)
            requires
                m == n - 1,
        ;
    } else {
        assert(n * (k - 1) == 0) by (nonlinear_arith)
            requires
                n == 0,
        ;
    }
}

/// There is at most one replacement at a position for each letter.
pub proof fn lemma_replacements_at_bound(w: Seq<char>, i: int, alphabet: Seq<char>)
    ensures
        replacements_at(w, i, alphabet).len() <= alphabet.len(),
    decreases alphabet.len(),
{
    if alphabet.len() > 0 {
        lemma_replacements_at_bound(w, i, alphabet.drop_last());
    }
}

/// There are at most `n` times the size of the alphabet replacements at the
/// first `n` positions.
pub proof fn lemma_replacements_upto_bound(w: Seq<char>, alphabet: Seq<char>, n: nat)
    ensures
        replacements_upto(w, alphabet, n).len() <= n * alphabet.len(),
    decreases n,
{
    let k = alphabet.len() as int;
    if n > 0 {
        let m = (n - 1) as nat;
        lemma_replacements_upto_bound(w, alphabet, m);
        lemma_replacements_at_bound(w, n - 1, alphabet);
        assert(m * k + k == n * k) by (nonlinear_arith)
            requires
                m == n - 1,
        ;
    } else {
        assert(n * k == 0) by (nonlinear_arith)
            requires
                n == 0,
        ;
    }
}

/// The number of insertions at the first `n` positions.
pub proof fn lemma_insertions_upto_len(w: Seq<char>, alphabet: Seq<char>, n: nat)
    ensures
        insertions_upto(w, alphabet, n).len() == n * alphabet.len(),
    decreases n,
{
    let k = alphabet.len() as int;
    if n > 0 {
        let m = (n - 1) as nat;
        lemma_insertions_upto_len(w, alphabet, m);
        assert(m * k + k == n * k) by (nonlinear_arith)
            requires
                m == n - 1,
        ;
    } else {
        assert(n * k == 0) by (nonlinear_arith)
            requires
                n == 0,
        ;
    }
}

/// The number of candidates, repetitions counted, grows with the product of the
/// length of the word and the size of the alphabet and no faster.
pub proof fn lemma_candidates_bound(w: Seq<char>, alphabet: Seq<char>)
    ensures
        candidates(w, alphabet).len() <= 2 * w.len() + (2 * w.len() + 1) * alphabet.len(),
{
    let n = w.len() as int;
    let k = alphabet.len() as int;
    lemma_replacements_upto_bound(w, alphabet, w.len());
    lemma_insertions_upto_len(w, alphabet, w.len() + 1);
    assert(n * k + (n + 1) * k == (2 * n + 1) * k) by (nonlinear_arith);
}

/// The number of candidates, repetitions counted. A word of `n >= 1` letters
/// over an alphabet of `k` different letters has `n` deletions, `n - 1`
/// transpositions, `n * (k - 1)` replacements and `(n + 1) * k` insertions; with
/// 26 letters that is `26 * (n + 1) + 25 * n + (n - 1)`, and the `n` deletions.
pub proof fn lemma_candidates_len(w: Seq<char>, alphabet: Seq<char>)
    requires
        w.len() >= 1,
        alphabet.no_duplicates(),
        spelt_with(w, alphabet),
    ensures
        deletions(w).len() == w.len(),
        transpositions(w).len() == w.len() - 1,
        replacements(w, alphabet).len() == w.len() * (alphabet.len() - 1),
        insertions(w, alphabet).len() == (w.len() + 1) * alphabet.len(),
        candidates(w, alphabet).len() == w.len() + (w.len() - 1) + w.len() * (alphabet.len() - 1)
            + (w.len() + 1) * alphabet.len(),
        alphabet.len() == 26 ==> candidates(w, alphabet).len() == 26 * (w.len() + 1) + 25
            * w.len() + (w.len() - 1) + w.len(),
{
    lemma_replacements_upto_len(w, alphabet, w.len());
    lemma_insertions_upto_len(w, alphabet, w.len() + 1);
    let n = w.len() as int;
    let k = alphabet.len() as int;
    assert(k == 26 ==> n * (k - 1) == 25 * n && (n + 1) * k == 26 * (n + 1)) by (nonlinear_arith);
}

/// A copy of `w`.
fn copy_of(w: &Vec<char>) -> (r: Vec<char>)
    ensures
        r@ == w@,
{
    w.clone()
}

/// Appends the deletions of `w` to `out`.
fn push_deletions(out: &mut Vec<Vec<char>>, w: &Vec<char>)
    ensures
        views(final(out)@) == views(old(out)@) + deletions(w@),
{
    let mut i: usize = 0;
    while i < w.len()
        invariant
            i <= w.len(),
            views(out@) == views(old(out)@) + deletions(w@).take(i as int),
        decreases w.len() - i,
    {
        let mut e = copy_of(w);
        e.remove(i);
        let ghost before = out@;
        out.push(e);
        i += 1;
        assert(views(out@) =~= views(before).push(e@));
    }
}

/// Appends the transpositions of `w` to `out`.
fn push_transpositions(out: &mut Vec<Vec<char>>, w: &Vec<char>)
    ensures
        views(final(out)@) == views(old(out)@) + transpositions(w@),
{
    let mut i: usize = 0;
    while i + 1 < w.len()
        invariant
            i <= w.len(),
            i < w.len() || w.len() == 0,
            views(out@) == views(old(out)@) + transpositions(w@).take(i as int),
        decreases w.len() - i,
    {
        let mut e = copy_of(w);
        e.set(i, w[i + 1]);
        e.set(i + 1, w[i]);
        let ghost before = out@;
        out.push(e);
        i += 1;
        assert(views(out@) =~= views(before).push(e@));
    }
}

/// Appends the replacements of `w` at position `i` to `out`.
fn push_replacements_at(out: &mut Vec<Vec<char>>, w: &Vec<char>, i: usize, alphabet: &Vec<char>)
    requires
        i < w.len(),
    ensures
        views(final(out)@) == views(old(out)@) + replacements_at(w@, i as int, alphabet@),
{
    let mut k: usize = 0;
    while k < alphabet.len()
        invariant
            i < w.len(),
            k <= alphabet.len(),
            views(out@) == views(old(out)@) + replacements_at(
                w@,
                i as int,
                alphabet@.take(k as int),
            ),
        decreases alphabet.len() - k,
    {
        let c = alphabet[k];
        assert(alphabet@.take(k + 1).drop_last() =~= alphabet@.take(k as int));
        if c != w[i] {
            let mut e = copy_of(w);
            e.set(i, c);
            let ghost before = out@;
            out.push(e);
            assert(views(out@) =~= views(before).push(e@));
        }
        k += 1;
    }
    assert(alphabet@.take(k as int) =~= alphabet@);
}

/// Appends the insertions into `w` before position `i` to `out`.
fn push_insertions_at(out: &mut Vec<Vec<char>>, w: &Vec<char>, i: usize, alphabet: &Vec<char>)
    requires
        i <= w.len(),
    ensures
        views(final(out)@) == views(old(out)@) + insertions_at(w@, i as int, alphabet@),
{
    let mut k: usize = 0;
    while k < alphabet.len()
        invariant
            i <= w.len(),
            k <= alphabet.len(),
            views(out@) == views(old(out)@) + insertions_at(w@, i as int, alphabet@).take(
                k as int,
            ),
        decreases alphabet.len() - k,
    {
        let mut e = copy_of(w);
        e.insert(i, alphabet[k]);
        let ghost before = out@;
        out.push(e);
        k += 1;
        assert(views(out@) =~= views(before).push(e@));
    }
}

/// Every result of one edit of `w`, with repetitions: the deletions, then the
/// transpositions, the replacements and the insertions.
pub fn candidates_of(w: &Vec<char>, alphabet: &Vec<char>) -> (r: Vec<Vec<char>>)
    ensures
        views(r@) == candidates(w@, alphabet@),
{
    let mut out: Vec<Vec<char>> = Vec::new();
    push_deletions(&mut out, w);
    push_transpositions(&mut out, w);
    let ghost head = views(out@);
    let mut i: usize = 0;
    while i < w.len()
        invariant
            i <= w.len(),
            views(out@) == head + replacements_upto(w@, alphabet@, i as nat),
        decreases w.len() - i,
    {
        push_replacements_at(&mut out, w, i, alphabet);
        i += 1;
    }
    let ghost body = views(out@);
    i = 0;
    while i < w.len()
        invariant
            i <= w.len(),
            views(out@) == body + insertions_upto(w@, alphabet@, i as nat),
        decreases w.len() - i,
    {
        push_insertions_at(&mut out, w, i, alphabet);
        i += 1;
    }
    push_insertions_at(&mut out, w, i, alphabet);
    out
}

} // verus!
