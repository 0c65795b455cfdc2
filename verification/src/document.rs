//! Putting a suggestion into a document: every occurrence of a token gives way
//! to its correction.

use vstd::prelude::*;
use crate::text::{chars_of, string_of};

verus! {

/// `text` with each occurrence of `from` replaced by `to`. Occurrences are taken
/// from left to right, and none begins inside the one before it. With an empty
/// `from`, `to` goes in before every character and after the last.
pub open spec fn replaced(text: Seq<char>, from: Seq<char>, to: Seq<char>) -> Seq<char>
    decreases text.len(),
{
    if from.len() == 0 {
        if text.len() == 0 {
            to
        } else {
            to + seq![text[0]] + replaced(text.skip(1), from, to)
        }
    } else if text.len() < from.len() {
        text
    } else if text.take(from.len() as int) == from {
        to + replaced(text.skip(from.len() as int), from, to)
    } else {
        seq![text[0]] + replaced(text.skip(1), from, to)
    }
}

/// Appends the characters of `more` to `out`.
fn append_all(out: &mut Vec<char>, more: &Vec<char>)
    ensures
        final(out)@ == old(out)@ + more@,
{
    let mut k: usize = 0;
    while k < more.len()
        invariant
            k <= more.len(),
            out@ == old(out)@ + more@.take(k as int),
        decreases more.len() - k,
    {
        out.push(more[k]);
        k += 1;
    }
}

/// Tells whether `from` stands in `text` at position `i`.
fn stands_at(text: &Vec<char>, i: usize, from: &Vec<char>) -> (r: bool)
    requires
        i <= text.len(),
    ensures
        r == (i + from.len() <= text.len() && text@.subrange(i as int, i + from.len()) == from@),
{
    if from.len() > text.len() - i {
        return false;
    }
    let mut k: usize = 0;
    while k < from.len()
        invariant
            k <= from.len(),
            i + from.len() <= text.len(),
            forall|j: int| 0 <= j < k ==> text@[i + j] == from@[j],
        decreases from.len() - k,
    {
        if text[i + k] != from[k] {
            return false;
        }
        k += 1;
    }
    assert(text@.subrange(i as int, i + from.len()) =~= from@);
    true
}

/// `text` with each occurrence of `from` replaced by `to`, from left to right.
pub fn replace_all(text: &str, from: &str, to: &str) -> (r: String)
    ensures
        r@ == replaced(text@, from@, to@),
{
    let t = chars_of(text);
    let f = chars_of(from);
    let x = chars_of(to);
    let mut out: Vec<char> = Vec::new();
    let mut i: usize = 0;
    assert(t@.skip(0) =~= t@);
    while i < t.len()
        invariant
            i <= t.len(),
            out@ + replaced(t@.skip(i as int), f@, x@) == replaced(t@, f@, x@),
        decreases t.len() - i,
    {
        let ghost rest = t@.skip(i as int);
        if f.len() == 0 {
            append_all(&mut out, &x);
            out.push(t[i]);
            assert(rest.skip(1) =~= t@.skip(i + 1));
            i += 1;
        } else if stands_at(&t, i, &f) {
            append_all(&mut out, &x);
            assert(rest.take(f.len() as int) =~= t@.subrange(i as int, i + f.len()));
            assert(rest.skip(f.len() as int) =~= t@.skip(i + f.len()));
            i += f.len();
        } else {
            out.push(t[i]);
            proof {
                assert(rest.skip(1) =~= t@.skip(i + 1));
                if rest.len() >= f@.len() {
                    assert(rest.take(f@.len() as int) =~= t@.subrange(i as int, i + f@.len()));
                }
            }
            i += 1;
        }
    }
    if f.len() == 0 {
        append_all(&mut out, &x);
    }
    string_of(&out)
}

} // verus!
