//! A frequency-based spelling corrector for a text editor.
//!
//! A [`speller::Speller`] is trained on a body of text and then proposes, for a
//! given word, the most frequent known word within two single-character edits.
//!
//! - [`text`]: letters, white space, lowercase, the order on words.
//! - [`tokens`]: the words of a training text and the tokens of a document.
//! - [`edits`]: the words one and two edits away from a word.
//! - [`lexicon`]: the model of a trained speller and what holds of it.
//! - [`speller`]: training, correcting, and the suggestions for a document.
//! - [`document`]: putting a suggestion into a document.

pub mod text;
pub mod tokens;
pub mod edits;
pub mod lexicon;
pub mod speller;
pub mod document;
