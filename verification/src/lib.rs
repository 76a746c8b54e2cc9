//! A statistical spelling corrector: a frequency model is trained from a
//! sequence of word tokens, and a misspelled word is corrected to the
//! most frequent known word reachable by one or two elementary edits
//! (deletion, adjacent transposition, replacement, or insertion).

pub mod alphabet;
pub mod strutil;
pub mod word_set;
pub mod model;
pub mod edits;
pub mod select;
pub mod corrector;
pub mod tokenize;

pub use alphabet::is_lowercase_letter;
pub use word_set::WordSet;
pub use model::{FrequencyModel, train};
pub use edits::{splits, deletes, transposes, replaces, inserts, edits1};
pub use select::{known, known_edits2};
pub use corrector::{best_guess, correct};
pub use tokenize::{words, first_word};
