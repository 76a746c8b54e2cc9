use spellcheck::{
    best_guess, correct, edits1, first_word, known, train, words, FrequencyModel, WordSet,
};

fn word_set(items: &[&str]) -> WordSet {
    let mut s = WordSet::new();
    for w in items {
        s.insert(w.to_string());
    }
    s
}

fn model(entries: &[(&str, usize)]) -> FrequencyModel {
    FrequencyModel {
        entries: entries.iter().map(|(w, c)| (w.to_string(), *c)).collect(),
    }
}

#[test]
fn edit_set_size_stays_under_the_raw_candidate_count() {
    // For a word of length 2: 2 deletions + 1 transposition
    // + 52 replacements + 78 insertions.
    let n = edits1("ab").len();
    assert!(n <= 2 + 1 + 52 + 78);
    assert!(n > 0);
}

#[test]
fn known_keeps_exactly_the_modelled_subset() {
    let m = model(&[("a", 1), ("b", 2)]);
    let found = known(&word_set(&["a", "c"]), &m).unwrap();
    assert_eq!(found.len(), 1);
    assert!(found.contains("a"));
    assert!(!found.contains("c"));
}

#[test]
fn known_of_empty_set_is_empty() {
    let m = model(&[("a", 1), ("b", 2)]);
    assert!(known(&WordSet::new(), &m).is_none());
}

#[test]
fn correct_leaves_known_words_unchanged() {
    let m = model(&[("apple", 2), ("banana", 3), ("the", 42)]);
    for w in ["apple", "banana", "the"] {
        assert_eq!(correct(w, &m), w);
    }
}

#[test]
fn correct_is_deterministic() {
    let m = model(&[("apple", 2), ("banana", 3), ("the", 42)]);
    for w in ["teh", "asdf", "banana", "aoplr"] {
        assert_eq!(correct(w, &m), correct(w, &m));
    }
}

#[test]
fn ties_break_to_the_lexicographically_smallest() {
    let m = model(&[("ba", 2), ("ab", 2)]);
    assert_eq!(best_guess(&word_set(&["ba", "ab"]), &m), "ab");
    // "aa" reaches both by one replacement; the tie breaks the same way.
    assert_eq!(correct("aa", &m), "ab");
}

#[test]
fn absent_words_count_zero() {
    let m = model(&[("a", 7)]);
    assert_eq!(m.count("a"), 7);
    assert_eq!(m.count("b"), 0);
    assert!(m.contains("a"));
    assert!(!m.contains("b"));
}

#[test]
fn word_sets_hold_each_word_once() {
    let mut s = WordSet::new();
    s.insert("dog".to_string());
    s.insert("dog".to_string());
    assert_eq!(s.len(), 1);
}

#[test]
fn first_word_takes_the_first_lowercase_run() {
    assert_eq!(first_word("hello, world!").unwrap(), "hello");
    assert_eq!(first_word("42 grams").unwrap(), "grams");
    assert_eq!(first_word("Hi").unwrap(), "i");
    assert!(first_word("123 !!").is_none());
}

#[test]
fn training_follows_tokenizing() {
    let tokens = words("The the THE apple".to_string());
    assert_eq!(tokens.len(), 4);
    let m = train(tokens);
    assert_eq!(m.count("the"), 3);
    assert_eq!(m.count("apple"), 1);
    assert_eq!(correct("teh", &m), "the");
}
