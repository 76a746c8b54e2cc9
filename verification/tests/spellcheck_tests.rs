use spellcheck::{
    best_guess, correct, deletes, edits1, first_word, inserts, known, known_edits2, replaces,
    splits, train, transposes, words, FrequencyModel, WordSet,
};

fn word_set(items: &[&str]) -> WordSet {
    let mut s = WordSet::new();
    for w in items {
        s.insert(w.to_string());
    }
    s
}

fn model(entries: &[(&str, usize)]) -> FrequencyModel {
    FrequencyModel {
        entries: entries.iter().map(|(w, c)| (w.to_string(), *c)).collect(),
    }
}

const ALPHABET: [&str; 26] = [
    "a", "b", "c", "d", "e", "f", "g", "h", "i", "j", "k", "l", "m", "n", "o", "p", "q", "r", "s",
    "t", "u", "v", "w", "x", "y", "z",
];

// ---- words ----

fn words_expect(s: &str, e: Vec<String>) {
    assert_eq!(words(s.to_string()), e);
}

#[test]
fn splits_string_into_words() {
    let e: Vec<String> = vec![
        "these".to_string(),
        "are".to_string(),
        "some".to_string(),
        "words".to_string(),
    ];
    words_expect("these are some words", e);
}

#[test]
fn treats_apostrophes_as_word_separators() {
    let e: Vec<String> = vec![
        "these".to_string(),
        "aren".to_string(),
        "t".to_string(),
        "the".to_string(),
        "same".to_string(),
        "words".to_string(),
    ];
    words_expect("these aren't the same words", e);
}

#[test]
fn ignores_special_characters() {
    let e: Vec<String> = vec!["lonely".to_string()];
    words_expect("$#%6(&^\t\nlonely\t\r$%^", e);
}

// ---- train ----

#[test]
fn counts_no_words() {
    assert_eq!(train(vec![]).len(), 0);
}

#[test]
fn counts_single_word() {
    let m = train(vec!["foo".to_string()]);
    assert_eq!(m.len(), 1);
    assert_eq!(m.count("foo"), 1);
}

#[test]
fn counts_multiple_words() {
    let m = train(vec!["foo".to_string(), "foo".to_string()]);
    assert_eq!(m.len(), 1);
    assert_eq!(m.count("foo"), 2);
}

#[test]
fn counts_different_words() {
    let m = train(vec!["foo".to_string(), "bar".to_string(), "foo".to_string()]);
    assert_eq!(m.len(), 2);
    assert_eq!(m.count("foo"), 2);
    assert_eq!(m.count("bar"), 1);
}

// ---- edits1 ----

#[test]
fn builds_set_of_edits() {
    let e = edits1("");
    assert_eq!(e.len(), 26);
    for l in ALPHABET.iter() {
        assert!(e.contains(l));
    }
    assert_eq!(edits1("a").len(), 78);
}

// ---- known_edits2 ----

#[test]
fn depends_on_nwords() {
    let first_edits = WordSet::new();
    let nwords = FrequencyModel { entries: vec![] };
    assert!(known_edits2(&first_edits, &nwords).is_none());
}

#[test]
fn computes_two_level_edits() {
    let first_edits = edits1("");
    let nwords = model(&[("a", 1000), ("xx", 500), ("mr", 300)]);
    let found = known_edits2(&first_edits, &nwords).unwrap();
    assert_eq!(found.len(), 3);
    assert!(found.contains("a"));
    assert!(found.contains("xx"));
    assert!(found.contains("mr"));
}

// ---- known ----

#[test]
fn returns_none_if_word_unknown() {
    let nwords = FrequencyModel { entries: vec![] };
    let words = word_set(&["these", "are", "some", "words"]);
    assert!(known(&words, &nwords).is_none());
}

#[test]
fn returns_known_valid_words() {
    let nwords = model(&[("words", 5)]);
    let words = word_set(&["these", "are", "some", "words"]);
    let found = known(&words, &nwords).unwrap();
    assert_eq!(found.len(), 1);
    assert!(found.contains("words"));
}

// ---- correct ----

#[test]
fn finds_best_improvement() {
    let nwords = model(&[("apple", 2), ("banana", 3), ("canada", 1), ("manna", 2), ("the", 42)]);
    assert_eq!(correct("asdf", &nwords), "-");
    assert_eq!(correct("teh", &nwords), "the");
    assert_eq!(correct("banana", &nwords), "banana");
    assert_eq!(correct("aoplr", &nwords), "apple");
}

// ---- best_guess ----

#[test]
fn returns_dash_for_no_matches() {
    let mt_cands = WordSet::new();
    let mt_nwords = FrequencyModel { entries: vec![] };
    assert_eq!(best_guess(&mt_cands, &mt_nwords), "-");

    let nwords = model(&[("apple", 2)]);
    assert_eq!(best_guess(&mt_cands, &nwords), "-");

    let cands = word_set(&["banana"]);
    assert_eq!(best_guess(&cands, &nwords), "-");
}

#[test]
fn returns_best_guess() {
    let nwords = model(&[("apple", 2), ("banana", 3), ("canada", 1), ("manna", 2)]);
    let cands = word_set(&["banana", "canada", "havana", "panama"]);
    assert_eq!(best_guess(&cands, &nwords), "banana");
}

// ---- splits ----

fn splits_expect(s: &str, e: Vec<(String, String)>) {
    assert_eq!(splits(s), e);
}

#[test]
fn splits_empty_string() {
    let e: Vec<(String, String)> = vec![("".to_string(), "".to_string())];
    splits_expect("", e);
}

#[test]
fn splits_single_character_string() {
    let e: Vec<(String, String)> = vec![
        ("".to_string(), "a".to_string()),
        ("a".to_string(), "".to_string()),
    ];
    splits_expect("a", e);
}

#[test]
fn splits_word() {
    let e: Vec<(String, String)> = vec![
        ("".to_string(), "the".to_string()),
        ("t".to_string(), "he".to_string()),
        ("th".to_string(), "e".to_string()),
        ("the".to_string(), "".to_string()),
    ];
    splits_expect("the", e);
}

// ---- deletes ----

#[test]
fn deletes_empty_string() {
    assert_eq!(deletes(&splits("")).len(), 0);
}

#[test]
fn deletes_single_character_string() {
    let d = deletes(&splits("a"));
    assert_eq!(d.len(), 1);
    assert!(d.contains(""));
}

#[test]
fn deletes_chars_from_word() {
    let d = deletes(&splits("the"));
    assert_eq!(d.len(), 3);
    assert!(d.contains("he"));
    assert!(d.contains("te"));
    assert!(d.contains("th"));
}

// ---- transposes ----

#[test]
fn transposes_empty_string() {
    assert_eq!(transposes(&splits("")).len(), 0);
}

#[test]
fn transposes_single_character_string() {
    assert_eq!(transposes(&splits("a")).len(), 0);
}

#[test]
fn transposes_words() {
    let t = transposes(&splits("the"));
    assert_eq!(t.len(), 2);
    assert!(t.contains("hte"));
    assert!(t.contains("teh"));
}

// ---- replaces ----

#[test]
fn replaces_empty_string() {
    assert_eq!(replaces(&splits("")).len(), 0);
}

#[test]
fn replaces_single_character_string() {
    let r = replaces(&splits("a"));
    assert_eq!(r.len(), 26);
    for l in ALPHABET.iter() {
        assert!(r.contains(l));
    }
}

#[test]
fn replaces_characters_in_word() {
    assert_eq!(replaces(&splits("hi")).len(), 51);
}

// ---- inserts ----

#[test]
fn inserts_empty_string() {
    let i = inserts(&splits(""));
    assert_eq!(i.len(), 26);
    for l in ALPHABET.iter() {
        assert!(i.contains(l));
    }
}

#[test]
fn inserts_chars_in_word() {
    assert_eq!(inserts(&splits("hi")).len(), 76);
}
