use baka::generate::generate;
use baka::lexicon::{Lexicon, LexiconError, WordEntry};

fn entry(word: &str, syllables: u32) -> WordEntry {
    WordEntry { word: String::from(word), syllables }
}

fn full_lexicon() -> Lexicon {
    Lexicon::from_entries(&vec![
        entry("sun", 1),
        entry("moon", 1),
        entry("river", 2),
        entry("garden", 2),
        entry("wanderer", 3),
        entry("ceremony", 4),
        entry("hippopotamus", 5),
    ])
}

fn syllable_sum(lex: &Lexicon, words: &[String]) -> u32 {
    words
        .iter()
        .map(|w| lex.lookup_count(w).expect("generated word must be in the lexicon"))
        .sum()
}

#[test]
fn generated_sums_hit_the_target() {
    let lex = full_lexicon();
    for target in 0..=25u32 {
        for _ in 0..5 {
            let words = generate(&lex, target).unwrap();
            assert_eq!(syllable_sum(&lex, &words), target);
        }
    }
}

#[test]
fn zero_target_yields_the_empty_phrase() {
    let lex = full_lexicon();
    assert_eq!(generate(&lex, 0).unwrap(), Vec::<String>::new());
}

#[test]
fn sparse_lexicons_still_hit_the_target() {
    // Only two-syllable words exist: a draw of one syllable would
    // strand an unreachable remainder, so only even targets work.
    let lex = Lexicon::from_entries(&vec![entry("river", 2), entry("garden", 2)]);
    for _ in 0..10 {
        let words = generate(&lex, 2).unwrap();
        assert_eq!(syllable_sum(&lex, &words), 2);
        let words = generate(&lex, 8).unwrap();
        assert_eq!(syllable_sum(&lex, &words), 8);
    }
    assert_eq!(generate(&lex, 1), Err(LexiconError::NoWordsForCount));
    assert_eq!(generate(&lex, 3), Err(LexiconError::NoWordsForCount));
    assert_eq!(generate(&lex, 7), Err(LexiconError::NoWordsForCount));
}

#[test]
fn generation_avoids_stranding_remainders() {
    // Counts 2 and 3 exist but 1 does not: from target 5 a greedy
    // first draw of 3 then 1 is impossible, yet 2 + 3 works.
    let lex = Lexicon::from_entries(&vec![entry("river", 2), entry("wanderer", 3)]);
    for _ in 0..20 {
        let words = generate(&lex, 5).unwrap();
        assert_eq!(syllable_sum(&lex, &words), 5);
    }
    // Target 1 is unreachable outright.
    assert_eq!(generate(&lex, 1), Err(LexiconError::NoWordsForCount));
}

#[test]
fn empty_lexicon_generates_nothing_positive() {
    let lex = Lexicon::from_entries(&vec![]);
    assert_eq!(generate(&lex, 0).unwrap(), Vec::<String>::new());
    assert_eq!(generate(&lex, 5), Err(LexiconError::NoWordsForCount));
}

#[test]
fn generated_phrases_validate_back() {
    let lex = full_lexicon();
    for _ in 0..10 {
        let words = generate(&lex, 5).unwrap();
        let display = baka::extract::format_phrase(&words);
        let found = baka::extract::extract(&lex, &display, 5);
        assert_eq!(found, vec![words.join(" ")]);
    }
}

#[test]
fn generated_words_keep_source_casing() {
    let lex = Lexicon::from_entries(&vec![entry("Tokyo", 2)]);
    let words = generate(&lex, 4).unwrap();
    assert_eq!(words, vec![String::from("Tokyo"), String::from("Tokyo")]);
}
