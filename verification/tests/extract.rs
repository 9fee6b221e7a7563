use baka::extract::{extract, format_phrase};
use baka::lexicon::{Lexicon, WordEntry};

fn entry(word: &str, syllables: u32) -> WordEntry {
    WordEntry { word: String::from(word), syllables }
}

fn cats() -> Lexicon {
    Lexicon::from_entries(&vec![entry("cat", 1), entry("sat", 1), entry("mat", 1)])
}

#[test]
fn extractor_accepts_exact_sums_only() {
    let lex = cats();
    // Sum is 3, not 5: nothing is accepted.
    assert_eq!(extract(&lex, "Baka: cat sat mat.", 5), Vec::<String>::new());
    // With target 3 the candidate is accepted.
    assert_eq!(extract(&lex, "Baka: cat sat mat.", 3), vec![String::from("cat sat mat")]);
}

#[test]
fn unknown_words_reject_the_whole_candidate() {
    let lex = cats();
    for target in 0..=6u32 {
        assert_eq!(extract(&lex, "Baka: cat zzz mat.", target), Vec::<String>::new());
    }
}

#[test]
fn matching_is_case_insensitive_but_keeps_casing() {
    let lex = cats();
    assert_eq!(extract(&lex, "Baka: Cat Sat Mat.", 3), vec![String::from("Cat Sat Mat")]);
}

#[test]
fn the_label_is_case_sensitive() {
    let lex = cats();
    assert_eq!(extract(&lex, "baka: cat sat mat.", 3), Vec::<String>::new());
    assert_eq!(extract(&lex, "BAKA: cat sat mat.", 3), Vec::<String>::new());
}

#[test]
fn all_matches_are_collected_in_order() {
    let lex = cats();
    let text = "noise Baka: cat sat. more Baka: mat cat sat. Baka: cat zzz. end";
    assert_eq!(
        extract(&lex, text, 2),
        vec![String::from("cat sat")]
    );
    assert_eq!(
        extract(&lex, text, 3),
        vec![String::from("mat cat sat")]
    );
}

#[test]
fn a_phrase_runs_to_the_first_period() {
    let lex = cats();
    assert_eq!(
        extract(&lex, "Baka: cat sat. mat.", 2),
        vec![String::from("cat sat")]
    );
}

#[test]
fn a_label_without_a_period_matches_nothing() {
    let lex = cats();
    assert_eq!(extract(&lex, "Baka: cat sat mat", 3), Vec::<String>::new());
}

#[test]
fn an_empty_phrase_matches_nothing() {
    let lex = cats();
    assert_eq!(extract(&lex, "Baka: .", 0), Vec::<String>::new());
    // But a later complete match is still found.
    assert_eq!(
        extract(&lex, "Baka: . Baka: cat.", 1),
        vec![String::from("cat")]
    );
}

#[test]
fn surrounding_whitespace_is_trimmed_from_tokens() {
    let lex = cats();
    // The tab is trimmed from the token's end after splitting on
    // spaces, and the display form carries the trimmed tokens.
    assert_eq!(
        extract(&lex, "Baka: cat \tsat mat.", 3),
        vec![String::from("cat sat mat")]
    );
    // An interior tab is not a split point: "cat\tsat" stays unknown.
    assert_eq!(extract(&lex, "Baka: cat\tsat mat.", 3), Vec::<String>::new());
    // A trailing space yields an empty token, which is unknown.
    assert_eq!(extract(&lex, "Baka: cat .", 1), Vec::<String>::new());
}

#[test]
fn empty_text_matches_nothing() {
    let lex = cats();
    assert_eq!(extract(&lex, "", 3), Vec::<String>::new());
    assert_eq!(extract(&lex, "Baka:", 0), Vec::<String>::new());
}

#[test]
fn formatting_wraps_the_phrase() {
    let words = vec![String::from("cat"), String::from("sat"), String::from("mat")];
    assert_eq!(format_phrase(&words), String::from("Baka: cat sat mat."));
    assert_eq!(format_phrase(&Vec::new()), String::from("Baka: ."));
}

#[test]
fn formatted_phrases_are_extracted_back() {
    let lex = cats();
    let words = vec![String::from("cat"), String::from("mat")];
    let display = format_phrase(&words);
    assert_eq!(extract(&lex, &display, 2), vec![String::from("cat mat")]);
}
