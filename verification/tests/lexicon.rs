use baka::lexicon::{Lexicon, LoadError, LexiconError, WordEntry};

fn entry(word: &str, syllables: u32) -> WordEntry {
    WordEntry { word: String::from(word), syllables }
}

#[test]
fn lookup_finds_loaded_words() {
    let lex = Lexicon::from_entries(&vec![entry("cat", 1), entry("tiger", 2)]);
    assert_eq!(lex.lookup_count("cat"), Some(1));
    assert_eq!(lex.lookup_count("tiger"), Some(2));
    assert_eq!(lex.lookup_count("dog"), None);
}

#[test]
fn lookup_is_case_insensitive() {
    let lex = Lexicon::from_entries(&vec![entry("cat", 1)]);
    assert_eq!(lex.lookup_count("CAT"), Some(1));
    assert_eq!(lex.lookup_count("Cat"), Some(1));
    assert_eq!(lex.lookup_count("cAt"), Some(1));
}

#[test]
fn rows_over_the_cap_are_excluded_everywhere() {
    let lex = Lexicon::from_entries(&vec![entry("overlong", 6), entry("cap", 5)]);
    // The row above the cap appears in neither index.
    assert_eq!(lex.lookup_count("overlong"), None);
    assert!(lex.words_for_count(6).is_err());
    // A row exactly at the cap is kept in both.
    assert_eq!(lex.lookup_count("cap"), Some(5));
    assert_eq!(lex.words_for_count(5).unwrap(), vec![String::from("cap")]);
}

#[test]
fn duplicate_words_keep_the_last_row() {
    let lex = Lexicon::from_entries(&vec![entry("cat", 1), entry("Cat", 2)]);
    assert_eq!(lex.lookup_count("cat"), Some(2));
    // The earlier duplicate left both indices: bucket 1 is empty.
    assert!(lex.words_for_count(1).is_err());
    assert_eq!(lex.words_for_count(2).unwrap(), vec![String::from("Cat")]);
}

#[test]
fn words_for_count_reports_empty_buckets() {
    let lex = Lexicon::from_entries(&vec![entry("cat", 1)]);
    assert_eq!(lex.words_for_count(3), Err(LexiconError::NoWordsForCount));
    assert_eq!(lex.words_for_count(1).unwrap(), vec![String::from("cat")]);
}

#[test]
fn words_for_count_keeps_load_order() {
    let lex = Lexicon::from_entries(&vec![
        entry("cat", 1),
        entry("tiger", 2),
        entry("sat", 1),
        entry("mat", 1),
    ]);
    assert_eq!(
        lex.words_for_count(1).unwrap(),
        vec![String::from("cat"), String::from("sat"), String::from("mat")]
    );
}

#[test]
fn load_parses_a_tabular_source() {
    let src = "word,syllables\ncat,1\ntiger,2\n";
    let lex = baka::lexicon::load(src).unwrap();
    assert_eq!(lex.lookup_count("cat"), Some(1));
    assert_eq!(lex.lookup_count("tiger"), Some(2));
}

#[test]
fn load_accepts_carriage_returns() {
    let src = "word,syllables\r\ncat,1\r\ntiger,2\r\n";
    let lex = baka::lexicon::load(src).unwrap();
    assert_eq!(lex.lookup_count("cat"), Some(1));
    assert_eq!(lex.lookup_count("tiger"), Some(2));
}

#[test]
fn load_rejects_an_empty_source() {
    assert!(matches!(baka::lexicon::load(""), Err(LoadError::EmptySource)));
    assert!(matches!(
        baka::lexicon::load("word,syllables\n"),
        Err(LoadError::EmptySource)
    ));
}

#[test]
fn load_rejects_malformed_rows() {
    assert!(matches!(
        baka::lexicon::load("word,syllables\ncat\n"),
        Err(LoadError::MalformedRow)
    ));
    assert!(matches!(
        baka::lexicon::load("word,syllables\ncat,one\n"),
        Err(LoadError::MalformedRow)
    ));
    assert!(matches!(
        baka::lexicon::load("word,syllables\ncat,1,extra\n"),
        Err(LoadError::MalformedRow)
    ));
    assert!(matches!(
        baka::lexicon::load("word,syllables\ncat,99999999999\n"),
        Err(LoadError::MalformedRow)
    ));
}

#[test]
fn load_drops_rows_over_the_cap() {
    let src = "word,syllables\ncat,1\noverlong,6\ncap,5\n";
    let lex = baka::lexicon::load(src).unwrap();
    assert_eq!(lex.lookup_count("overlong"), None);
    assert_eq!(lex.lookup_count("cap"), Some(5));
    assert_eq!(lex.lookup_count("cat"), Some(1));
}
