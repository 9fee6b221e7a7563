use baka::lexicon::{Lexicon, WordEntry};
use baka::retry::{produce, ProduceError, RetrySession, StepOutcome};

fn entry(word: &str, syllables: u32) -> WordEntry {
    WordEntry { word: String::from(word), syllables }
}

fn cats() -> Lexicon {
    Lexicon::from_entries(&vec![entry("cat", 1), entry("sat", 1), entry("mat", 1)])
}

fn no_match(n: usize) -> Vec<String> {
    (0..n).map(|i| format!("nothing to see at {}", i)).collect()
}

#[test]
fn produce_stops_at_the_first_match() {
    let lex = cats();
    for n in 0..4usize {
        let mut responses = no_match(n);
        responses.push(String::from("Baka: cat sat mat."));
        responses.push(String::from("Baka: cat cat cat."));
        let (cands, used) = produce(&lex, 3, &responses, 10).unwrap();
        assert_eq!(used, n + 1);
        assert_eq!(cands, vec![String::from("cat sat mat")]);
    }
}

#[test]
fn produce_exhausts_a_bounded_budget() {
    let lex = cats();
    let responses = no_match(8);
    assert_eq!(produce(&lex, 3, &responses, 5), Err(ProduceError::RetriesExhausted));
    assert_eq!(produce(&lex, 3, &responses, 8), Err(ProduceError::RetriesExhausted));
    assert_eq!(produce(&lex, 3, &no_match(2), 5), Err(ProduceError::RetriesExhausted));
}

#[test]
fn produce_with_no_budget_exhausts_at_once() {
    let lex = cats();
    let responses = vec![String::from("Baka: cat.")];
    assert_eq!(produce(&lex, 1, &responses, 0), Err(ProduceError::RetriesExhausted));
}

#[test]
fn a_match_on_the_last_allowed_attempt_still_wins() {
    let lex = cats();
    let mut responses = no_match(4);
    responses.push(String::from("Baka: cat."));
    let (cands, used) = produce(&lex, 1, &responses, 5).unwrap();
    assert_eq!(used, 5);
    assert_eq!(cands, vec![String::from("cat")]);
}

#[test]
fn session_steps_through_the_budget() {
    let lex = cats();
    let mut session = RetrySession::new(3, 2);
    match session.step(&lex, "no candidates here") {
        StepOutcome::Retry => {}
        _ => panic!("first failed attempt should retry"),
    }
    match session.step(&lex, "still nothing") {
        StepOutcome::Exhausted => {}
        _ => panic!("the budget is spent after two failures"),
    }
}

#[test]
fn session_accepts_without_spending_the_budget() {
    let lex = cats();
    let mut session = RetrySession::new(3, 1);
    match session.step(&lex, "Baka: cat sat mat.") {
        StepOutcome::Accepted(cands) => {
            assert_eq!(cands, vec![String::from("cat sat mat")]);
        }
        _ => panic!("a matching response must be accepted"),
    }
}
