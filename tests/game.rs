use wordle::dictionary::{contains_word, load_word_list, select_secret, sorted_unique};
use wordle::error::EngineError;
use wordle::feedback::Verdict;
use wordle::game::{Outcome, Wordle, MAX_GUESSES};
use wordle::history::{Config, Game, State, Stats, UsageTally};
use wordle::word::Word;

use Verdict::{Absent, Correct, WrongPosition};

fn w(s: &str) -> Word {
    Word::parse(s).unwrap()
}

fn words(list: &[&str]) -> Vec<Word> {
    list.iter().map(|s| w(s)).collect()
}

fn game(secret: &str, hard: bool) -> Wordle {
    let acceptable = words(&["crane", "slate", "stale", "least", "steal", "trace", "fjord", "admit"]);
    let finals = words(&["slate", "stale", "least"]);
    Wordle::new(w(secret), hard, false, 0, false, finals, acceptable).unwrap()
}

#[test]
fn word_parsing_errors() {
    assert_eq!(Word::parse("abc"), Err(EngineError::InvalidWordLength));
    assert_eq!(Word::parse("abcdef"), Err(EngineError::InvalidWordLength));
    assert_eq!(Word::parse("ab1de"), Err(EngineError::InvalidLetter));
    assert_eq!(Word::parse("Crane"), Err(EngineError::InvalidLetter));
    assert_eq!(Word::parse_ignoring_case("CrAnE"), Ok(w("crane")));
    assert_eq!(w("crane").letters, [2, 17, 0, 13, 4]);
}

#[test]
fn word_text_round_trips() {
    assert_eq!(w("crane").text(), "crane");
    assert_eq!(w("crane").upper_text(), "CRANE");
}

#[test]
fn game_setup_errors() {
    let acceptable = words(&["crane", "slate"]);
    let r = Wordle::new(w("slate"), false, false, 0, false, words(&["slate", "trace"]), acceptable.clone());
    assert_eq!(r.err(), Some(EngineError::FinalSetNotSubsetOfAcceptableSet));
    let r = Wordle::new(w("crane"), false, false, 0, false, words(&["slate"]), acceptable);
    assert_eq!(r.err(), Some(EngineError::SecretNotInFinalSet));
}

#[test]
fn a_round_is_won() {
    let g = game("stale", false);
    let mut round = g.start();
    let t = g.play(&mut round, "crane").unwrap();
    assert_eq!(t.verdicts, [Absent, Absent, Correct, Absent, Correct]);
    assert_eq!(t.outcome, Outcome::Continue);
    let t = g.play(&mut round, "slate").unwrap();
    assert_eq!(t.verdicts, [Correct, WrongPosition, Correct, WrongPosition, Correct]);
    let t = g.play(&mut round, "stale").unwrap();
    assert_eq!(t.outcome, Outcome::Won);
    assert_eq!(round.guesses.len(), 3);
    assert_eq!(g.play(&mut round, "stale").err(), Some(EngineError::RoundOver));
}

#[test]
fn a_round_is_lost_after_six_guesses() {
    let g = game("least", false);
    let mut round = g.start();
    for i in 0..MAX_GUESSES {
        let t = g.play(&mut round, "fjord").unwrap();
        let expected = if i + 1 == MAX_GUESSES { Outcome::Lost } else { Outcome::Continue };
        assert_eq!(t.outcome, expected);
    }
    assert!(round.finished);
}

#[test]
fn refused_guesses_change_nothing() {
    let g = game("stale", false);
    let mut round = g.start();
    assert_eq!(g.play(&mut round, "cran").err(), Some(EngineError::InvalidWordLength));
    assert_eq!(g.play(&mut round, "zzzzz").err(), Some(EngineError::WordNotInAcceptableSet));
    assert_eq!(g.play(&mut round, "CRANE").err(), Some(EngineError::WordNotInAcceptableSet));
    assert!(round.guesses.is_empty());
}

#[test]
fn hard_mode_keeps_known_letters() {
    let g = game("stale", true);
    let mut round = g.start();
    g.play(&mut round, "slate").unwrap();
    // 's', 'a' and 'e' are right; 'l' and 't' must be reused.
    assert_eq!(g.play(&mut round, "crane").err(), Some(EngineError::HardModeViolation));
    assert_eq!(g.play(&mut round, "steal").err(), Some(EngineError::HardModeViolation));
    assert!(g.check_hard_mod(&w("stale"), &round.last, &round.knowledge.status));
    assert!(!g.check_hard_mod(&w("least"), &round.last, &round.knowledge.status));
    let t = g.play(&mut round, "stale").unwrap();
    assert_eq!(t.outcome, Outcome::Won);
}

#[test]
fn outside_hard_mode_any_acceptable_word_goes() {
    let g = game("stale", false);
    let mut round = g.start();
    g.play(&mut round, "slate").unwrap();
    assert!(g.play(&mut round, "crane").is_ok());
    assert_eq!(g.candidates(&round.knowledge), words(&["stale"]));
    assert!(Wordle::check_possible(&w("stale"), &round.knowledge));
    assert!(!Wordle::check_possible(&w("slate"), &round.knowledge));
}

#[test]
fn ordinals() {
    assert_eq!(Wordle::trans_to_onum(1), "1st");
    assert_eq!(Wordle::trans_to_onum(2), "2nd");
    assert_eq!(Wordle::trans_to_onum(3), "3rd");
    assert_eq!(Wordle::trans_to_onum(6), "6th");
    assert_eq!(Wordle::trans_to_onum(7), "Too Large");
}

#[test]
fn secret_selection_by_seed_and_day() {
    let finals = words(&["slate", "stale", "least", "crane", "trace"]);
    let a = select_secret(&finals, 19260817998244353, 0).unwrap();
    let b = select_secret(&finals, 19260817998244353, 0).unwrap();
    assert_eq!(a, b);
    assert!(finals.contains(&a));
    let mut seen: Vec<Word> = (0..5).map(|d| select_secret(&finals, 7, d).unwrap()).collect();
    seen.sort_by_key(|x| x.letters);
    let mut all = finals.clone();
    all.sort_by_key(|x| x.letters);
    assert_eq!(seen, all);
    assert_eq!(select_secret(&finals, 7, 5), Err(EngineError::DayOutOfRange));
    // The shuffle really reorders the set for some seed.
    let reordered = (1..=5u64).any(|seed| {
        let order: Vec<Word> = (0..5).map(|d| select_secret(&finals, seed, d).unwrap()).collect();
        order != finals
    });
    assert!(reordered);
}

#[test]
fn word_lists_are_sorted_and_unique() {
    let lines: Vec<String> = ["Slate", "crane", "SLATE", "abbey"].iter().map(|s| s.to_string()).collect();
    let list = load_word_list(&lines).unwrap();
    assert_eq!(list, words(&["abbey", "crane", "slate"]));
    let bad: Vec<String> = ["crane", "cranes"].iter().map(|s| s.to_string()).collect();
    assert_eq!(load_word_list(&bad), Err(EngineError::InvalidWordLength));
    let bad: Vec<String> = ["cr4ne"].iter().map(|s| s.to_string()).collect();
    assert_eq!(load_word_list(&bad), Err(EngineError::InvalidLetter));
    assert_eq!(sorted_unique(&words(&["zzzzz", "zzzzz"])), words(&["zzzzz"]));
    assert!(contains_word(&list, &w("crane")));
    assert!(!contains_word(&list, &w("trace")));
}

#[test]
fn history_records_and_counts() {
    let mut state = State::new();
    assert_eq!(state.total_rounds, 0);
    state.record(Game::of_round(&w("stale"), &words(&["crane", "stale"])));
    state.record(Game::of_round(&w("least"), &words(&["crane", "fjord"])));
    let mut empty = Game::new();
    assert!(empty.answer.is_empty() && empty.guesses.is_empty());
    empty.answer = "TRACE".to_string();
    state.record(empty);
    assert_eq!(state.games[0].answer, "STALE");
    assert_eq!(state.games[0].guesses, vec!["CRANE".to_string(), "STALE".to_string()]);
    let stats = state.stats().unwrap();
    assert_eq!(stats.rounds, 3);
    assert_eq!(stats.wins, 1);
    assert_eq!(stats.tries, 2);
    let top = stats.usage.top();
    assert_eq!(top, vec![(w("crane"), 1), (w("stale"), 1)]);
    state.total_rounds = 5;
    assert_eq!(state.stats().err(), Some(EngineError::RoundCountMismatch));
}

#[test]
fn session_stats_and_usage() {
    let mut stats = Stats::new();
    stats.record_round(true, &words(&["crane", "stale"]));
    stats.record_round(false, &words(&["crane", "fjord", "crane"]));
    assert_eq!((stats.rounds, stats.wins, stats.tries), (2, 1, 2));
    assert_eq!(
        stats.usage.top(),
        vec![(w("crane"), 3), (w("fjord"), 1), (w("stale"), 1)]
    );
    let mut tally = UsageTally::new();
    tally.record(&w("least"));
    tally.record(&w("least"));
    tally.record(&w("admit"));
    assert_eq!(tally.top(), vec![(w("least"), 2), (w("admit"), 1)]);
}

#[test]
fn config_starts_empty() {
    let c = Config::new();
    assert!(c.random.is_none() && c.day.is_none() && c.seed.is_none() && c.word.is_none());
}
