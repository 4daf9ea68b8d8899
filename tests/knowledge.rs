use wordle::error::EngineError;
use wordle::feedback::{evaluate, Verdict};
use wordle::knowledge::Knowledge;
use wordle::solver::{read_feedback, Reply, WordleSolver};
use wordle::status::{AlphStatus, AlphabetStatus, Color};
use wordle::word::Word;

use Verdict::{Absent, Correct, WrongPosition};

fn w(s: &str) -> Word {
    Word::parse(s).unwrap()
}

fn words(list: &[&str]) -> Vec<Word> {
    list.iter().map(|s| w(s)).collect()
}

fn letter(c: char) -> u8 {
    c as u8 - b'a'
}

fn learn(k: &mut Knowledge, secret: &str, guess: &str) {
    let g = w(guess);
    let v = evaluate(&w(secret), &g);
    k.update(&g, &v).unwrap();
}

#[test]
fn fully_wrong_guess_excludes_the_guess_and_its_letters() {
    let dictionary = words(&["crane", "slate", "trace"]);
    let mut k = Knowledge::new();
    k.update(&w("crane"), &[Absent; 5]).unwrap();
    let left = k.filter(&dictionary);
    assert!(!left.contains(&w("crane")));
    // 'slate' and 'trace' hold letters of 'crane' too.
    assert!(left.is_empty());
    // A word without c, r, a, n, e survives.
    let left = k.filter(&words(&["crane", "built", "slate"]));
    assert_eq!(left, words(&["built"]));
}

#[test]
fn filtering_twice_changes_nothing() {
    let dictionary = words(&["crane", "slate", "trace", "stale", "least", "steal", "fjord"]);
    let mut k = Knowledge::new();
    learn(&mut k, "slate", "crane");
    let once = k.filter(&dictionary);
    let twice = k.filter(&once);
    assert_eq!(once, twice);
    assert_eq!(once, words(&["slate", "stale"]));
}

#[test]
fn candidates_shrink_from_round_to_round() {
    let dictionary = words(&["crane", "slate", "trace", "stale", "least", "steal", "fjord", "tales"]);
    let mut k = Knowledge::new();
    let all = k.filter(&dictionary);
    assert_eq!(all, dictionary);
    learn(&mut k, "steal", "crane");
    let first = k.filter(&dictionary);
    learn(&mut k, "steal", "slate");
    let second = k.filter(&dictionary);
    assert!(second.iter().all(|x| first.contains(x)));
    assert!(second.len() < first.len());
    assert_eq!(second, words(&["steal"]));
}

#[test]
fn secret_stays_a_candidate() {
    let dictionary = words(&["crane", "slate", "trace", "stale", "least", "steal", "tales"]);
    let mut k = Knowledge::new();
    for guess in ["crane", "tales", "slate"] {
        learn(&mut k, "stale", guess);
        assert!(k.filter(&dictionary).contains(&w("stale")));
    }
}

#[test]
fn letter_status_only_rises() {
    let mut k = Knowledge::new();
    let e = letter('e');
    assert_eq!(k.status.get(e), AlphStatus::Unknown);
    learn(&mut k, "speed", "erase");
    assert_eq!(k.status.get(e), AlphStatus::PosWrong);
    assert_eq!(k.status.get(letter('r')), AlphStatus::TooMany);
    learn(&mut k, "speed", "steed");
    assert_eq!(k.status.get(e), AlphStatus::Right);
    learn(&mut k, "speed", "eerie");
    assert_eq!(k.status.get(e), AlphStatus::Right);
    assert_eq!(k.status.get(letter('z')), AlphStatus::Unknown);
}

#[test]
fn tracker_takes_the_best_verdict_of_a_guess() {
    let mut status = AlphabetStatus::new();
    // Two copies of 'e': one absent, one right.
    status.update(&w("geese"), &[Absent, Absent, Absent, Absent, Correct]);
    assert_eq!(status.get(letter('e')), AlphStatus::Right);
    status.update(&w("eerie"), &[Absent; 5]);
    assert_eq!(status.get(letter('e')), AlphStatus::Right);
    assert_eq!(status.get(letter('r')), AlphStatus::TooMany);
}

#[test]
fn exact_count_comes_from_mixed_feedback() {
    // 'erase' against 'speed': both e's credited, no absent copy: no exact count.
    let mut k = Knowledge::new();
    learn(&mut k, "speed", "erase");
    assert_eq!(k.model.exact_count[letter('e') as usize], None);
    assert_eq!(k.model.exact_count[letter('r') as usize], Some(0));
    // 'eeeee' against 'speed': two e's right, three absent: exactly two.
    learn(&mut k, "speed", "eeeee");
    assert_eq!(k.model.exact_count[letter('e') as usize], Some(2));
    assert!(k.check_possible(&w("speed")));
    assert!(!k.check_possible(&w("spend")));
}

#[test]
fn feedback_that_disagrees_with_a_lock_is_refused() {
    let mut k = Knowledge::new();
    k.update(&w("crane"), &[Correct, Absent, Absent, Absent, Absent]).unwrap();
    assert_eq!(k.model.locked[0], Some(letter('c')));
    // Position 0 is locked to 'c', but 'c' there is now said to be absent.
    let r = k.update(&w("chose"), &[Absent; 5]);
    assert_eq!(r, Err(EngineError::ContradictoryConstraint));
    assert_eq!(k.model.locked[0], Some(letter('c')));
    assert_eq!(k.status.get(letter('h')), AlphStatus::Unknown);
    // Another letter said to be right at a locked position.
    let r = k.update(&w("trace"), &[Correct, Absent, Absent, Absent, Absent]);
    assert_eq!(r, Err(EngineError::ContradictoryConstraint));
}

#[test]
fn feedback_that_disagrees_with_an_exact_count_is_refused() {
    let mut k = Knowledge::new();
    k.update(&w("eerie"), &[Correct, Absent, Absent, Absent, Absent]).unwrap();
    assert_eq!(k.model.exact_count[letter('e') as usize], Some(1));
    let r = k.update(&w("geese"), &[Absent, Correct, Absent, Absent, Correct]);
    assert_eq!(r, Err(EngineError::ContradictoryConstraint));
    assert_eq!(k.model.exact_count[letter('e') as usize], Some(1));
}

#[test]
fn right_where_forbidden_is_refused() {
    let mut k = Knowledge::new();
    k.update(&w("crane"), &[Absent, Absent, WrongPosition, Absent, Absent]).unwrap();
    assert!(k.model.forbidden[letter('a') as usize][2]);
    let r = k.update(&w("bland"), &[Absent, Absent, Correct, Absent, Absent]);
    assert_eq!(r, Err(EngineError::ContradictoryConstraint));
}

#[test]
fn must_contain_letters_with_wrong_position_status() {
    let mut k = Knowledge::new();
    k.update(&w("crane"), &[Absent, Absent, WrongPosition, Absent, Absent]).unwrap();
    assert!(k.check_possible(&w("blast")) == false);
    assert!(k.check_possible(&w("plaid")) == false);
    assert!(k.check_possible(&w("admit")));
    assert!(!k.check_possible(&w("doubt")));
}

#[test]
fn status_codes_and_colors() {
    assert_eq!(AlphStatus::Right.parse3(), "G");
    assert_eq!(AlphStatus::PosWrong.parse3(), "Y");
    assert_eq!(AlphStatus::TooMany.parse3(), "R");
    assert_eq!(AlphStatus::Unknown.parse3(), "X");
    assert_eq!(AlphStatus::Right.parse1(), 3);
    assert_eq!(AlphStatus::Unknown.parse1(), 0);
    assert_eq!(AlphStatus::PosWrong.parse2(), Color::Yellow);
    assert_eq!(AlphStatus::TooMany.parse2(), Color::Red);
}

#[test]
fn typed_feedback_codes() {
    assert!(matches!(read_feedback("GGGGG"), Reply::Solved));
    assert!(matches!(read_feedback("ggggg"), Reply::Solved));
    match read_feedback("gyRrG") {
        Reply::Verdicts(v) => {
            assert_eq!(v, [Correct, WrongPosition, Absent, Absent, Correct]);
        }
        Reply::Solved => panic!("not solved"),
    }
    match read_feedback("RY") {
        Reply::Verdicts(v) => assert_eq!(v, [Absent, WrongPosition, Absent, Absent, Absent]),
        Reply::Solved => panic!("not solved"),
    }
}

#[test]
fn solver_narrows_from_typed_feedback() {
    let solver = WordleSolver::new(words(&["stale"]), words(&["crane", "slate", "stale", "least"]));
    let mut k = Knowledge::new();
    let r = WordleSolver::play(&mut k, &w("slate"), "GYGYG").unwrap();
    assert!(matches!(r, Reply::Verdicts(_)));
    assert_eq!(solver.candidates(&k), words(&["stale"]));
    assert!(WordleSolver::check_possible(&w("stale"), &k));
    let r = WordleSolver::play(&mut k, &w("stale"), "GGGGG").unwrap();
    assert!(matches!(r, Reply::Solved));
    let r = WordleSolver::play(&mut k, &w("crane"), "GRRRR");
    assert_eq!(r.err(), Some(EngineError::ContradictoryConstraint));
}
