use wordle::feedback::{evaluate, Verdict};
use wordle::ranking::pattern_code;
use wordle::word::Word;

use Verdict::{Absent, Correct, WrongPosition};

fn w(s: &str) -> Word {
    Word::parse(s).unwrap()
}

fn credited(guess: &Word, verdicts: &[Verdict; 5], letter: u8) -> usize {
    (0..5)
        .filter(|&i| guess.letters[i] == letter && verdicts[i] != Absent)
        .count()
}

fn occurrences(word: &Word, letter: u8) -> usize {
    word.letters.iter().filter(|&&l| l == letter).count()
}

#[test]
fn duplicate_guess_letters_beyond_the_secret_are_absent() {
    // The secret holds one 'a' and one 'b': the second copy of each is absent.
    let v = evaluate(&w("abcde"), &w("aabbc"));
    assert_eq!(v, [Correct, Absent, WrongPosition, Absent, WrongPosition]);
}

#[test]
fn double_e_in_secret_and_guess() {
    let v = evaluate(&w("speed"), &w("erase"));
    assert_eq!(v, [WrongPosition, Absent, Absent, WrongPosition, WrongPosition]);
    let e = b'e' - b'a';
    assert_eq!(credited(&w("erase"), &v, e), 2);
}

#[test]
fn exact_match_is_credited_before_misplaced_copies() {
    // 'e' at index 3 matches exactly; the secret's other 'e' goes to index 0.
    let v = evaluate(&w("speed"), &w("eeeee"));
    assert_eq!(v, [Absent, Absent, Correct, Correct, Absent]);
    let v = evaluate(&w("abbey"), &w("ebbbe"));
    assert_eq!(v, [WrongPosition, Correct, Correct, Absent, Absent]);
}

#[test]
fn identical_words_are_all_correct() {
    assert_eq!(evaluate(&w("crane"), &w("crane")), [Correct; 5]);
    assert_eq!(evaluate(&w("crane"), &w("fjord"))[0], Absent);
}

#[test]
fn credited_copies_are_the_smaller_multiplicity() {
    let pairs = [
        ("speed", "erase"),
        ("abcde", "aabbc"),
        ("llama", "hello"),
        ("eerie", "geese"),
        ("sassy", "asses"),
        ("crane", "nacre"),
    ];
    for (s, g) in pairs {
        let (s, g) = (w(s), w(g));
        let v = evaluate(&s, &g);
        for letter in 0..26u8 {
            let expected = occurrences(&g, letter).min(occurrences(&s, letter));
            assert_eq!(credited(&g, &v, letter), expected);
            assert!(credited(&g, &v, letter) <= occurrences(&s, letter));
        }
    }
}

#[test]
fn pattern_codes_are_base_three() {
    assert_eq!(pattern_code(&[Correct; 5]), 242);
    assert_eq!(pattern_code(&[Absent; 5]), 0);
    assert_eq!(pattern_code(&[Correct, Absent, Absent, Absent, WrongPosition]), 2 + 81);
    assert_eq!(pattern_code(&[Absent, WrongPosition, Absent, Absent, Absent]), 3);
}
