use crate::dictionary::{all_wf, contains_word, is_subset};
use crate::error::EngineError;
use crate::feedback::{evaluate, feedback, Verdict};
use crate::knowledge::{lemma_secret_stays_candidate, Knowledge};
use crate::letters::{occurrences, LetterCounter};
use crate::ranking::same_word;
use crate::status::{AlphStatus, AlphabetStatus};
use crate::word::{char_of, lemma_spelling_injective, spelling, Word};
use vstd::prelude::*;

verus! {

/// Number of guesses a round allows.
pub const MAX_GUESSES: usize = 6;

/// Whether `w` is a well-formed word written as `s`.
pub open spec fn spelled_by(w: Word, s: Seq<char>) -> bool {
    w.wf() && spelling(w@) == s
}

/// The ordinal of a guess number, as shown in the prompt.
pub open spec fn ordinal_text(cnt: usize) -> Seq<char> {
    if cnt == 1 {
        seq!['1', 's', 't']
    } else if cnt == 2 {
        seq!['2', 'n', 'd']
    } else if cnt == 3 {
        seq!['3', 'r', 'd']
    } else if 4 <= cnt <= 6 {
        seq![(cnt + 48) as char, 't', 'h']
    } else {
        seq!['T', 'o', 'o', ' ', 'L', 'a', 'r', 'g', 'e']
    }
}

/// How a guess left the round.
#[derive(Clone, Copy, Debug, PartialEq, Eq, Structural)]
pub enum Outcome {
    /// More guesses may follow.
    Continue,
    /// The guess was the secret.
    Won,
    /// The last allowed guess missed.
    Lost,
}

/// One scored guess.
pub struct Turn {
    pub guess: Word,
    pub verdicts: [Verdict; 5],
    pub outcome: Outcome,
}

/// The state of a round in progress.
pub struct Round {
    /// What the feedback so far has shown.
    pub knowledge: Knowledge,
    /// The verdicts of the latest guess (all absent before the first).
    pub last: [Verdict; 5],
    /// The guesses made, in order.
    pub guesses: Vec<Word>,
    /// Whether the round is won or lost.
    pub finished: bool,
}

impl Round {
    /// The knowledge is well formed and agrees with the secret, and the
    /// guesses stay within the limit.
    pub open spec fn wf(&self, secret: Seq<u8>) -> bool {
        &&& self.knowledge.wf()
        &&& self.knowledge.admits(secret)
        &&& self.guesses@.len() <= MAX_GUESSES
        &&& !self.finished ==> self.guesses@.len() < MAX_GUESSES
        &&& all_wf(self.guesses@)
    }
}

/// A game against a known secret.
pub struct Wordle {
    pub key_word: Word,
    pub hard_mod: bool,
    pub stats: bool,
    pub seed: u64,
    pub tty: bool,
    pub final_set: Vec<Word>,
    pub acceptable_set: Vec<Word>,
}

impl Wordle {
    /// The words are well formed, the final set lies in the acceptable set,
    /// and the secret is in the final set.
    pub open spec fn wf(&self) -> bool {
        &&& self.key_word.wf()
        &&& all_wf(self.final_set@)
        &&& all_wf(self.acceptable_set@)
        &&& forall|i: int|
            0 <= i < self.final_set@.len() ==> self.acceptable_set@.contains(
                #[trigger] self.final_set@[i],
            )
        &&& self.final_set@.contains(self.key_word)
    }

    /// Whether a guess keeps to hard mode: it repeats the secret's letter at
    /// every position that the latest guess had right, and it holds every
    /// letter whose best status is wrong position.
    pub open spec fn hard_mode_admits(
        &self,
        w: Seq<u8>,
        last: Seq<Verdict>,
        status: Seq<AlphStatus>,
    ) -> bool {
        &&& forall|i: int| 0 <= i < 5 && last[i] == Verdict::Correct ==> w[i] == self.key_word@[i]
        &&& forall|l: int|
            0 <= l < 26 && #[trigger] status[l] == AlphStatus::PosWrong ==> occurrences(w, l as u8)
                > 0
    }

    /// Whether a word may be guessed now: it is acceptable and, in hard
    /// mode, keeps to hard mode.
    pub open spec fn may_guess(
        &self,
        w: Word,
        last: Seq<Verdict>,
        status: Seq<AlphStatus>,
    ) -> bool {
        self.acceptable_set@.contains(w) && (!self.hard_mod || self.hard_mode_admits(
            w@,
            last,
            status,
        ))
    }

    /// Sets up a game. The final set must lie in the acceptable set, and the
    /// secret must be in the final set.
    pub fn new(
        key_word: Word,
        hard_mod: bool,
        stats: bool,
        seed: u64,
        tty: bool,
        final_set: Vec<Word>,
        acceptable_set: Vec<Word>,
    ) -> (r: Result<Wordle, EngineError>)
        requires
            key_word.wf(),
            all_wf(final_set@),
            all_wf(acceptable_set@),
        ensures
            r is Ok <==> (forall|i: int|
                0 <= i < final_set@.len() ==> acceptable_set@.contains(#[trigger] final_set@[i]))
                && final_set@.contains(key_word),
            !(forall|i: int|
                0 <= i < final_set@.len() ==> acceptable_set@.contains(#[trigger] final_set@[i]))
                ==> r == Err::<Wordle, EngineError>(EngineError::FinalSetNotSubsetOfAcceptableSet),
            r is Err && (forall|i: int|
                0 <= i < final_set@.len() ==> acceptable_set@.contains(#[trigger] final_set@[i]))
                ==> r == Err::<Wordle, EngineError>(EngineError::SecretNotInFinalSet),
            r matches Ok(g) ==> g.wf() && g.key_word == key_word && g.hard_mod == hard_mod
                && g.stats == stats && g.seed == seed && g.tty == tty && g.final_set@
                == final_set@ && g.acceptable_set@ == acceptable_set@,
    {
        if !is_subset(&final_set, &acceptable_set) {
            return Err(EngineError::FinalSetNotSubsetOfAcceptableSet);
        }
        if !contains_word(&final_set, &key_word) {
            return Err(EngineError::SecretNotInFinalSet);
        }
        Ok(Wordle { key_word, hard_mod, stats, seed, tty, final_set, acceptable_set })
    }

    /// A fresh round: nothing known, no guess made.
    pub fn start(&self) -> (r: Round)
        requires
            self.wf(),
        ensures
            r.wf(self.key_word@),
            r.guesses@.len() == 0,
            !r.finished,
            forall|i: int| 0 <= i < 5 ==> r.last@[i] == Verdict::Absent,
            forall|w: Word| w.wf() ==> r.knowledge.admits(#[trigger] w@),
    {
        let knowledge = Knowledge::new();
        assert(knowledge.admits(self.key_word@));
        Round { knowledge, last: [Verdict::Absent; 5], guesses: Vec::new(), finished: false }
    }

    /// The ordinal of a guess number: `1st` to `6th`.
    pub fn trans_to_onum(cnt: usize) -> (r: String)
        ensures
            r@ == ordinal_text(cnt),
    {
        let r = match cnt {
            1 => String::from_str("1st"),
            2 => String::from_str("2nd"),
            3 => String::from_str("3rd"),
            4 => String::from_str("4th"),
            5 => String::from_str("5th"),
            6 => String::from_str("6th"),
            _ => String::from_str("Too Large"),
        };
        proof {
            reveal_strlit("1st");
            reveal_strlit("2nd");
            reveal_strlit("3rd");
            reveal_strlit("4th");
            reveal_strlit("5th");
            reveal_strlit("6th");
            reveal_strlit("Too Large");
        }
        assert(r@ =~= ordinal_text(cnt));
        r
    }

    /// Whether a guess is allowed by hard mode (always, outside hard mode).
    pub fn check_hard_mod(
        &self,
        input_word: &Word,
        curstatus: &[Verdict; 5],
        status: &AlphabetStatus,
    ) -> (r: bool)
        requires
            self.wf(),
            input_word.wf(),
            status@.len() == 26,
        ensures
            r == (!self.hard_mod || self.hard_mode_admits(input_word@, curstatus@, status@)),
    {
        if !self.hard_mod {
            return true;
        }
        let mut i: usize = 0;
        while i < 5
            invariant
                self.wf(),
                self.hard_mod,
                0 <= i <= 5,
                forall|j: int|
                    0 <= j < i && curstatus@[j] == Verdict::Correct ==> input_word@[j]
                        == self.key_word@[j],
            decreases 5 - i,
        {
            if curstatus[i] == Verdict::Correct && input_word.letters[i] != self.key_word.letters[i] {
                assert(!self.hard_mode_admits(input_word@, curstatus@, status@));
                return false;
            }
            i += 1;
        }
        let counts = LetterCounter::of_word(input_word);
        let mut l: u8 = 0;
        while l < 26
            invariant
                self.hard_mod,
                status@.len() == 26,
                0 <= l <= 26,
                counts@.len() == 26,
                forall|j: int|
                    0 <= j < 5 && curstatus@[j] == Verdict::Correct ==> input_word@[j]
                        == self.key_word@[j],
                forall|m: int| 0 <= m < 26 ==> #[trigger] counts@[m] == occurrences(input_word@, m as u8),
                forall|m: int|
                    0 <= m < l && #[trigger] status@[m] == AlphStatus::PosWrong ==> occurrences(
                        input_word@,
                        m as u8,
                    ) > 0,
            decreases 26 - l,
        {
            if status.get(l) == AlphStatus::PosWrong && counts.get(l) == 0 {
                assert(status@[l as int] == AlphStatus::PosWrong);
                assert(!self.hard_mode_admits(input_word@, curstatus@, status@));
                return false;
            }
            l += 1;
        }
        true
    }

    /// Reads and vets a guess: five letters, in the acceptable set, and
    /// allowed by hard mode.
    pub fn check_word(
        &self,
        input_word: &str,
        curstatus: &[Verdict; 5],
        status: &AlphabetStatus,
    ) -> (r: Result<Word, EngineError>)
        requires
            self.wf(),
            status@.len() == 26,
        ensures
            r is Ok <==> exists|w: Word|
                spelled_by(w, input_word@) && self.may_guess(w, curstatus@, status@),
            r matches Ok(w) ==> spelled_by(w, input_word@) && self.may_guess(
                w,
                curstatus@,
                status@,
            ),
            input_word@.len() != 5 ==> r == Err::<Word, EngineError>(
                EngineError::InvalidWordLength,
            ),
            r matches Err(e) ==> e == EngineError::InvalidWordLength || e
                == EngineError::WordNotInAcceptableSet || e == EngineError::HardModeViolation,
            r == Err::<Word, EngineError>(EngineError::WordNotInAcceptableSet) ==> forall|w: Word|
                #[trigger] spelled_by(w, input_word@) ==> !self.acceptable_set@.contains(w),
            r == Err::<Word, EngineError>(EngineError::HardModeViolation) ==> exists|w: Word|
                spelled_by(w, input_word@) && self.acceptable_set@.contains(w),
    {
        let w = match Word::parse(input_word) {
            Ok(w) => w,
            Err(e) => {
                assert forall|w: Word| #[trigger] spelled_by(w, input_word@) implies false by {
                    assert forall|i: int| 0 <= i < 5 implies crate::word::is_lower_letter(
                        #[trigger] input_word@[i],
                    ) by {
                        assert(spelling(w@)[i] == char_of(w@[i]));
                    }
                }
                if e == EngineError::InvalidWordLength {
                    return Err(EngineError::InvalidWordLength);
                }
                return Err(EngineError::WordNotInAcceptableSet);
            },
        };
        assert forall|x: Word| #[trigger] spelled_by(x, input_word@) implies x == w by {
            lemma_spelling_injective(x, w);
        }
        if !contains_word(&self.acceptable_set, &w) {
            return Err(EngineError::WordNotInAcceptableSet);
        }
        assert(spelled_by(w, input_word@));
        if !self.check_hard_mod(&w, curstatus, status) {
            return Err(EngineError::HardModeViolation);
        }
        assert(self.may_guess(w, curstatus@, status@));
        Ok(w)
    }

    /// Whether `word` agrees with everything learned.
    pub fn check_possible(word: &Word, knowledge: &Knowledge) -> (r: bool)
        requires
            knowledge.wf(),
            word.wf(),
        ensures
            r == knowledge.admits(word@),
    {
        knowledge.check_possible(word)
    }

    /// The acceptable words that agree with everything learned, in order.
    pub fn candidates(&self, knowledge: &Knowledge) -> (r: Vec<Word>)
        requires
            self.wf(),
            knowledge.wf(),
        ensures
            r@ == knowledge.candidates(self.acceptable_set@),
    {
        knowledge.filter(&self.acceptable_set)
    }

    /// Plays one guess of the round: vets it, scores it against the secret,
    /// merges the feedback into what is known, and tells whether the round
    /// is won, lost, or goes on. A refused guess changes nothing.
    pub fn play(&self, round: &mut Round, input_word: &str) -> (r: Result<Turn, EngineError>)
        requires
            self.wf(),
            old(round).wf(self.key_word@),
        ensures
            final(round).wf(self.key_word@),
            old(round).finished ==> r == Err::<Turn, EngineError>(EngineError::RoundOver),
            r is Err ==> *final(round) == *old(round),
            !old(round).finished ==> (r is Ok <==> exists|w: Word|
                spelled_by(w, input_word@) && self.may_guess(
                    w,
                    old(round).last@,
                    old(round).knowledge.status@,
                )),
            !old(round).finished && input_word@.len() != 5 ==> r == Err::<Turn, EngineError>(
                EngineError::InvalidWordLength,
            ),
            r matches Ok(t) ==> {
                &&& spelled_by(t.guess, input_word@)
                &&& self.may_guess(t.guess, old(round).last@, old(round).knowledge.status@)
                &&& t.verdicts@ == feedback(self.key_word@, t.guess@)
                &&& Knowledge::is_update_of(
                    &final(round).knowledge,
                    &old(round).knowledge,
                    t.guess@,
                    t.verdicts@,
                )
                &&& final(round).last == t.verdicts
                &&& final(round).guesses@ == old(round).guesses@.push(t.guess)
                &&& (t.outcome == Outcome::Won <==> t.guess == self.key_word)
                &&& (t.outcome == Outcome::Lost <==> t.guess != self.key_word
                    && final(round).guesses@.len() == MAX_GUESSES)
                &&& final(round).finished == (t.outcome != Outcome::Continue)
            },
    {
        if round.finished {
            return Err(EngineError::RoundOver);
        }
        let guess = match self.check_word(input_word, &round.last, &round.knowledge.status) {
            Ok(w) => w,
            Err(e) => {
                return Err(e);
            },
        };
        let verdicts = evaluate(&self.key_word, &guess);
        let ghost before = round.knowledge;
        proof {
            lemma_secret_stays_candidate(before, before, self.key_word, guess);
        }
        match round.knowledge.update(&guess, &verdicts) {
            Ok(()) => {},
            Err(e) => {
                return Err(e);
            },
        }
        proof {
            lemma_secret_stays_candidate(before, round.knowledge, self.key_word, guess);
        }
        round.last = verdicts;
        round.guesses.push(guess);
        let won = same_word(&guess, &self.key_word);
        let outcome = if won {
            Outcome::Won
        } else if round.guesses.len() == MAX_GUESSES {
            Outcome::Lost
        } else {
            Outcome::Continue
        };
        round.finished = won || round.guesses.len() == MAX_GUESSES;
        Ok(Turn { guess, verdicts, outcome })
    }
}

} // verus!
