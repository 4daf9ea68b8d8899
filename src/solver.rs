use crate::dictionary::all_wf;
use crate::error::EngineError;
use crate::feedback::Verdict;
use crate::knowledge::Knowledge;
use crate::word::Word;
use vstd::prelude::*;

verus! {

/// The verdict that one symbol of a typed feedback code stands for: `G` a
/// correct letter, `Y` a wrong position, anything else absent (either case).
pub open spec fn code_verdict(c: char) -> Verdict {
    if c == 'G' || c == 'g' {
        Verdict::Correct
    } else if c == 'Y' || c == 'y' {
        Verdict::WrongPosition
    } else {
        Verdict::Absent
    }
}

/// Whether a feedback code reports a solved word: it holds no `Y` and no `R`.
pub open spec fn code_solved(s: Seq<char>) -> bool {
    forall|i: int|
        0 <= i < s.len() ==> #[trigger] s[i] != 'R' && s[i] != 'r' && s[i] != 'Y' && s[i] != 'y'
}

/// The verdicts that a feedback code gives the five positions; positions
/// beyond the end of the code are absent.
pub open spec fn code_verdicts(s: Seq<char>) -> Seq<Verdict> {
    Seq::new(
        5,
        |i: int|
            if i < s.len() {
                code_verdict(s[i])
            } else {
                Verdict::Absent
            },
    )
}

/// What a typed feedback code says.
pub enum Reply {
    /// The word was the secret.
    Solved,
    /// The verdicts of the five positions.
    Verdicts([Verdict; 5]),
}

/// Reads a feedback code such as `GYRRG`.
pub fn read_feedback(code: &str) -> (r: Reply)
    ensures
        r is Solved <==> code_solved(code@),
        r matches Reply::Verdicts(v) ==> v@ == code_verdicts(code@),
{
    let n = code.unicode_len();
    let mut verdicts: [Verdict; 5] = [Verdict::Absent; 5];
    let mut solved = true;
    let mut i: usize = 0;
    while i < n
        invariant
            n == code@.len(),
            0 <= i <= n,
            solved == (forall|j: int|
                0 <= j < i ==> #[trigger] code@[j] != 'R' && code@[j] != 'r' && code@[j] != 'Y'
                    && code@[j] != 'y'),
            forall|j: int|
                0 <= j < 5 ==> #[trigger] verdicts@[j] == if j < i && j < code@.len() {
                    code_verdict(code@[j])
                } else {
                    Verdict::Absent
                },
        decreases n - i,
    {
        let c = code.get_char(i);
        if c == 'R' || c == 'r' || c == 'Y' || c == 'y' {
            solved = false;
        }
        if i < 5 {
            verdicts[i] = if c == 'G' || c == 'g' {
                Verdict::Correct
            } else if c == 'Y' || c == 'y' {
                Verdict::WrongPosition
            } else {
                Verdict::Absent
            };
        }
        i += 1;
    }
    if solved {
        Reply::Solved
    } else {
        assert(verdicts@ =~= code_verdicts(code@));
        Reply::Verdicts(verdicts)
    }
}

/// A helper that narrows the acceptable words down from typed feedback.
pub struct WordleSolver {
    pub final_set: Vec<Word>,
    pub acceptable_set: Vec<Word>,
}

impl WordleSolver {
    /// The words of both sets are well formed.
    pub open spec fn wf(&self) -> bool {
        all_wf(self.final_set@) && all_wf(self.acceptable_set@)
    }

    /// A solver over the given word sets.
    pub fn new(final_set: Vec<Word>, acceptable_set: Vec<Word>) -> (r: WordleSolver)
        ensures
            r.final_set@ == final_set@,
            r.acceptable_set@ == acceptable_set@,
    {
        WordleSolver { final_set, acceptable_set }
    }

    /// Whether `word` agrees with everything learned.
    pub fn check_possible(word: &Word, knowledge: &Knowledge) -> (r: bool)
        requires
            knowledge.wf(),
            word.wf(),
        ensures
            r == knowledge.admits(word@),
    {
        knowledge.check_possible(word)
    }

    /// The acceptable words that agree with everything learned, in order.
    pub fn candidates(&self, knowledge: &Knowledge) -> (r: Vec<Word>)
        requires
            self.wf(),
            knowledge.wf(),
        ensures
            r@ == knowledge.candidates(self.acceptable_set@),
    {
        knowledge.filter(&self.acceptable_set)
    }

    /// Takes the typed feedback on `guess`. A solved code changes nothing;
    /// otherwise its verdicts are merged into what is known, unless they
    /// contradict it.
    pub fn play(knowledge: &mut Knowledge, guess: &Word, code: &str) -> (r: Result<
        Reply,
        EngineError,
    >)
        requires
            old(knowledge).wf(),
            guess.wf(),
        ensures
            final(knowledge).wf(),
            r matches Ok(Reply::Solved) <==> code_solved(code@),
            code_solved(code@) ==> final(knowledge).model == old(knowledge).model
                && final(knowledge).status@ == old(knowledge).status@,
            !code_solved(code@) ==> (r is Err <==> old(knowledge).model.contradicts(
                guess@,
                code_verdicts(code@),
            )),
            r is Err ==> r == Err::<Reply, EngineError>(EngineError::ContradictoryConstraint)
                && final(knowledge).model == old(knowledge).model && final(knowledge).status@
                == old(knowledge).status@,
            r matches Ok(Reply::Verdicts(v)) ==> v@ == code_verdicts(code@)
                && Knowledge::is_update_of(final(knowledge), old(knowledge), guess@, v@),
    {
        match read_feedback(code) {
            Reply::Solved => Ok(Reply::Solved),
            Reply::Verdicts(v) => {
                match knowledge.update(guess, &v) {
                    Ok(()) => Ok(Reply::Verdicts(v)),
                    Err(e) => Err(e),
                }
            },
        }
    }
}

} // verus!
