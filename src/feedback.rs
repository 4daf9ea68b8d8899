use crate::letters::{count_in, occurrences, LetterCounter};
use crate::word::Word;
use vstd::prelude::*;

verus! {

/// The outcome of one position of a scored guess.
#[derive(Clone, Copy, Debug, PartialEq, Eq, Structural)]
pub enum Verdict {
    /// The guess has the secret's letter at this position.
    Correct,
    /// The letter occurs elsewhere in the secret, in a copy not yet credited.
    WrongPosition,
    /// No uncredited copy of the letter is left in the secret.
    Absent,
}

/// Secret positions below `n` that hold `l` and that the guess does not match.
pub open spec fn unmatched_in(secret: Seq<u8>, guess: Seq<u8>, l: u8, n: int) -> nat
    decreases n,
{
    if n <= 0 {
        0
    } else {
        unmatched_in(secret, guess, l, n - 1) + if secret[n - 1] == l && guess[n - 1]
            != secret[n - 1] {
            1nat
        } else {
            0nat
        }
    }
}

/// Guess positions below `n` that hold `l` and do not match the secret.
pub open spec fn pending_in(secret: Seq<u8>, guess: Seq<u8>, l: u8, n: int) -> nat
    decreases n,
{
    if n <= 0 {
        0
    } else {
        pending_in(secret, guess, l, n - 1) + if guess[n - 1] == l && guess[n - 1]
            != secret[n - 1] {
            1nat
        } else {
            0nat
        }
    }
}

/// Positions below `n` where both words hold `l`.
pub open spec fn exact_in(secret: Seq<u8>, guess: Seq<u8>, l: u8, n: int) -> nat
    decreases n,
{
    if n <= 0 {
        0
    } else {
        exact_in(secret, guess, l, n - 1) + if guess[n - 1] == l && secret[n - 1] == l {
            1nat
        } else {
            0nat
        }
    }
}

/// The verdict at position `i`: an exact match is correct; otherwise the
/// occurrence is credited when fewer unmatched copies of its letter stand to
/// its left in the guess than the secret has unmatched copies.
pub open spec fn verdict_at(secret: Seq<u8>, guess: Seq<u8>, i: int) -> Verdict {
    if guess[i] == secret[i] {
        Verdict::Correct
    } else if pending_in(secret, guess, guess[i], i) < unmatched_in(
        secret,
        guess,
        guess[i],
        5,
    ) {
        Verdict::WrongPosition
    } else {
        Verdict::Absent
    }
}

/// The five verdicts of `guess` against `secret`.
pub open spec fn feedback(secret: Seq<u8>, guess: Seq<u8>) -> Seq<Verdict> {
    Seq::new(5, |i: int| verdict_at(secret, guess, i))
}

/// Scores `guess` against `secret` in two passes: exact matches first, then
/// the remaining letters from left to right against the secret's unmatched
/// copies.
pub fn evaluate(secret: &Word, guess: &Word) -> (r: [Verdict; 5])
    requires
        secret.wf(),
        guess.wf(),
    ensures
        r@ == feedback(secret@, guess@),
{
    let ghost s = secret@;
    let ghost g = guess@;
    let mut remaining = LetterCounter::new();
    let mut verdicts: [Verdict; 5] = [Verdict::Absent; 5];
    let mut i: usize = 0;
    while i < 5
        invariant
            s == secret@,
            g == guess@,
            secret.wf(),
            guess.wf(),
            0 <= i <= 5,
            remaining@.len() == 26,
            forall|l: int| 0 <= l < 26 ==> #[trigger] remaining@[l] == unmatched_in(s, g, l as u8, i as int),
            forall|j: int|
                0 <= j < 5 ==> #[trigger] verdicts@[j] == if j < i && g[j] == s[j] {
                    Verdict::Correct
                } else {
                    Verdict::Absent
                },
        decreases 5 - i,
    {
        let sl = secret.letters[i];
        if guess.letters[i] == sl {
            verdicts[i] = Verdict::Correct;
        } else {
            proof {
                lemma_unmatched_bound(s, g, sl, i as int);
            }
            remaining.increment(sl);
        }
        i += 1;
    }
    let mut i: usize = 0;
    while i < 5
        invariant
            s == secret@,
            g == guess@,
            secret.wf(),
            guess.wf(),
            0 <= i <= 5,
            remaining@.len() == 26,
            forall|l: int|
                0 <= l < 26 ==> #[trigger] remaining@[l] == if pending_in(s, g, l as u8, i as int)
                    < unmatched_in(s, g, l as u8, 5) {
                    unmatched_in(s, g, l as u8, 5) - pending_in(s, g, l as u8, i as int)
                } else {
                    0
                },
            forall|j: int|
                0 <= j < 5 ==> #[trigger] verdicts@[j] == if j < i {
                    verdict_at(s, g, j)
                } else if g[j] == s[j] {
                    Verdict::Correct
                } else {
                    Verdict::Absent
                },
        decreases 5 - i,
    {
        let gl = guess.letters[i];
        if gl != secret.letters[i] {
            if remaining.get(gl) > 0 {
                verdicts[i] = Verdict::WrongPosition;
                remaining.decrement(gl);
            }
        }
        i += 1;
    }
    assert(verdicts@ =~= feedback(s, g));
    verdicts
}

/// An unmatched count over the first `n` positions is at most `n`.
pub proof fn lemma_unmatched_bound(s: Seq<u8>, g: Seq<u8>, l: u8, n: int)
    ensures
        unmatched_in(s, g, l, n) <= if n < 0 { 0 } else { n },
    decreases n,
{
    if n > 0 {
        lemma_unmatched_bound(s, g, l, n - 1);
    }
}

/// Positions below `n` where the guess holds `l` and the verdict is not absent.
pub open spec fn credited_in(guess: Seq<u8>, v: Seq<Verdict>, l: u8, n: int) -> nat
    decreases n,
{
    if n <= 0 {
        0
    } else {
        credited_in(guess, v, l, n - 1) + if guess[n - 1] == l && v[n - 1] != Verdict::Absent {
            1nat
        } else {
            0nat
        }
    }
}

/// Positions below `n` where the guess holds `l` and the verdict is a wrong position.
pub open spec fn misplaced_in(guess: Seq<u8>, v: Seq<Verdict>, l: u8, n: int) -> nat
    decreases n,
{
    if n <= 0 {
        0
    } else {
        misplaced_in(guess, v, l, n - 1) + if guess[n - 1] == l && v[n - 1]
            == Verdict::WrongPosition {
            1nat
        } else {
            0nat
        }
    }
}

/// The smaller of two naturals.
pub open spec fn min_nat(a: nat, b: nat) -> nat {
    if a <= b {
        a
    } else {
        b
    }
}

/// Splits the counts of a letter into its exact matches and the rest.
pub proof fn lemma_counts_split(s: Seq<u8>, g: Seq<u8>, l: u8, n: int)
    requires
        0 <= n <= 5,
        s.len() == 5,
        g.len() == 5,
    ensures
        count_in(g, l, n) == exact_in(s, g, l, n) + pending_in(s, g, l, n),
        count_in(s, l, n) == exact_in(s, g, l, n) + unmatched_in(s, g, l, n),
        credited_in(g, feedback(s, g), l, n) == exact_in(s, g, l, n) + misplaced_in(
            g,
            feedback(s, g),
            l,
            n,
        ),
        misplaced_in(g, feedback(s, g), l, n) == min_nat(
            pending_in(s, g, l, n),
            unmatched_in(s, g, l, 5),
        ),
    decreases n,
{
    if n > 0 {
        lemma_counts_split(s, g, l, n - 1);
        assert(feedback(s, g)[n - 1] == verdict_at(s, g, n - 1));
    }
}

/// Each letter is credited (correct or wrong position) exactly as often as
/// it occurs in both words, the smaller of its two multiplicities; among the
/// guess's copies that miss their exact position, as many are marked wrong
/// position as the secret has unmatched copies, and no more.
pub proof fn lemma_credit_matches_multiplicity(secret: Seq<u8>, guess: Seq<u8>, l: u8)
    requires
        secret.len() == 5,
        guess.len() == 5,
    ensures
        credited_in(guess, feedback(secret, guess), l, 5) == min_nat(
            occurrences(guess, l),
            occurrences(secret, l),
        ),
        misplaced_in(guess, feedback(secret, guess), l, 5) == min_nat(
            pending_in(secret, guess, l, 5),
            unmatched_in(secret, guess, l, 5),
        ),
        credited_in(guess, feedback(secret, guess), l, 5) <= occurrences(secret, l),
{
    lemma_counts_split(secret, guess, l, 5);
}

} // verus!
