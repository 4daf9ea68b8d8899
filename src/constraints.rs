use crate::error::EngineError;
use crate::feedback::{credited_in, Verdict};
use crate::letters::{count_in, occurrences, LetterCounter};
use crate::word::Word;
use vstd::prelude::*;

verus! {

/// Whether some copy of `l` in the guess is marked absent.
pub open spec fn has_absent(guess: Seq<u8>, v: Seq<Verdict>, l: u8) -> bool {
    credited_in(guess, v, l, 5) < occurrences(guess, l)
}

/// What feedback has fixed about the secret: letters locked at positions,
/// letters known not to stand at positions, and exact letter counts.
pub struct ConstraintModel {
    /// The letter that each position must hold, once a guess had it right there.
    pub locked: [Option<u8>; 5],
    /// `forbidden[l][i]`: letter `l` was marked wrong position at `i`.
    pub forbidden: [[bool; 5]; 26],
    /// How often each letter occurs in the secret, once feedback has shown it.
    pub exact_count: [Option<u8>; 26],
}

impl ConstraintModel {
    /// Locked letters are letters, and never forbidden where they are locked.
    pub open spec fn wf(&self) -> bool {
        &&& forall|i: int|
            0 <= i < 5 ==> (#[trigger] self.locked@[i] matches Some(l) ==> l < 26
                && !self.forbidden@[l as int]@[i])
    }

    /// The model that knows nothing.
    pub fn new() -> (r: ConstraintModel)
        ensures
            r.wf(),
            forall|i: int| 0 <= i < 5 ==> #[trigger] r.locked@[i] is None,
            forall|l: int, i: int|
                0 <= l < 26 && 0 <= i < 5 ==> !#[trigger] r.forbidden@[l]@[i],
            forall|l: int| 0 <= l < 26 ==> #[trigger] r.exact_count@[l] is None,
    {
        ConstraintModel {
            locked: [None; 5],
            forbidden: [[false; 5]; 26],
            exact_count: [None; 26],
        }
    }

    /// Whether position `i` is locked in a way that the verdict there denies:
    /// locked to the guessed letter without a correct verdict, or to another
    /// letter with one.
    pub open spec fn lock_conflict(&self, guess: Seq<u8>, v: Seq<Verdict>, i: int) -> bool {
        self.locked@[i] matches Some(x) && ((x == guess[i]) != (v[i] == Verdict::Correct))
    }

    /// Whether a correct verdict at `i` names a letter known not to stand there.
    pub open spec fn forbid_conflict(&self, guess: Seq<u8>, v: Seq<Verdict>, i: int) -> bool {
        v[i] == Verdict::Correct && self.forbidden@[guess[i] as int]@[i]
    }

    /// Whether the feedback on letter `l` disagrees with its known count:
    /// more copies credited than the secret holds, or a new exact count
    /// that differs from the old one.
    pub open spec fn count_conflict(&self, guess: Seq<u8>, v: Seq<Verdict>, l: int) -> bool {
        self.exact_count@[l] matches Some(c) && (credited_in(guess, v, l as u8, 5) > c || (
        has_absent(guess, v, l as u8) && credited_in(guess, v, l as u8, 5) != c))
    }

    /// Whether the feedback contradicts what the model already holds.
    pub open spec fn contradicts(&self, guess: Seq<u8>, v: Seq<Verdict>) -> bool {
        ||| exists|i: int| 0 <= i < 5 && #[trigger] self.lock_conflict(guess, v, i)
        ||| exists|i: int| 0 <= i < 5 && #[trigger] self.forbid_conflict(guess, v, i)
        ||| exists|l: int| 0 <= l < 26 && #[trigger] self.count_conflict(guess, v, l)
    }

    /// `new` is `old` with the feedback of one guess added: correct verdicts
    /// lock their position, wrong-position verdicts forbid their letter
    /// there, and a letter with an absent copy gets as its exact count the
    /// number of its credited copies.
    pub open spec fn is_update_of(
        new: &ConstraintModel,
        old: &ConstraintModel,
        guess: Seq<u8>,
        v: Seq<Verdict>,
    ) -> bool {
        &&& forall|i: int|
            0 <= i < 5 ==> #[trigger] new.locked@[i] == if v[i] == Verdict::Correct {
                Some(guess[i])
            } else {
                old.locked@[i]
            }
        &&& forall|l: int, i: int|
            0 <= l < 26 && 0 <= i < 5 ==> #[trigger] new.forbidden@[l]@[i] == (
            old.forbidden@[l]@[i] || (v[i] == Verdict::WrongPosition && guess[i] == l))
        &&& forall|l: int|
            0 <= l < 26 ==> #[trigger] new.exact_count@[l] == if has_absent(guess, v, l as u8) {
                Some(credited_in(guess, v, l as u8, 5) as u8)
            } else {
                old.exact_count@[l]
            }
    }

    /// Adds the feedback of one guess. Feedback that contradicts the model is
    /// refused and leaves the model as it was.
    pub fn update(&mut self, guess: &Word, verdicts: &[Verdict; 5]) -> (r: Result<(), EngineError>)
        requires
            old(self).wf(),
            guess.wf(),
        ensures
            final(self).wf(),
            r is Err <==> old(self).contradicts(guess@, verdicts@),
            r is Err ==> r == Err::<(), EngineError>(EngineError::ContradictoryConstraint)
                && *final(self) == *old(self),
            r is Ok ==> ConstraintModel::is_update_of(final(self), old(self), guess@, verdicts@),
    {
        let ghost g = guess@;
        let ghost v = verdicts@;
        let mut i: usize = 0;
        while i < 5
            invariant
                g == guess@,
                v == verdicts@,
                guess.wf(),
                self.wf(),
                0 <= i <= 5,
                forall|j: int| 0 <= j < i ==> !#[trigger] self.lock_conflict(g, v, j),
                forall|j: int| 0 <= j < i ==> !#[trigger] self.forbid_conflict(g, v, j),
            decreases 5 - i,
        {
            let gl = guess.letters[i];
            let correct = verdicts[i] == Verdict::Correct;
            match self.locked[i] {
                Some(x) => {
                    if (x == gl) != correct {
                        assert(self.lock_conflict(g, v, i as int));
                        return Err(EngineError::ContradictoryConstraint);
                    }
                },
                None => {},
            }
            if correct && self.forbidden[gl as usize][i] {
                assert(self.forbid_conflict(g, v, i as int));
                return Err(EngineError::ContradictoryConstraint);
            }
            i += 1;
        }
        let occurring = LetterCounter::of_word(guess);
        let credited = credited_counts(guess, verdicts);
        let mut l: u8 = 0;
        while l < 26
            invariant
                g == guess@,
                v == verdicts@,
                guess.wf(),
                self.wf(),
                0 <= l <= 26,
                occurring@.len() == 26,
                credited@.len() == 26,
                forall|m: int| 0 <= m < 26 ==> #[trigger] occurring@[m] == occurrences(g, m as u8),
                forall|m: int|
                    0 <= m < 26 ==> #[trigger] credited@[m] == credited_in(g, v, m as u8, 5),
                forall|j: int| 0 <= j < 5 ==> !#[trigger] self.lock_conflict(g, v, j),
                forall|j: int| 0 <= j < 5 ==> !#[trigger] self.forbid_conflict(g, v, j),
                forall|m: int| 0 <= m < l ==> !#[trigger] self.count_conflict(g, v, m),
            decreases 26 - l,
        {
            match self.exact_count[l as usize] {
                Some(c) => {
                    let k = credited.get(l);
                    if k > c as u32 || (k < occurring.get(l) && k != c as u32) {
                        assert(self.count_conflict(g, v, l as int));
                        return Err(EngineError::ContradictoryConstraint);
                    }
                },
                None => {},
            }
            l += 1;
        }
        assert(!self.contradicts(g, v));
        let ghost before = *self;
        let mut i: usize = 0;
        while i < 5
            invariant
                g == guess@,
                v == verdicts@,
                guess.wf(),
                before.wf(),
                0 <= i <= 5,
                forall|j: int| 0 <= j < 5 ==> !#[trigger] before.lock_conflict(g, v, j),
                forall|j: int| 0 <= j < 5 ==> !#[trigger] before.forbid_conflict(g, v, j),
                self.exact_count == before.exact_count,
                forall|j: int|
                    0 <= j < 5 ==> #[trigger] self.locked@[j] == if j < i && v[j]
                        == Verdict::Correct {
                        Some(g[j])
                    } else {
                        before.locked@[j]
                    },
                forall|m: int, j: int|
                    0 <= m < 26 && 0 <= j < 5 ==> #[trigger] self.forbidden@[m]@[j] == (
                    before.forbidden@[m]@[j] || (j < i && v[j] == Verdict::WrongPosition && g[j]
                        == m)),
            decreases 5 - i,
        {
            let gl = guess.letters[i];
            match verdicts[i] {
                Verdict::Correct => {
                    self.locked[i] = Some(gl);
                },
                Verdict::WrongPosition => {
                    let mut row = self.forbidden[gl as usize];
                    row[i] = true;
                    self.forbidden[gl as usize] = row;
                },
                Verdict::Absent => {},
            }
            i += 1;
        }
        let ghost mid = *self;
        let mut l: u8 = 0;
        while l < 26
            invariant
                g == guess@,
                v == verdicts@,
                self.locked == mid.locked,
                self.forbidden == mid.forbidden,
                0 <= l <= 26,
                occurring@.len() == 26,
                credited@.len() == 26,
                forall|m: int| 0 <= m < 26 ==> #[trigger] occurring@[m] == occurrences(g, m as u8),
                forall|m: int|
                    0 <= m < 26 ==> #[trigger] credited@[m] == credited_in(g, v, m as u8, 5),
                forall|m: int|
                    0 <= m < 26 ==> #[trigger] self.exact_count@[m] == if m < l && has_absent(
                        g,
                        v,
                        m as u8,
                    ) {
                        Some(credited_in(g, v, m as u8, 5) as u8)
                    } else {
                        before.exact_count@[m]
                    },
            decreases 26 - l,
        {
            let k = credited.get(l);
            if k < occurring.get(l) {
                proof {
                    lemma_credited_bound(g, v, l, 5);
                }
                self.exact_count[l as usize] = Some(k as u8);
            }
            l += 1;
        }
        proof {
            assert forall|j: int| 0 <= j < 5 implies (#[trigger] self.locked@[j] matches Some(x)
                ==> x < 26 && !self.forbidden@[x as int]@[j]) by {
                if v[j] == Verdict::Correct {
                    assert(!before.forbid_conflict(g, v, j));
                } else {
                    assert(!before.lock_conflict(g, v, j));
                }
            }
            assert forall|m: int| 0 <= m < 26 implies #[trigger] self.exact_count@[m] == if has_absent(g, v, m as u8) {
                Some(credited_in(g, v, m as u8, 5) as u8)
            } else {
                before.exact_count@[m]
            } by {}
            assert forall|m: int, j: int|
            0 <= m < 26 && 0 <= j < 5 implies #[trigger] self.forbidden@[m]@[j] == (
            before.forbidden@[m]@[j] || (v[j] == Verdict::WrongPosition && g[j] == m)) by {}
            assert(ConstraintModel::is_update_of(self, &before, g, v));
        }
        Ok(())
    }
}

/// A credited count over the first `n` positions is at most `n`.
pub proof fn lemma_credited_bound(guess: Seq<u8>, v: Seq<Verdict>, l: u8, n: int)
    ensures
        credited_in(guess, v, l, n) <= if n < 0 { 0 } else { n },
    decreases n,
{
    if n > 0 {
        lemma_credited_bound(guess, v, l, n - 1);
    }
}

/// For each letter, how many of its copies in the guess are credited.
pub fn credited_counts(guess: &Word, verdicts: &[Verdict; 5]) -> (r: LetterCounter)
    requires
        guess.wf(),
    ensures
        r@.len() == 26,
        forall|l: int|
            0 <= l < 26 ==> #[trigger] r@[l] == credited_in(guess@, verdicts@, l as u8, 5),
{
    let mut r = LetterCounter::new();
    let mut i: usize = 0;
    while i < 5
        invariant
            guess.wf(),
            0 <= i <= 5,
            r@.len() == 26,
            forall|l: int|
                0 <= l < 26 ==> #[trigger] r@[l] == credited_in(
                    guess@,
                    verdicts@,
                    l as u8,
                    i as int,
                ),
        decreases 5 - i,
    {
        let l = guess.letters[i];
        if verdicts[i] != Verdict::Absent {
            proof {
                lemma_credited_bound(guess@, verdicts@, l, i as int);
            }
            r.increment(l);
        }
        i += 1;
    }
    r
}

} // verus!
