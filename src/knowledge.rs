use crate::constraints::{lemma_credited_bound, ConstraintModel};
use crate::error::EngineError;
use crate::feedback::{feedback, lemma_counts_split, lemma_credit_matches_multiplicity, verdict_at, Verdict};
use crate::letters::{count_in, occurrences, LetterCounter};
use crate::status::{merged_in, priority, status_of, AlphStatus, AlphabetStatus};
use crate::word::Word;
use vstd::prelude::*;

verus! {

/// What a game has learned so far: the best status of each letter and the
/// constraints on the secret.
pub struct Knowledge {
    pub status: AlphabetStatus,
    pub model: ConstraintModel,
}

impl Knowledge {
    /// The model is well formed, and every letter seen at its exact position
    /// is locked at some position.
    pub open spec fn wf(&self) -> bool {
        &&& self.model.wf()
        &&& self.status@.len() == 26
        &&& forall|l: int|
            0 <= l < 26 && #[trigger] self.status@[l] == AlphStatus::Right ==> exists|i: int|
                0 <= i < 5 && self.model.locked@[i] == Some(l as u8)
    }

    /// Whether a word (as letter offsets) agrees with everything learned:
    /// it has each locked letter, no letter where it is forbidden, each known
    /// exact count, and every letter whose best status is wrong position.
    pub open spec fn admits(&self, w: Seq<u8>) -> bool {
        &&& forall|i: int|
            0 <= i < 5 ==> (#[trigger] self.model.locked@[i] matches Some(l) ==> w[i] == l)
        &&& forall|i: int| 0 <= i < 5 ==> !self.model.forbidden@[#[trigger] w[i] as int]@[i]
        &&& forall|l: int|
            0 <= l < 26 ==> (#[trigger] self.model.exact_count@[l] matches Some(c) ==> occurrences(
                w,
                l as u8,
            ) == c)
        &&& forall|l: int|
            0 <= l < 26 && #[trigger] self.status@[l] == AlphStatus::PosWrong ==> occurrences(
                w,
                l as u8,
            ) > 0
    }

    /// The words of `dictionary` that agree with everything learned, in order.
    pub open spec fn candidates(&self, dictionary: Seq<Word>) -> Seq<Word> {
        dictionary.filter(|w: Word| self.admits(w@))
    }

    /// `new` is `old` with the feedback of one guess merged in.
    pub open spec fn is_update_of(
        new: &Knowledge,
        old: &Knowledge,
        guess: Seq<u8>,
        v: Seq<Verdict>,
    ) -> bool {
        &&& ConstraintModel::is_update_of(&new.model, &old.model, guess, v)
        &&& new.status@.len() == 26
        &&& forall|l: int|
            0 <= l < 26 ==> #[trigger] new.status@[l] == merged_in(
                old.status@[l],
                guess,
                v,
                l as u8,
                5,
            )
    }

    /// Nothing learned yet.
    pub fn new() -> (r: Knowledge)
        ensures
            r.wf(),
            forall|w: Word| w.wf() ==> r.admits(#[trigger] w@),
    {
        let r = Knowledge { status: AlphabetStatus::new(), model: ConstraintModel::new() };
        assert forall|w: Word| w.wf() implies r.admits(#[trigger] w@) by {
            assert forall|i: int| 0 <= i < 5 implies !r.model.forbidden@[#[trigger] w@[i] as int]@[i] by {
                assert(w@[i] < 26);
            }
        }
        r
    }

    /// Merges the feedback of one guess. Feedback that contradicts what is
    /// known is refused and changes nothing.
    pub fn update(&mut self, guess: &Word, verdicts: &[Verdict; 5]) -> (r: Result<
        (),
        EngineError,
    >)
        requires
            old(self).wf(),
            guess.wf(),
        ensures
            final(self).wf(),
            r is Err <==> old(self).model.contradicts(guess@, verdicts@),
            r is Err ==> r == Err::<(), EngineError>(EngineError::ContradictoryConstraint)
                && final(self).model == old(self).model && final(self).status@ == old(
                self,
            ).status@,
            r is Ok ==> Knowledge::is_update_of(final(self), old(self), guess@, verdicts@),
            forall|l: int|
                0 <= l < 26 ==> priority(#[trigger] final(self).status@[l]) >= priority(
                    old(self).status@[l],
                ),
    {
        let ghost before_status = self.status@;
        let ghost before_model = self.model;
        match self.model.update(guess, verdicts) {
            Ok(()) => {},
            Err(e) => {
                return Err(e);
            },
        }
        self.status.update(guess, verdicts);
        proof {
            lemma_right_is_locked(before_status, before_model, self.status@, self.model, guess@, verdicts@);
        }
        Ok(())
    }
    /// Whether `w` agrees with everything learned.
    pub fn check_possible(&self, w: &Word) -> (r: bool)
        requires
            self.wf(),
            w.wf(),
        ensures
            r == self.admits(w@),
    {
        let counts = LetterCounter::of_word(w);
        let mut i: usize = 0;
        while i < 5
            invariant
                self.wf(),
                w.wf(),
                0 <= i <= 5,
                forall|j: int|
                    0 <= j < i ==> (#[trigger] self.model.locked@[j] matches Some(l) ==> w@[j]
                        == l),
                forall|j: int| 0 <= j < i ==> !self.model.forbidden@[#[trigger] w@[j] as int]@[j],
            decreases 5 - i,
        {
            let l = w.letters[i];
            if self.model.forbidden[l as usize][i] {
                return false;
            }
            match self.model.locked[i] {
                Some(x) => {
                    if x != l {
                        return false;
                    }
                },
                None => {},
            }
            i += 1;
        }
        let mut l: u8 = 0;
        while l < 26
            invariant
                self.wf(),
                w.wf(),
                0 <= l <= 26,
                counts@.len() == 26,
                forall|m: int| 0 <= m < 26 ==> #[trigger] counts@[m] == occurrences(w@, m as u8),
                forall|j: int|
                    0 <= j < 5 ==> (#[trigger] self.model.locked@[j] matches Some(x) ==> w@[j]
                        == x),
                forall|j: int| 0 <= j < 5 ==> !self.model.forbidden@[#[trigger] w@[j] as int]@[j],
                forall|m: int|
                    0 <= m < l ==> (#[trigger] self.model.exact_count@[m] matches Some(c)
                        ==> occurrences(w@, m as u8) == c),
                forall|m: int|
                    0 <= m < l && #[trigger] self.status@[m] == AlphStatus::PosWrong
                        ==> occurrences(w@, m as u8) > 0,
            decreases 26 - l,
        {
            match self.model.exact_count[l as usize] {
                Some(c) => {
                    if counts.get(l) != c as u32 {
                        return false;
                    }
                },
                None => {},
            }
            if self.status.get(l) == AlphStatus::PosWrong && counts.get(l) == 0 {
                return false;
            }
            l += 1;
        }
        true
    }

    /// The words of `dictionary` that agree with everything learned, in order.
    pub fn filter(&self, dictionary: &Vec<Word>) -> (r: Vec<Word>)
        requires
            self.wf(),
            forall|i: int| 0 <= i < dictionary@.len() ==> (#[trigger] dictionary@[i]).wf(),
        ensures
            r@ == self.candidates(dictionary@),
    {
        let mut r: Vec<Word> = Vec::new();
        let mut i: usize = 0;
        while i < dictionary.len()
            invariant
                self.wf(),
                forall|j: int| 0 <= j < dictionary@.len() ==> (#[trigger] dictionary@[j]).wf(),
                0 <= i <= dictionary@.len(),
                r@ == self.candidates(dictionary@.take(i as int)),
            decreases dictionary@.len() - i,
        {
            let w = dictionary[i];
            let keep = self.check_possible(&w);
            proof {
                assert(dictionary@.take(i as int + 1) =~= dictionary@.take(i as int).push(w));
                dictionary@.take(i as int).lemma_filter_push(w, |x: Word| self.admits(x@));
            }
            if keep {
                r.push(w);
            }
            i += 1;
        }
        assert(dictionary@.take(i as int) =~= dictionary@);
        r
    }
}

/// Filtering a list that is already filtered, by the same predicate, gives
/// it back unchanged.
proof fn lemma_seq_filter_idempotent<A>(s: Seq<A>, p: spec_fn(A) -> bool)
    ensures
        s.filter(p).filter(p) == s.filter(p),
    decreases s.len(),
{
    reveal(Seq::filter);
    if s.len() > 0 {
        let rest = s.drop_last();
        lemma_seq_filter_idempotent(rest, p);
        if p(s.last()) {
            rest.filter(p).lemma_filter_push(s.last(), p);
        }
    }
}

/// Filtering an already filtered dictionary again with the same knowledge
/// returns the same words.
pub proof fn lemma_filter_idempotent(k: Knowledge, dictionary: Seq<Word>)
    ensures
        k.candidates(k.candidates(dictionary)) == k.candidates(dictionary),
{
    lemma_seq_filter_idempotent(dictionary, |w: Word| k.admits(w@));
}

/// A letter that stands at some position of a word occurs in it.
proof fn lemma_occurs_at(w: Seq<u8>, l: u8, i: int, n: int)
    requires
        0 <= i < n <= w.len(),
        w[i] == l,
    ensures
        count_in(w, l, n) > 0,
    decreases n,
{
    if i < n - 1 {
        lemma_occurs_at(w, l, i, n - 1);
    }
}

/// Merging never lowers a status.
proof fn lemma_merged_monotone(start: AlphStatus, guess: Seq<u8>, v: Seq<Verdict>, l: u8, n: int)
    requires
        0 <= n <= 5,
    ensures
        priority(merged_in(start, guess, v, l, n)) >= priority(start),
    decreases n,
{
    if n > 0 {
        lemma_merged_monotone(start, guess, v, l, n - 1);
    }
}

/// Once the feedback of another guess is merged in, every word that is
/// still a candidate was a candidate before: the candidate set only shrinks
/// from round to round.
pub proof fn lemma_update_narrows(
    old: Knowledge,
    new: Knowledge,
    guess: Seq<u8>,
    v: Seq<Verdict>,
    w: Word,
)
    requires
        guess.len() == 5,
        v.len() == 5,
        old.wf(),
        !old.model.contradicts(guess, v),
        Knowledge::is_update_of(&new, &old, guess, v),
        w.wf(),
        new.admits(w@),
    ensures
        old.admits(w@),
{
    lemma_right_is_locked(old.status@, old.model, new.status@, new.model, guess, v);
    assert forall|i: int|
        0 <= i < 5 implies (#[trigger] old.model.locked@[i] matches Some(l) ==> w@[i] == l) by {
        assert(!old.model.lock_conflict(guess, v, i));
        if let Some(l) = new.model.locked@[i] {
            assert(w@[i] == l);
        }
    }
    assert forall|i: int| 0 <= i < 5 implies !old.model.forbidden@[#[trigger] w@[i] as int]@[i] by {
        assert(w@[i] < 26);
        assert(!new.model.forbidden@[w@[i] as int]@[i]);
    }
    assert forall|l: int| 0 <= l < 26 implies (#[trigger] old.model.exact_count@[l] matches Some(c)
        ==> occurrences(w@, l as u8) == c) by {
        assert(!old.model.count_conflict(guess, v, l));
        lemma_credited_bound(guess, v, l as u8, 5);
        if let Some(c) = new.model.exact_count@[l] {
            assert(occurrences(w@, l as u8) == c);
        }
    }
    assert forall|l: int|
        0 <= l < 26 && #[trigger] old.status@[l] == AlphStatus::PosWrong implies occurrences(
            w@,
            l as u8,
        ) > 0 by {
        lemma_merged_monotone(old.status@[l], guess, v, l as u8, 5);
        if new.status@[l] == AlphStatus::Right {
            let i = choose|i: int| 0 <= i < 5 && new.model.locked@[i] == Some(l as u8);
            lemma_occurs_at(w@, l as u8, i, 5);
        }
    }
}

/// Every candidate after merging in the feedback of another guess was a
/// candidate before.
pub proof fn lemma_candidates_shrink(
    old: Knowledge,
    new: Knowledge,
    guess: Seq<u8>,
    v: Seq<Verdict>,
    dictionary: Seq<Word>,
)
    requires
        guess.len() == 5,
        v.len() == 5,
        old.wf(),
        !old.model.contradicts(guess, v),
        Knowledge::is_update_of(&new, &old, guess, v),
        forall|i: int| 0 <= i < dictionary.len() ==> (#[trigger] dictionary[i]).wf(),
    ensures
        forall|w: Word|
            new.candidates(dictionary).contains(w) ==> old.candidates(dictionary).contains(w),
{
    assert forall|w: Word| new.candidates(dictionary).contains(w) implies old.candidates(
        dictionary,
    ).contains(w) by {
        let p_new = |x: Word| new.admits(x@);
        let p_old = |x: Word| old.admits(x@);
        dictionary.lemma_filter_contains_rev(p_new, w);
        let i = choose|i: int| 0 <= i < dictionary.len() && dictionary[i] == w;
        lemma_update_narrows(old, new, guess, v, w);
        dictionary.lemma_filter_contains(p_old, i);
    }
}

/// After an update, a letter whose status is right is locked somewhere.
proof fn lemma_right_is_locked(
    old_status: Seq<AlphStatus>,
    old_model: ConstraintModel,
    new_status: Seq<AlphStatus>,
    new_model: ConstraintModel,
    guess: Seq<u8>,
    v: Seq<Verdict>,
)
    requires
        old_status.len() == 26,
        new_status.len() == 26,
        forall|l: int|
            0 <= l < 26 && #[trigger] old_status[l] == AlphStatus::Right ==> exists|i: int|
                0 <= i < 5 && old_model.locked@[i] == Some(l as u8),
        ConstraintModel::is_update_of(&new_model, &old_model, guess, v),
        !old_model.contradicts(guess, v),
        forall|l: int|
            0 <= l < 26 ==> #[trigger] new_status[l] == merged_in(old_status[l], guess, v, l as u8, 5),
    ensures
        forall|l: int|
            0 <= l < 26 && #[trigger] new_status[l] == AlphStatus::Right ==> exists|i: int|
                0 <= i < 5 && new_model.locked@[i] == Some(l as u8),
{
    assert forall|l: int|
        0 <= l < 26 && #[trigger] new_status[l] == AlphStatus::Right implies exists|i: int|
            0 <= i < 5 && new_model.locked@[i] == Some(l as u8) by {
        lemma_merged_right(old_status[l], guess, v, l as u8, 5);
        if old_status[l] == AlphStatus::Right {
            let i = choose|i: int| 0 <= i < 5 && old_model.locked@[i] == Some(l as u8);
            if v[i] != Verdict::Correct {
            } else {
                assert(!old_model.lock_conflict(guess, v, i));
            }
            assert(new_model.locked@[i] == Some(l as u8));
        } else {
            let i = choose|i: int| 0 <= i < 5 && guess[i] == l as u8 && v[i] == Verdict::Correct;
            assert(new_model.locked@[i] == Some(l as u8));
        }
    }
}

/// A merged status is right only if it started right or some position of
/// the guess holding the letter was correct.
proof fn lemma_merged_right(start: AlphStatus, guess: Seq<u8>, v: Seq<Verdict>, l: u8, n: int)
    requires
        0 <= n <= 5,
        merged_in(start, guess, v, l, n) == AlphStatus::Right,
    ensures
        start == AlphStatus::Right || exists|i: int|
            0 <= i < n && guess[i] == l && v[i] == Verdict::Correct,
    decreases n,
{
    if n > 0 {
        if merged_in(start, guess, v, l, n - 1) == AlphStatus::Right {
            lemma_merged_right(start, guess, v, l, n - 1);
        } else {
            assert(guess[n - 1] == l && v[n - 1] == Verdict::Correct);
        }
    }
}

/// A merged status is the start or the status of one of the verdicts on the letter.
proof fn lemma_merged_source(start: AlphStatus, guess: Seq<u8>, v: Seq<Verdict>, l: u8, n: int)
    requires
        0 <= n <= 5,
    ensures
        merged_in(start, guess, v, l, n) == start || exists|i: int|
            0 <= i < n && guess[i] == l && merged_in(start, guess, v, l, n) == status_of(v[i]),
    decreases n,
{
    if n > 0 {
        lemma_merged_source(start, guess, v, l, n - 1);
    }
}

/// Feedback computed against the secret never contradicts knowledge that
/// the secret agrees with, and once merged in, the secret still agrees: the
/// secret stays a candidate for the whole game.
pub proof fn lemma_secret_stays_candidate(k: Knowledge, new: Knowledge, secret: Word, guess: Word)
    requires
        k.wf(),
        secret.wf(),
        guess.wf(),
        k.admits(secret@),
    ensures
        !k.model.contradicts(guess@, feedback(secret@, guess@)),
        Knowledge::is_update_of(&new, &k, guess@, feedback(secret@, guess@)) ==> new.admits(
            secret@,
        ),
{
    let s = secret@;
    let g = guess@;
    let v = feedback(s, g);
    assert forall|i: int| 0 <= i < 5 implies !#[trigger] k.model.lock_conflict(g, v, i) && !k.model.forbid_conflict(g, v, i) by {
        assert(v[i] == verdict_at(s, g, i));
        assert(s[i] < 26);
    }
    assert forall|l: int| 0 <= l < 26 implies !#[trigger] k.model.count_conflict(g, v, l) by {
        lemma_credit_matches_multiplicity(s, g, l as u8);
    }
    if Knowledge::is_update_of(&new, &k, g, v) {
        assert forall|i: int|
            0 <= i < 5 implies (#[trigger] new.model.locked@[i] matches Some(x) ==> s[i] == x) by {
            assert(v[i] == verdict_at(s, g, i));
        }
        assert forall|i: int| 0 <= i < 5 implies !new.model.forbidden@[#[trigger] s[i] as int]@[i] by {
            assert(v[i] == verdict_at(s, g, i));
            assert(s[i] < 26);
        }
        assert forall|l: int| 0 <= l < 26 implies (#[trigger] new.model.exact_count@[l] matches Some(
            c,
        ) ==> occurrences(s, l as u8) == c) by {
            lemma_credit_matches_multiplicity(s, g, l as u8);
            lemma_credited_bound(g, v, l as u8, 5);
        }
        assert forall|l: int|
            0 <= l < 26 && #[trigger] new.status@[l] == AlphStatus::PosWrong implies occurrences(
                s,
                l as u8,
            ) > 0 by {
            lemma_merged_source(k.status@[l], g, v, l as u8, 5);
            if new.status@[l] != k.status@[l] {
                let i = choose|i: int|
                    0 <= i < 5 && g[i] == l as u8 && new.status@[l] == status_of(v[i]);
                assert(v[i] == verdict_at(s, g, i));
                lemma_counts_split(s, g, l as u8, 5);
            }
        }
    }
}

} // verus!
