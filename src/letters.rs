use crate::word::Word;
use vstd::prelude::*;

verus! {

/// Number of positions below `n` at which `w` holds the letter `l`.
pub open spec fn count_in(w: Seq<u8>, l: u8, n: int) -> nat
    decreases n,
{
    if n <= 0 {
        0
    } else {
        count_in(w, l, n - 1) + if w[n - 1] == l {
            1nat
        } else {
            0nat
        }
    }
}

/// How many times the letter `l` occurs in `w`.
pub open spec fn occurrences(w: Seq<u8>, l: u8) -> nat {
    count_in(w, l, w.len() as int)
}

/// One counter per letter of the alphabet.
pub struct LetterCounter {
    counts: [u32; 26],
}

impl View for LetterCounter {
    type V = Seq<u32>;

    closed spec fn view(&self) -> Seq<u32> {
        self.counts@
    }
}

impl LetterCounter {
    /// All 26 counters at zero.
    pub fn new() -> (r: LetterCounter)
        ensures
            r@.len() == 26,
            forall|l: int| 0 <= l < 26 ==> #[trigger] r@[l] == 0,
    {
        LetterCounter { counts: [0u32; 26] }
    }

    /// The counter of letter `l`.
    pub fn get(&self, l: u8) -> (r: u32)
        requires
            self@.len() == 26,
            l < 26,
        ensures
            r == self@[l as int],
    {
        self.counts[l as usize]
    }

    /// Adds one to the counter of letter `l`.
    pub fn increment(&mut self, l: u8)
        requires
            old(self)@.len() == 26,
            l < 26,
            old(self)@[l as int] < u32::MAX,
        ensures
            final(self)@ == old(self)@.update(l as int, (old(self)@[l as int] + 1) as u32),
    {
        let c = self.counts[l as usize];
        self.counts[l as usize] = c + 1;
    }

    /// Takes one from the counter of letter `l`.
    pub fn decrement(&mut self, l: u8)
        requires
            old(self)@.len() == 26,
            l < 26,
            old(self)@[l as int] > 0,
        ensures
            final(self)@ == old(self)@.update(l as int, (old(self)@[l as int] - 1) as u32),
    {
        let c = self.counts[l as usize];
        self.counts[l as usize] = c - 1;
    }

    /// How often each letter occurs in `w`.
    pub fn of_word(w: &Word) -> (r: LetterCounter)
        requires
            w.wf(),
        ensures
            r@.len() == 26,
            forall|l: int| 0 <= l < 26 ==> #[trigger] r@[l] == occurrences(w@, l as u8),
    {
        let mut r = LetterCounter::new();
        let mut i: usize = 0;
        while i < 5
            invariant
                w.wf(),
                0 <= i <= 5,
                r@.len() == 26,
                forall|l: int| 0 <= l < 26 ==> #[trigger] r@[l] == count_in(w@, l as u8, i as int),
            decreases 5 - i,
        {
            let l = w.letters[i];
            proof {
                lemma_count_in_bound(w@, l, i as int);
            }
            r.increment(l);
            i += 1;
        }
        r
    }
}

/// A count over the first `n` positions is at most `n`.
pub proof fn lemma_count_in_bound(w: Seq<u8>, l: u8, n: int)
    ensures
        count_in(w, l, n) <= if n < 0 { 0 } else { n },
    decreases n,
{
    if n > 0 {
        lemma_count_in_bound(w, l, n - 1);
    }
}

} // verus!
