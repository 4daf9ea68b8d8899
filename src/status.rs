use crate::feedback::Verdict;
use crate::word::Word;
use vstd::prelude::*;

verus! {

/// The best-known status of a letter over a whole game.
#[derive(Clone, Copy, Debug, PartialEq, Eq, Structural)]
pub enum AlphStatus {
    /// Seen at its exact position.
    Right,
    /// Seen in the secret, never at its exact position.
    PosWrong,
    /// Only ever marked absent.
    TooMany,
    /// Not guessed yet.
    Unknown,
}

/// A color in which a status is shown.
#[derive(Clone, Copy, Debug, PartialEq, Eq, Structural)]
pub enum Color {
    Red,
    Green,
    Blue,
    Yellow,
    Nothing,
}

/// Merge priority: right over wrong position over absent over unknown.
pub open spec fn priority(s: AlphStatus) -> nat {
    match s {
        AlphStatus::Right => 3,
        AlphStatus::PosWrong => 2,
        AlphStatus::TooMany => 1,
        AlphStatus::Unknown => 0,
    }
}

/// The status that a single verdict gives its letter.
pub open spec fn status_of(v: Verdict) -> AlphStatus {
    match v {
        Verdict::Correct => AlphStatus::Right,
        Verdict::WrongPosition => AlphStatus::PosWrong,
        Verdict::Absent => AlphStatus::TooMany,
    }
}

/// The one-letter code of a status.
pub open spec fn status_code(s: AlphStatus) -> char {
    match s {
        AlphStatus::Right => 'G',
        AlphStatus::PosWrong => 'Y',
        AlphStatus::TooMany => 'R',
        AlphStatus::Unknown => 'X',
    }
}

/// `a` replaced by `b` when `b` has the higher priority.
pub open spec fn upgrade(a: AlphStatus, b: AlphStatus) -> AlphStatus {
    if priority(b) > priority(a) {
        b
    } else {
        a
    }
}

/// The status of letter `l`, starting from `start`, after merging the
/// verdicts of the first `n` positions of `guess`.
pub open spec fn merged_in(
    start: AlphStatus,
    guess: Seq<u8>,
    v: Seq<Verdict>,
    l: u8,
    n: int,
) -> AlphStatus
    decreases n,
{
    if n <= 0 {
        start
    } else if guess[n - 1] == l {
        upgrade(merged_in(start, guess, v, l, n - 1), status_of(v[n - 1]))
    } else {
        merged_in(start, guess, v, l, n - 1)
    }
}

impl AlphStatus {
    /// The merge priority of the status.
    pub fn parse1(&self) -> (r: u32)
        ensures
            r == priority(*self),
    {
        match self {
            AlphStatus::Right => 3,
            AlphStatus::PosWrong => 2,
            AlphStatus::TooMany => 1,
            AlphStatus::Unknown => 0,
        }
    }

    /// The color in which the status is shown.
    pub fn parse2(&self) -> (r: Color)
        ensures
            r == match *self {
                AlphStatus::Right => Color::Green,
                AlphStatus::PosWrong => Color::Yellow,
                AlphStatus::TooMany => Color::Red,
                AlphStatus::Unknown => Color::Nothing,
            },
    {
        match self {
            AlphStatus::Right => Color::Green,
            AlphStatus::PosWrong => Color::Yellow,
            AlphStatus::TooMany => Color::Red,
            AlphStatus::Unknown => Color::Nothing,
        }
    }

    /// The one-letter code of the status: `G`, `Y`, `R` or `X`.
    pub fn parse3(&self) -> (r: String)
        ensures
            r@ == seq![status_code(*self)],
    {
        let r = match self {
            AlphStatus::Right => String::from_str("G"),
            AlphStatus::PosWrong => String::from_str("Y"),
            AlphStatus::TooMany => String::from_str("R"),
            AlphStatus::Unknown => String::from_str("X"),
        };
        proof {
            reveal_strlit("G");
            reveal_strlit("Y");
            reveal_strlit("R");
            reveal_strlit("X");
        }
        assert(r@ =~= seq![status_code(*self)]);
        r
    }

    /// The status that a verdict gives its letter.
    pub fn from_verdict(v: Verdict) -> (r: AlphStatus)
        ensures
            r == status_of(v),
    {
        match v {
            Verdict::Correct => AlphStatus::Right,
            Verdict::WrongPosition => AlphStatus::PosWrong,
            Verdict::Absent => AlphStatus::TooMany,
        }
    }
}

/// The status of each of the 26 letters.
pub struct AlphabetStatus {
    statuses: [AlphStatus; 26],
}

impl View for AlphabetStatus {
    type V = Seq<AlphStatus>;

    closed spec fn view(&self) -> Seq<AlphStatus> {
        self.statuses@
    }
}

impl AlphabetStatus {
    /// Every letter unknown.
    pub fn new() -> (r: AlphabetStatus)
        ensures
            r@.len() == 26,
            forall|l: int| 0 <= l < 26 ==> #[trigger] r@[l] == AlphStatus::Unknown,
    {
        AlphabetStatus { statuses: [AlphStatus::Unknown; 26] }
    }

    /// The status of letter `l`.
    pub fn get(&self, l: u8) -> (r: AlphStatus)
        requires
            self@.len() == 26,
            l < 26,
        ensures
            r == self@[l as int],
    {
        self.statuses[l as usize]
    }

    /// Merges the verdicts of one guess; a status never loses priority.
    pub fn update(&mut self, guess: &Word, verdicts: &[Verdict; 5])
        requires
            old(self)@.len() == 26,
            guess.wf(),
        ensures
            final(self)@.len() == 26,
            forall|l: int|
                0 <= l < 26 ==> #[trigger] final(self)@[l] == merged_in(
                    old(self)@[l],
                    guess@,
                    verdicts@,
                    l as u8,
                    5,
                ),
            forall|l: int|
                0 <= l < 26 ==> priority(#[trigger] final(self)@[l]) >= priority(old(self)@[l]),
    {
        let ghost start = self@;
        let mut i: usize = 0;
        while i < 5
            invariant
                guess.wf(),
                0 <= i <= 5,
                start.len() == 26,
                self@.len() == 26,
                forall|l: int|
                    0 <= l < 26 ==> #[trigger] self@[l] == merged_in(
                        start[l],
                        guess@,
                        verdicts@,
                        l as u8,
                        i as int,
                    ),
                forall|l: int| 0 <= l < 26 ==> priority(#[trigger] self@[l]) >= priority(start[l]),
            decreases 5 - i,
        {
            let l = guess.letters[i];
            let new_status = AlphStatus::from_verdict(verdicts[i]);
            let old_status = self.statuses[l as usize];
            if old_status.parse1() < new_status.parse1() {
                self.statuses[l as usize] = new_status;
            }
            i += 1;
        }
    }
}

} // verus!
