use crate::error::EngineError;
use crate::ranking::{rank, same_word, is_ranked, scored};
use crate::word::{is_ascii_letter, lemma_spelling_injective, spelling, to_lower, upper_char_of, Word};
use vstd::prelude::*;

verus! {

/// `a + 1`, held at `u64::MAX`.
pub open spec fn bump(a: u64) -> u64 {
    if a < u64::MAX {
        (a + 1) as u64
    } else {
        a
    }
}

/// `a + b`, held at `u64::MAX`.
pub open spec fn capped_sum(a: u64, b: nat) -> u64 {
    if a + b <= u64::MAX {
        (a + b) as u64
    } else {
        u64::MAX
    }
}

/// How often each word was guessed; each word stands in one entry.
pub struct UsageTally {
    entries: Vec<(Word, u64)>,
}

impl View for UsageTally {
    type V = Seq<(Word, u64)>;

    closed spec fn view(&self) -> Seq<(Word, u64)> {
        self.entries@
    }
}

/// The count that the entries give a word (zero when absent).
pub open spec fn count_in_tally(entries: Seq<(Word, u64)>, w: Word) -> u64
    decreases entries.len(),
{
    if entries.len() == 0 {
        0
    } else if entries.last().0 == w {
        entries.last().1
    } else {
        count_in_tally(entries.drop_last(), w)
    }
}

/// No word stands in two entries.
pub open spec fn unique_words(entries: Seq<(Word, u64)>) -> bool {
    forall|i: int, j: int|
        0 <= i < j < entries.len() ==> (#[trigger] entries[i]).0 != (#[trigger] entries[j]).0
}

/// In a tally without repeated words, an entry's count is the word's count.
proof fn lemma_count_at(entries: Seq<(Word, u64)>, i: int)
    requires
        unique_words(entries),
        0 <= i < entries.len(),
    ensures
        count_in_tally(entries, entries[i].0) == entries[i].1,
    decreases entries.len(),
{
    if i < entries.len() - 1 {
        assert(entries.drop_last()[i] == entries[i]);
        lemma_count_at(entries.drop_last(), i);
    }
}

/// A word without an entry has count zero.
proof fn lemma_count_missing(entries: Seq<(Word, u64)>, w: Word)
    requires
        forall|i: int| 0 <= i < entries.len() ==> (#[trigger] entries[i]).0 != w,
    ensures
        count_in_tally(entries, w) == 0,
    decreases entries.len(),
{
    if entries.len() > 0 {
        assert(entries.last() == entries[entries.len() - 1]);
        lemma_count_missing(entries.drop_last(), w);
    }
}

/// Changing another word's entry leaves a word's count alone.
proof fn lemma_count_update(entries: Seq<(Word, u64)>, i: int, c: u64, w: Word)
    requires
        unique_words(entries),
        0 <= i < entries.len(),
        entries[i].0 != w,
    ensures
        count_in_tally(entries.update(i, (entries[i].0, c)), w) == count_in_tally(entries, w),
    decreases entries.len(),
{
    let e2 = entries.update(i, (entries[i].0, c));
    if i < entries.len() - 1 {
        assert(e2.drop_last() =~= entries.drop_last().update(i, (entries[i].0, c)));
        assert(entries.drop_last()[i] == entries[i]);
        lemma_count_update(entries.drop_last(), i, c, w);
    } else {
        assert(e2.drop_last() =~= entries.drop_last());
    }
}

impl UsageTally {
    /// Each word in at most one entry.
    pub closed spec fn wf(&self) -> bool {
        unique_words(self.entries@)
    }

    /// How often `w` was recorded, held at `u64::MAX`.
    pub closed spec fn count(&self, w: Word) -> u64 {
        count_in_tally(self.entries@, w)
    }

    /// Nothing recorded.
    pub fn new() -> (r: UsageTally)
        ensures
            r.wf(),
            forall|w: Word| r.count(w) == 0,
    {
        UsageTally { entries: Vec::new() }
    }

    /// Records one use of `w`.
    pub fn record(&mut self, w: &Word)
        requires
            old(self).wf(),
        ensures
            final(self).wf(),
            final(self).count(*w) == bump(old(self).count(*w)),
            forall|x: Word| x != *w ==> final(self).count(x) == old(self).count(x),
    {
        let mut i: usize = 0;
        while i < self.entries.len()
            invariant
                unique_words(self.entries@),
                self.entries@ == old(self).entries@,
                0 <= i <= self.entries@.len(),
                forall|j: int| 0 <= j < i ==> (#[trigger] self.entries@[j]).0 != *w,
            decreases self.entries@.len() - i,
        {
            if same_word(&self.entries[i].0, w) {
                let c = self.entries[i].1;
                let n = if c < u64::MAX {
                    c + 1
                } else {
                    c
                };
                let ghost before = self.entries@;
                proof {
                    lemma_count_at(before, i as int);
                }
                self.entries.set(i, (*w, n));
                proof {
                    assert(self.entries@ == before.update(i as int, (before[i as int].0, n)));
                    assert forall|a: int, b: int| 0 <= a < b < self.entries@.len() implies (
                    #[trigger] self.entries@[a]).0 != (#[trigger] self.entries@[b]).0 by {
                        assert(before[a].0 != before[b].0);
                    }
                    lemma_count_at(self.entries@, i as int);
                    assert forall|x: Word| x != *w implies count_in_tally(self.entries@, x)
                        == count_in_tally(before, x) by {
                        lemma_count_update(before, i as int, n, x);
                    }
                }
                return;
            }
            i += 1;
        }
        let ghost before = self.entries@;
        proof {
            lemma_count_missing(before, *w);
        }
        self.entries.push((*w, 1));
        assert(self.entries@.drop_last() =~= before);
        assert(self.entries@.last() == (*w, 1u64));
        assert forall|a: int, b: int| 0 <= a < b < self.entries@.len() implies (
        #[trigger] self.entries@[a]).0 != (#[trigger] self.entries@[b]).0 by {
            if b < before.len() {
                assert(before[a].0 != before[b].0);
            } else {
                assert(before[a].0 != *w);
            }
        }
    }

    /// The recorded words with their counts, most used first and, on equal
    /// counts, in dictionary order.
    pub fn top(&self) -> (r: Vec<(Word, u64)>)
        requires
            self.wf(),
        ensures
            is_ranked(r@),
            r@.to_multiset() == self@.to_multiset(),
    {
        let mut words: Vec<Word> = Vec::new();
        let mut counts: Vec<u64> = Vec::new();
        let mut i: usize = 0;
        while i < self.entries.len()
            invariant
                0 <= i <= self.entries@.len(),
                words@.len() == i,
                counts@.len() == i,
                forall|j: int|
                    0 <= j < i ==> #[trigger] words@[j] == self.entries@[j].0 && counts@[j]
                        == self.entries@[j].1,
            decreases self.entries@.len() - i,
        {
            words.push(self.entries[i].0);
            counts.push(self.entries[i].1);
            i += 1;
        }
        assert(scored(words@, counts@) =~= self.entries@);
        rank(&words, &counts)
    }
}

/// One finished round as kept in the game history: the secret and the
/// guesses, as text.
pub struct Game {
    pub answer: String,
    pub guesses: Vec<String>,
}

impl Game {
    /// An empty record.
    pub fn new() -> (r: Game)
        ensures
            r.answer@ == Seq::<char>::empty(),
            r.guesses@.len() == 0,
    {
        Game { answer: String::new(), guesses: Vec::new() }
    }

    /// The record of a round: the secret and the guesses in upper case.
    pub fn of_round(answer: &Word, guesses: &Vec<Word>) -> (r: Game)
        requires
            answer.wf(),
            forall|i: int| 0 <= i < guesses@.len() ==> (#[trigger] guesses@[i]).wf(),
        ensures
            r.answer@ == answer@.map_values(|l: u8| upper_char_of(l)),
            r.guesses@.len() == guesses@.len(),
            forall|i: int|
                0 <= i < guesses@.len() ==> (#[trigger] r.guesses@[i])@ == guesses@[i]@.map_values(
                    |l: u8| upper_char_of(l),
                ),
    {
        let mut texts: Vec<String> = Vec::new();
        let mut i: usize = 0;
        while i < guesses.len()
            invariant
                forall|j: int| 0 <= j < guesses@.len() ==> (#[trigger] guesses@[j]).wf(),
                0 <= i <= guesses@.len(),
                texts@.len() == i,
                forall|j: int|
                    0 <= j < i ==> (#[trigger] texts@[j])@ == guesses@[j]@.map_values(
                        |l: u8| upper_char_of(l),
                    ),
            decreases guesses@.len() - i,
        {
            texts.push(guesses[i].upper_text());
            i += 1;
        }
        Game { answer: answer.upper_text(), guesses: texts }
    }
}

/// Whether two texts are equal.
pub fn same_text(a: &str, b: &str) -> (r: bool)
    ensures
        r == (a@ == b@),
{
    let n = a.unicode_len();
    if n != b.unicode_len() {
        return false;
    }
    let mut i: usize = 0;
    while i < n
        invariant
            n == a@.len(),
            n == b@.len(),
            0 <= i <= n,
            forall|j: int| 0 <= j < i ==> a@[j] == b@[j],
        decreases n - i,
    {
        if a.get_char(i) != b.get_char(i) {
            return false;
        }
        i += 1;
    }
    assert(a@ =~= b@);
    true
}

/// Whether a recorded game was won: its last guess is the answer.
pub open spec fn won_game(g: Game) -> bool {
    g.guesses@.len() > 0 && g.guesses@.last()@ == g.answer@
}

/// Won games among the first `n`.
pub open spec fn wins_in(games: Seq<Game>, n: int) -> nat
    decreases n,
{
    if n <= 0 {
        0
    } else {
        wins_in(games, n - 1) + if won_game(games[n - 1]) {
            1nat
        } else {
            0nat
        }
    }
}

/// Guesses of the won games among the first `n`.
pub open spec fn tries_in(games: Seq<Game>, n: int) -> nat
    decreases n,
{
    if n <= 0 {
        0
    } else {
        tries_in(games, n - 1) + if won_game(games[n - 1]) {
            games[n - 1].guesses@.len()
        } else {
            0nat
        }
    }
}

/// At most `n` of the first `n` games are won.
proof fn lemma_wins_bound(games: Seq<Game>, n: int)
    ensures
        wins_in(games, n) <= if n < 0 { 0 } else { n },
    decreases n,
{
    if n > 0 {
        lemma_wins_bound(games, n - 1);
    }
}

/// How often `x` stands among the first `n` words of the list.
pub open spec fn times_in(words: Seq<Word>, x: Word, n: int) -> nat
    decreases n,
{
    if n <= 0 {
        0
    } else {
        times_in(words, x, n - 1) + if words[n - 1] == x {
            1nat
        } else {
            0nat
        }
    }
}

/// Whether a recorded guess names the word `x`: five letters that spell
/// `x` in either case.
pub open spec fn text_names(s: Seq<char>, x: Word) -> bool {
    &&& s.len() == 5
    &&& forall|i: int| 0 <= i < 5 ==> is_ascii_letter(#[trigger] s[i])
    &&& spelling(x@) == s.map_values(|c: char| to_lower(c))
}

/// Guesses among the first `n` of a game that name `x`.
pub open spec fn uses_in_game(g: Game, x: Word, n: int) -> nat
    decreases n,
{
    if n <= 0 {
        0
    } else {
        uses_in_game(g, x, n - 1) + if text_names(g.guesses@[n - 1]@, x) {
            1nat
        } else {
            0nat
        }
    }
}

/// Guesses of the won games among the first `n` that name `x`.
pub open spec fn usage_in(games: Seq<Game>, x: Word, n: int) -> nat
    decreases n,
{
    if n <= 0 {
        0
    } else {
        usage_in(games, x, n - 1) + if won_game(games[n - 1]) {
            uses_in_game(games[n - 1], x, games[n - 1].guesses@.len() as int)
        } else {
            0nat
        }
    }
}

/// Counts over several rounds.
pub struct Stats {
    pub rounds: u64,
    pub wins: u64,
    pub tries: u64,
    pub usage: UsageTally,
}

impl Stats {
    /// No round played.
    pub fn new() -> (r: Stats)
        ensures
            r.rounds == 0 && r.wins == 0 && r.tries == 0,
            r.usage.wf(),
            forall|w: Word| r.usage.count(w) == 0,
    {
        Stats { rounds: 0, wins: 0, tries: 0, usage: UsageTally::new() }
    }

    /// Counts a finished round: a round, a win and its guesses when won, and
    /// a use of each guess.
    pub fn record_round(&mut self, won: bool, guesses: &Vec<Word>)
        requires
            old(self).usage.wf(),
        ensures
            final(self).usage.wf(),
            final(self).rounds == bump(old(self).rounds),
            final(self).wins == if won {
                bump(old(self).wins)
            } else {
                old(self).wins
            },
            final(self).tries == if won {
                capped_sum(old(self).tries, guesses@.len())
            } else {
                old(self).tries
            },
            forall|x: Word|
                #[trigger] final(self).usage.count(x) == capped_sum(
                    old(self).usage.count(x),
                    times_in(guesses@, x, guesses@.len() as int),
                ),
    {
        if self.rounds < u64::MAX {
            self.rounds = self.rounds + 1;
        }
        if won {
            if self.wins < u64::MAX {
                self.wins = self.wins + 1;
            }
            let n = guesses.len() as u64;
            self.tries = if self.tries <= u64::MAX - n {
                self.tries + n
            } else {
                u64::MAX
            };
        }
        let ghost rounds = self.rounds;
        let ghost wins = self.wins;
        let ghost tries = self.tries;
        let ghost start = old(self).usage;
        let mut i: usize = 0;
        while i < guesses.len()
            invariant
                self.usage.wf(),
                forall|x: Word|
                    #[trigger] self.usage.count(x) == capped_sum(
                        start.count(x),
                        times_in(guesses@, x, i as int),
                    ),
                self.rounds == rounds,
                self.wins == wins,
                self.tries == tries,
                0 <= i <= guesses@.len(),
            decreases guesses@.len() - i,
        {
            self.usage.record(&guesses[i]);
            i += 1;
        }
    }
}

/// All rounds played so far.
pub struct State {
    pub total_rounds: u32,
    pub games: Vec<Game>,
}

impl State {
    /// No round played.
    pub fn new() -> (r: State)
        ensures
            r.total_rounds == 0,
            r.games@.len() == 0,
    {
        State { total_rounds: 0, games: Vec::new() }
    }

    /// Adds a finished round.
    pub fn record(&mut self, game: Game)
        requires
            old(self).total_rounds < u32::MAX,
        ensures
            final(self).total_rounds == old(self).total_rounds + 1,
            final(self).games@ == old(self).games@.push(game),
    {
        self.total_rounds = self.total_rounds + 1;
        self.games.push(game);
    }

    /// The counts that the history holds: every round, and the wins with
    /// their guesses. Each guess of a won game that spells a word (in either
    /// case) counts as a use of it. The number of rounds must match the
    /// number of games.
    pub fn stats(&self) -> (r: Result<Stats, EngineError>)
        ensures
            r is Err <==> self.games@.len() != self.total_rounds,
            r is Err ==> r == Err::<Stats, EngineError>(EngineError::RoundCountMismatch),
            r matches Ok(s) ==> {
                &&& s.usage.wf()
                &&& s.rounds == self.total_rounds
                &&& s.wins == wins_in(self.games@, self.games@.len() as int)
                &&& s.tries == capped_sum(0, tries_in(self.games@, self.games@.len() as int))
                &&& forall|x: Word|
                    x.wf() ==> #[trigger] s.usage.count(x) == capped_sum(
                        0,
                        usage_in(self.games@, x, self.games@.len() as int),
                    )
            },
    {
        if self.games.len() != self.total_rounds as usize {
            return Err(EngineError::RoundCountMismatch);
        }
        let mut s = Stats::new();
        s.rounds = self.total_rounds as u64;
        let mut i: usize = 0;
        while i < self.games.len()
            invariant
                0 <= i <= self.games@.len(),
                s.usage.wf(),
                s.rounds == self.total_rounds,
                s.wins == wins_in(self.games@, i as int),
                s.tries == capped_sum(0, tries_in(self.games@, i as int)),
                forall|x: Word|
                    x.wf() ==> #[trigger] s.usage.count(x) == capped_sum(
                        0,
                        usage_in(self.games@, x, i as int),
                    ),
            decreases self.games@.len() - i,
        {
            let game = &self.games[i];
            let n = game.guesses.len();
            proof {
                lemma_wins_bound(self.games@, i as int);
            }
            if n > 0 && same_text(game.guesses[n - 1].as_str(), game.answer.as_str()) {
                assert(game.guesses@.last() == game.guesses@[n - 1]);
                s.wins = s.wins + 1;
                s.tries = if s.tries <= u64::MAX - n as u64 {
                    s.tries + n as u64
                } else {
                    u64::MAX
                };
                let mut j: usize = 0;
                while j < n
                    invariant
                        n == game.guesses@.len(),
                        0 <= j <= n,
                        s.usage.wf(),
                        s.rounds == self.total_rounds,
                        s.wins == wins_in(self.games@, i as int + 1),
                        s.tries == capped_sum(0, tries_in(self.games@, i as int + 1)),
                        *game == self.games@[i as int],
                        forall|x: Word|
                            x.wf() ==> #[trigger] s.usage.count(x) == capped_sum(
                                0,
                                usage_in(self.games@, x, i as int) + uses_in_game(*game, x, j as int),
                            ),
                    decreases n - j,
                {
                    let text = game.guesses[j].as_str();
                    match Word::parse_ignoring_case(text) {
                        Ok(w) => {
                            s.usage.record(&w);
                            proof {
                                assert forall|x: Word| x.wf() && x != w implies !text_names(text@, x) by {
                                    if text_names(text@, x) {
                                        lemma_spelling_injective(x, w);
                                    }
                                }
                            }
                        },
                        Err(_) => {},
                    }
                    j += 1;
                }
            }
            i += 1;
        }
        Ok(s)
    }
}

/// Settings read from a configuration file; an absent one leaves the
/// command line or the default in charge.
pub struct Config {
    pub random: Option<bool>,
    pub difficult: Option<bool>,
    pub stats: Option<bool>,
    pub day: Option<u32>,
    pub seed: Option<u64>,
    pub final_set: Option<String>,
    pub acceptable_set: Option<String>,
    pub state: Option<String>,
    pub word: Option<String>,
}

impl Config {
    /// No setting given.
    pub fn new() -> (r: Config)
        ensures
            r.random is None && r.difficult is None && r.stats is None && r.day is None
                && r.seed is None && r.final_set is None && r.acceptable_set is None
                && r.state is None && r.word is None,
    {
        Config {
            random: None,
            difficult: None,
            stats: None,
            day: None,
            seed: None,
            final_set: None,
            acceptable_set: None,
            state: None,
            word: None,
        }
    }
}

} // verus!
