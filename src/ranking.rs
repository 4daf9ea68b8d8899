use crate::feedback::{evaluate, feedback, Verdict};
use crate::word::{lemma_view_injective, Word};
use vstd::prelude::*;
use vstd::seq_lib::{to_multiset_build, to_multiset_insert};

verus! {

/// Number of distinct feedback patterns: three verdicts at five positions.
pub const PATTERN_COUNT: usize = 243;

/// The base-3 digit of a verdict.
pub open spec fn digit(v: Verdict) -> nat {
    match v {
        Verdict::Correct => 2,
        Verdict::WrongPosition => 1,
        Verdict::Absent => 0,
    }
}

/// The code of the verdicts from position `i` on, position `i` weighing 1.
pub open spec fn code_from(v: Seq<Verdict>, i: int) -> nat
    decreases 5 - i,
{
    if i >= 5 {
        0
    } else {
        digit(v[i]) + 3 * code_from(v, i + 1)
    }
}

/// The code of a pattern: position `i` is the base-3 digit of weight `3^i`.
pub open spec fn pattern_code_of(v: Seq<Verdict>) -> nat {
    code_from(v, 0)
}

/// `3^k`.
pub open spec fn pow3(k: nat) -> nat
    decreases k,
{
    if k == 0 {
        1
    } else {
        3 * pow3((k - 1) as nat)
    }
}

/// The powers of three that a five-digit code needs.
proof fn lemma_pow3_five()
    ensures
        pow3(5) == 243,
        forall|k: nat| k <= 4 ==> #[trigger] pow3(k) <= 81,
{
    reveal_with_fuel(pow3, 6);
}

/// The base-3 code of a pattern, in `0..243`.
pub fn pattern_code(v: &[Verdict; 5]) -> (r: u32)
    ensures
        r == pattern_code_of(v@),
        r < PATTERN_COUNT,
{
    let mut acc: u32 = 0;
    let mut i: usize = 5;
    while i > 0
        invariant
            0 <= i <= 5,
            acc == code_from(v@, i as int),
            acc < pow3((5 - i) as nat),
        decreases i,
    {
        i -= 1;
        proof {
            assert(pow3((5 - i) as nat) == 3 * pow3((5 - i - 1) as nat));
            lemma_pow3_five();
        }
        let d: u32 = match v[i] {
            Verdict::Correct => 2,
            Verdict::WrongPosition => 1,
            Verdict::Absent => 0,
        };
        acc = d + 3 * acc;
    }
    proof {
        lemma_pow3_five();
    }
    acc
}

/// Words of `pool` below index `n`, other than `guess`, against which
/// `guess` draws the pattern with code `k`.
pub open spec fn bucket_count(guess: Seq<u8>, pool: Seq<Word>, k: nat, n: int) -> nat
    decreases n,
{
    if n <= 0 {
        0
    } else {
        bucket_count(guess, pool, k, n - 1) + if pool[n - 1]@ != guess && pattern_code_of(
            feedback(pool[n - 1]@, guess),
        ) == k {
            1nat
        } else {
            0nat
        }
    }
}

/// A bucket over the first `n` words holds at most `n`.
proof fn lemma_bucket_count_bound(guess: Seq<u8>, pool: Seq<Word>, k: nat, n: int)
    ensures
        bucket_count(guess, pool, k, n) <= if n < 0 { 0 } else { n },
    decreases n,
{
    if n > 0 {
        lemma_bucket_count_bound(guess, pool, k, n - 1);
    }
}

/// Whether two words are the same word.
pub fn same_word(a: &Word, b: &Word) -> (r: bool)
    ensures
        r == (a@ == b@),
        r == (*a == *b),
{
    let mut i: usize = 0;
    while i < 5
        invariant
            0 <= i <= 5,
            forall|j: int| 0 <= j < i ==> a@[j] == b@[j],
        decreases 5 - i,
    {
        if a.letters[i] != b.letters[i] {
            return false;
        }
        i += 1;
    }
    assert(a@ =~= b@);
    proof {
        lemma_view_injective(*a, *b);
    }
    true
}

/// For each pattern code, how many other words of `pool` would answer
/// `guess` with that pattern if they were the secret.
pub fn pattern_histogram(guess: &Word, pool: &Vec<Word>) -> (r: Vec<usize>)
    requires
        guess.wf(),
        forall|i: int| 0 <= i < pool@.len() ==> (#[trigger] pool@[i]).wf(),
    ensures
        r@.len() == PATTERN_COUNT,
        forall|k: int|
            0 <= k < PATTERN_COUNT ==> #[trigger] r@[k] == bucket_count(
                guess@,
                pool@,
                k as nat,
                pool@.len() as int,
            ),
{
    let mut r: Vec<usize> = Vec::new();
    let mut k: usize = 0;
    while k < PATTERN_COUNT
        invariant
            0 <= k <= PATTERN_COUNT,
            r@.len() == k,
            forall|j: int| 0 <= j < k ==> #[trigger] r@[j] == 0,
        decreases PATTERN_COUNT - k,
    {
        r.push(0);
        k += 1;
    }
    let mut i: usize = 0;
    while i < pool.len()
        invariant
            guess.wf(),
            forall|j: int| 0 <= j < pool@.len() ==> (#[trigger] pool@[j]).wf(),
            0 <= i <= pool@.len(),
            r@.len() == PATTERN_COUNT,
            forall|k: int|
                0 <= k < PATTERN_COUNT ==> #[trigger] r@[k] == bucket_count(
                    guess@,
                    pool@,
                    k as nat,
                    i as int,
                ),
        decreases pool@.len() - i,
    {
        let secret = &pool[i];
        if !same_word(secret, guess) {
            let verdicts = evaluate(secret, guess);
            let code = pattern_code(&verdicts) as usize;
            proof {
                lemma_bucket_count_bound(guess@, pool@, code as nat, i as int);
            }
            let c = r[code];
            r.set(code, c + 1);
        }
        i += 1;
    }
    r
}

/// The pattern histogram of each word of the pool against the rest of it.
pub fn pattern_histograms(pool: &Vec<Word>) -> (r: Vec<Vec<usize>>)
    requires
        forall|i: int| 0 <= i < pool@.len() ==> (#[trigger] pool@[i]).wf(),
    ensures
        r@.len() == pool@.len(),
        forall|i: int| 0 <= i < pool@.len() ==> (#[trigger] r@[i])@.len() == PATTERN_COUNT,
        forall|i: int, k: int|
            0 <= i < pool@.len() && 0 <= k < PATTERN_COUNT ==> #[trigger] r@[i]@[k]
                == bucket_count(pool@[i]@, pool@, k as nat, pool@.len() as int),
{
    let mut r: Vec<Vec<usize>> = Vec::new();
    let mut i: usize = 0;
    while i < pool.len()
        invariant
            forall|j: int| 0 <= j < pool@.len() ==> (#[trigger] pool@[j]).wf(),
            0 <= i <= pool@.len(),
            r@.len() == i,
            forall|j: int| 0 <= j < i ==> (#[trigger] r@[j])@.len() == PATTERN_COUNT,
            forall|j: int, k: int|
                0 <= j < i && 0 <= k < PATTERN_COUNT ==> #[trigger] r@[j]@[k] == bucket_count(
                    pool@[j]@,
                    pool@,
                    k as nat,
                    pool@.len() as int,
                ),
        decreases pool@.len() - i,
    {
        let h = pattern_histogram(&pool[i], pool);
        r.push(h);
        i += 1;
    }
    r
}

/// With no other word in the pool, every bucket is empty, so the entropy
/// of the pattern distribution is zero.
pub proof fn lemma_lone_pool_empty_histogram(guess: Seq<u8>, pool: Seq<Word>, k: nat)
    requires
        forall|i: int| 0 <= i < pool.len() ==> (#[trigger] pool[i])@ == guess,
    ensures
        bucket_count(guess, pool, k, pool.len() as int) == 0,
{
    lemma_lone_pool_prefix(guess, pool, k, pool.len() as int);
}

/// Every bucket over a prefix of a pool of copies of the guess is empty.
proof fn lemma_lone_pool_prefix(guess: Seq<u8>, pool: Seq<Word>, k: nat, n: int)
    requires
        n <= pool.len(),
        forall|i: int| 0 <= i < pool.len() ==> (#[trigger] pool[i])@ == guess,
    ensures
        bucket_count(guess, pool, k, n) == 0,
    decreases n,
{
    if n > 0 {
        lemma_lone_pool_prefix(guess, pool, k, n - 1);
        assert(pool[n - 1]@ == guess);
    }
}

/// Dictionary order of two words, deciding at the first position from `i`
/// on where they differ.
pub open spec fn lex_le_from(a: Seq<u8>, b: Seq<u8>, i: int) -> bool
    decreases 5 - i,
{
    if i >= 5 {
        true
    } else if a[i] != b[i] {
        a[i] < b[i]
    } else {
        lex_le_from(a, b, i + 1)
    }
}

/// Whether word `a` comes no later than word `b` in dictionary order.
pub open spec fn word_le(a: Seq<u8>, b: Seq<u8>) -> bool {
    lex_le_from(a, b, 0)
}

/// Whether entry `a` may stand before entry `b` in a ranking: a higher
/// score first, and on equal scores the word that comes first.
pub open spec fn ranks_no_later(a: (Word, u64), b: (Word, u64)) -> bool {
    a.1 > b.1 || (a.1 == b.1 && word_le(a.0@, b.0@))
}

/// Whether a ranking is in order.
pub open spec fn is_ranked(r: Seq<(Word, u64)>) -> bool {
    forall|i: int, j: int| 0 <= i < j < r.len() ==> ranks_no_later(#[trigger] r[i], #[trigger] r[j])
}

/// The entries that pair each word with its score.
pub open spec fn scored(words: Seq<Word>, scores: Seq<u64>) -> Seq<(Word, u64)> {
    Seq::new(words.len(), |i: int| (words[i], scores[i]))
}

/// Dictionary order is total.
pub proof fn lemma_lex_total(a: Seq<u8>, b: Seq<u8>, i: int)
    ensures
        lex_le_from(a, b, i) || lex_le_from(b, a, i),
    decreases 5 - i,
{
    if i < 5 && a[i] == b[i] {
        lemma_lex_total(a, b, i + 1);
    }
}

/// Dictionary order is transitive.
pub proof fn lemma_lex_trans(a: Seq<u8>, b: Seq<u8>, c: Seq<u8>, i: int)
    requires
        lex_le_from(a, b, i),
        lex_le_from(b, c, i),
    ensures
        lex_le_from(a, c, i),
    decreases 5 - i,
{
    if i < 5 && a[i] == b[i] && b[i] == c[i] {
        lemma_lex_trans(a, b, c, i + 1);
    }
}

/// Any two entries can be ordered one way or the other.
proof fn lemma_ranks_total(a: (Word, u64), b: (Word, u64))
    ensures
        ranks_no_later(a, b) || ranks_no_later(b, a),
{
    lemma_lex_total(a.0@, b.0@, 0);
}

/// The ranking order is transitive.
proof fn lemma_ranks_trans(a: (Word, u64), b: (Word, u64), c: (Word, u64))
    requires
        ranks_no_later(a, b),
        ranks_no_later(b, c),
    ensures
        ranks_no_later(a, c),
{
    if a.1 == b.1 && b.1 == c.1 {
        lemma_lex_trans(a.0@, b.0@, c.0@, 0);
    }
}

/// Whether word `a` comes no later than word `b` in dictionary order.
pub fn word_le_exec(a: &Word, b: &Word) -> (r: bool)
    ensures
        r == word_le(a@, b@),
{
    let mut i: usize = 0;
    while i < 5
        invariant
            0 <= i <= 5,
            word_le(a@, b@) == lex_le_from(a@, b@, i as int),
        decreases 5 - i,
    {
        if a.letters[i] != b.letters[i] {
            return a.letters[i] < b.letters[i];
        }
        i += 1;
    }
    true
}

/// Whether entry `a` may stand before entry `b` in a ranking.
fn ranks_no_later_exec(a: &(Word, u64), b: &(Word, u64)) -> (r: bool)
    ensures
        r == ranks_no_later(*a, *b),
{
    a.1 > b.1 || (a.1 == b.1 && word_le_exec(&a.0, &b.0))
}

/// Puts each word with its score in ranking order: descending score, and
/// on equal scores ascending dictionary order.
pub fn rank(candidates: &Vec<Word>, scores: &Vec<u64>) -> (r: Vec<(Word, u64)>)
    requires
        candidates@.len() == scores@.len(),
    ensures
        is_ranked(r@),
        r@.to_multiset() == scored(candidates@, scores@).to_multiset(),
{
    let ghost all = scored(candidates@, scores@);
    let mut r: Vec<(Word, u64)> = Vec::new();
    assert(r@ =~= all.take(0));
    let mut i: usize = 0;
    while i < candidates.len()
        invariant
            candidates@.len() == scores@.len(),
            all == scored(candidates@, scores@),
            0 <= i <= candidates@.len(),
            is_ranked(r@),
            r@.to_multiset() == all.take(i as int).to_multiset(),
        decreases candidates@.len() - i,
    {
        let x = (candidates[i], scores[i]);
        let mut p: usize = 0;
        while p < r.len() && ranks_no_later_exec(&r[p], &x)
            invariant
                0 <= p <= r@.len(),
                forall|j: int| 0 <= j < p ==> ranks_no_later(#[trigger] r@[j], x),
            decreases r@.len() - p,
        {
            p += 1;
        }
        let ghost before = r@;
        r.insert(p, x);
        proof {
            assert(all.take(i as int + 1) =~= all.take(i as int).push(x));
            to_multiset_build(all.take(i as int), x);
            to_multiset_insert(before, p as int, x);
            if p < before.len() {
                lemma_ranks_total(before[p as int], x);
            }
            assert forall|a: int, b: int| 0 <= a < b < r@.len() implies ranks_no_later(
                #[trigger] r@[a],
                #[trigger] r@[b],
            ) by {
                if a == p && b > p {
                    assert(r@[b] == before[b - 1]);
                    if b - 1 > p {
                        assert(ranks_no_later(before[p as int], before[b - 1]));
                        lemma_ranks_trans(x, before[p as int], before[b - 1]);
                    }
                } else if a < p && b == p {
                } else if a < p && b > p {
                    assert(r@[b] == before[b - 1]);
                    assert(ranks_no_later(before[a], before[b - 1]));
                } else if a > p {
                    assert(ranks_no_later(before[a - 1], before[b - 1]));
                }
            }
        }
        i += 1;
    }
    assert(all.take(i as int) =~= all);
    r
}

} // verus!
