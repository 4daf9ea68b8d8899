use crate::error::EngineError;
use crate::ranking::{lemma_lex_total, lemma_lex_trans, lex_le_from, same_word, word_le, word_le_exec};
use crate::word::{is_ascii_letter, lemma_spelling_injective, spelling, to_lower, Word};
use rand::rngs::StdRng;
use vstd::prelude::*;
use vstd::seq_lib::to_multiset_contains;

verus! {

#[verifier::external_type_specification]
#[verifier::external_body]
pub struct ExStdRng(StdRng);

/// Relies on rand's `SeedableRng::seed_from_u64` for `StdRng`: a generator
/// whose stream is fixed by the seed.
#[verifier::external_body]
fn seeded_rng(seed: u64) -> StdRng {
    <StdRng as rand::SeedableRng>::seed_from_u64(seed)
}

/// Relies on rand's `SliceRandom::shuffle`: it only swaps elements, so the
/// words afterwards are a permutation of the words before.
#[verifier::external_body]
fn shuffle_words(words: &mut Vec<Word>, rng: &mut StdRng)
    ensures
        final(words)@.to_multiset() == old(words)@.to_multiset(),
{
    rand::seq::SliceRandom::shuffle(words.as_mut_slice(), rng);
}

/// Whether every word of the list is well formed.
pub open spec fn all_wf(words: Seq<Word>) -> bool {
    forall|i: int| 0 <= i < words.len() ==> (#[trigger] words[i]).wf()
}

/// Whether `w` is in the list.
pub fn contains_word(words: &Vec<Word>, w: &Word) -> (r: bool)
    ensures
        r == words@.contains(*w),
{
    let mut i: usize = 0;
    while i < words.len()
        invariant
            0 <= i <= words@.len(),
            forall|j: int| 0 <= j < i ==> words@[j] != *w,
        decreases words@.len() - i,
    {
        if same_word(&words[i], w) {
            return true;
        }
        i += 1;
    }
    false
}

/// Whether every word of `part` is in `whole`.
pub fn is_subset(part: &Vec<Word>, whole: &Vec<Word>) -> (r: bool)
    ensures
        r == (forall|i: int| 0 <= i < part@.len() ==> whole@.contains(#[trigger] part@[i])),
{
    let mut i: usize = 0;
    while i < part.len()
        invariant
            0 <= i <= part@.len(),
            forall|j: int| 0 <= j < i ==> whole@.contains(#[trigger] part@[j]),
        decreases part@.len() - i,
    {
        if !contains_word(whole, &part[i]) {
            return false;
        }
        i += 1;
    }
    true
}

/// Whether the words stand in strictly increasing dictionary order.
pub open spec fn strictly_sorted(words: Seq<Word>) -> bool {
    forall|i: int, j: int|
        0 <= i < j < words.len() ==> word_le(#[trigger] words[i]@, #[trigger] words[j]@)
            && words[i]@ != words[j]@
}

/// Two words that each come no later than the other agree from `i` on.
proof fn lemma_word_le_antisym(a: Seq<u8>, b: Seq<u8>, i: int)
    requires
        0 <= i <= 5,
        a.len() == 5,
        b.len() == 5,
        lex_le_from(a, b, i),
        lex_le_from(b, a, i),
    ensures
        forall|j: int| i <= j < 5 ==> a[j] == b[j],
    decreases 5 - i,
{
    if i < 5 {
        lemma_word_le_antisym(a, b, i + 1);
    }
}

/// The distinct words of the list in dictionary order.
pub fn sorted_unique(words: &Vec<Word>) -> (r: Vec<Word>)
    ensures
        strictly_sorted(r@),
        forall|w: Word| r@.contains(w) <==> words@.contains(w),
{
    let mut r: Vec<Word> = Vec::new();
    let mut i: usize = 0;
    while i < words.len()
        invariant
            0 <= i <= words@.len(),
            strictly_sorted(r@),
            forall|w: Word| r@.contains(w) <==> words@.take(i as int).contains(w),
        decreases words@.len() - i,
    {
        let x = words[i];
        let mut p: usize = 0;
        while p < r.len() && word_le_exec(&r[p], &x) && !same_word(&r[p], &x)
            invariant
                0 <= p <= r@.len(),
                forall|j: int| 0 <= j < p ==> word_le(#[trigger] r@[j]@, x@) && r@[j]@ != x@,
            decreases r@.len() - p,
        {
            p += 1;
        }
        assert(words@.take(i as int + 1) =~= words@.take(i as int).push(x));
        if p < r.len() && same_word(&r[p], &x) {
            assert(r@[p as int] == x);
        } else {
            let ghost before = r@;
            r.insert(p, x);
            proof {
                if p < before.len() {
                    lemma_lex_total(before[p as int]@, x@, 0);
                }
                assert forall|a: int, b: int| 0 <= a < b < r@.len() implies word_le(
                    #[trigger] r@[a]@,
                    #[trigger] r@[b]@,
                ) && r@[a]@ != r@[b]@ by {
                    if a == p && b > p {
                        assert(r@[b] == before[b - 1]);
                        if b - 1 > p {
                            lemma_lex_trans(x@, before[p as int]@, before[b - 1]@, 0);
                            if x@ == before[b - 1]@ {
                                lemma_word_le_antisym(x@, before[p as int]@, 0);
                                assert(x@ =~= before[p as int]@);
                            }
                        }
                    } else if a < p && b > p {
                        assert(r@[b] == before[b - 1]);
                    } else if a > p {
                        assert(r@[a] == before[a - 1]);
                        assert(r@[b] == before[b - 1]);
                    }
                }
                assert forall|w: Word| r@.contains(w) <==> words@.take(i as int + 1).contains(
                    w,
                ) by {
                    if r@.contains(w) {
                        let k = choose|k: int| 0 <= k < r@.len() && r@[k] == w;
                        if k < p {
                            assert(before[k] == w);
                        } else if k > p {
                            assert(before[k - 1] == w);
                        }
                    }
                    if before.contains(w) {
                        let k = choose|k: int| 0 <= k < before.len() && before[k] == w;
                        if k < p {
                            assert(r@[k] == w);
                        } else {
                            assert(r@[k + 1] == w);
                        }
                    }
                    if w == x {
                        assert(r@[p as int] == w);
                    }
                    let s = words@.take(i as int);
                    if s.push(x).contains(w) {
                        let k = choose|k: int| 0 <= k < s.push(x).len() && s.push(x)[k] == w;
                        if k < s.len() {
                            assert(s[k] == w);
                        }
                    }
                    if s.contains(w) {
                        let k = choose|k: int| 0 <= k < s.len() && s[k] == w;
                        assert(s.push(x)[k] == w);
                    }
                    if w == x {
                        assert(s.push(x)[s.len() as int] == w);
                    }
                }
            }
        }
        i += 1;
    }
    assert(words@.take(i as int) =~= words@);
    r
}

/// The secret of the round `day` (counted from zero) of a game seeded with
/// `seed`: the final set is shuffled by a generator made from the seed,
/// and the word at index `day` is taken.
pub fn select_secret(final_set: &Vec<Word>, seed: u64, day: u32) -> (r: Result<Word, EngineError>)
    ensures
        r is Ok <==> (day as int) < final_set@.len(),
        r matches Ok(w) ==> final_set@.contains(w),
        r is Err ==> r == Err::<Word, EngineError>(EngineError::DayOutOfRange),
{
    if day as usize >= final_set.len() {
        return Err(EngineError::DayOutOfRange);
    }
    let mut words: Vec<Word> = Vec::new();
    let mut i: usize = 0;
    while i < final_set.len()
        invariant
            0 <= i <= final_set@.len(),
            words@ == final_set@.take(i as int),
        decreases final_set@.len() - i,
    {
        words.push(final_set[i]);
        assert(final_set@.take(i as int + 1) =~= final_set@.take(i as int).push(final_set@[i as int]));
        i += 1;
    }
    assert(final_set@.take(i as int) =~= final_set@);
    let mut rng = seeded_rng(seed);
    let ghost before = words@;
    shuffle_words(&mut words, &mut rng);
    proof {
        broadcast use vstd::seq_lib::to_multiset_len;
        assert(words@.len() == before.to_multiset().len());
    }
    let w = words[day as usize];
    proof {
        assert(words@.contains(w));
        to_multiset_contains(words@, w);
        to_multiset_contains(before, w);
    }
    Ok(w)
}

/// Reads a word list: each line must spell a word, in either case; the
/// result holds each word once, in dictionary order.
pub fn load_word_list(lines: &Vec<String>) -> (r: Result<Vec<Word>, EngineError>)
    ensures
        r is Ok <==> forall|i: int|
            0 <= i < lines@.len() ==> (#[trigger] lines@[i])@.len() == 5 && forall|j: int|
                0 <= j < 5 ==> is_ascii_letter(#[trigger] lines@[i]@[j]),
        r matches Err(e) ==> e == EngineError::InvalidWordLength || e == EngineError::InvalidLetter,
        r matches Ok(words) ==> {
            &&& strictly_sorted(words@)
            &&& all_wf(words@)
            &&& forall|w: Word|
                w.wf() ==> (words@.contains(w) <==> exists|i: int|
                    0 <= i < lines@.len() && spelling(w@) == (#[trigger] lines@[i])@.map_values(
                        |c: char| to_lower(c),
                    ))
        },
{
    let mut parsed: Vec<Word> = Vec::new();
    let mut i: usize = 0;
    while i < lines.len()
        invariant
            0 <= i <= lines@.len(),
            parsed@.len() == i,
            forall|j: int|
                0 <= j < i ==> (#[trigger] lines@[j])@.len() == 5 && forall|k: int|
                    0 <= k < 5 ==> is_ascii_letter(#[trigger] lines@[j]@[k]),
            forall|j: int|
                0 <= j < i ==> (#[trigger] parsed@[j]).wf() && spelling(parsed@[j]@)
                    == lines@[j]@.map_values(|c: char| to_lower(c)),
        decreases lines@.len() - i,
    {
        match Word::parse_ignoring_case(lines[i].as_str()) {
            Ok(w) => parsed.push(w),
            Err(e) => {
                return Err(e);
            },
        }
        i += 1;
    }
    let words = sorted_unique(&parsed);
    proof {
        assert forall|k: int| 0 <= k < words@.len() implies (#[trigger] words@[k]).wf() by {
            assert(parsed@.contains(words@[k]));
        }
        assert forall|w: Word| w.wf() implies (words@.contains(w) <==> exists|i: int|
            0 <= i < lines@.len() && spelling(w@) == (#[trigger] lines@[i])@.map_values(
                |c: char| to_lower(c),
            )) by {
            if words@.contains(w) {
                let j = choose|j: int| 0 <= j < parsed@.len() && parsed@[j] == w;
                assert(spelling(w@) == lines@[j]@.map_values(|c: char| to_lower(c)));
            }
            if exists|i: int|
                0 <= i < lines@.len() && spelling(w@) == (#[trigger] lines@[i])@.map_values(
                    |c: char| to_lower(c),
                ) {
                let j = choose|j: int|
                    0 <= j < lines@.len() && spelling(w@) == (#[trigger] lines@[j])@.map_values(
                        |c: char| to_lower(c),
                    );
                lemma_spelling_injective(w, parsed@[j]);
                assert(parsed@.contains(w));
            }
        }
    }
    Ok(words)
}

} // verus!
