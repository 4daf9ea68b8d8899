use crate::error::EngineError;
use vstd::prelude::*;

verus! {

/// Number of letters in every word.
pub const WORD_LEN: usize = 5;

/// Size of the closed lowercase alphabet.
pub const ALPHABET_SIZE: usize = 26;

/// The character that a letter offset stands for (`0` is `'a'`).
pub open spec fn char_of(l: u8) -> char {
    (l + 97) as char
}

/// Whether `c` is one of the 26 lowercase ASCII letters.
pub open spec fn is_lower_letter(c: char) -> bool {
    'a' <= c && c <= 'z'
}

/// Whether `s` spells a word: exactly five lowercase letters.
pub open spec fn spells_word(s: Seq<char>) -> bool {
    s.len() == 5 && forall|i: int| 0 <= i < 5 ==> is_lower_letter(#[trigger] s[i])
}

/// The characters of a sequence of letter offsets.
pub open spec fn spelling(w: Seq<u8>) -> Seq<char> {
    w.map_values(|l: u8| char_of(l))
}

/// The character that a letter offset stands for, in upper case.
pub open spec fn upper_char_of(l: u8) -> char {
    (l + 65) as char
}

/// Whether `c` is an ASCII letter of either case.
pub open spec fn is_ascii_letter(c: char) -> bool {
    is_lower_letter(c) || ('A' <= c && c <= 'Z')
}

/// `c` with an upper-case ASCII letter turned to lower case.
pub open spec fn to_lower(c: char) -> char {
    if 'A' <= c && c <= 'Z' {
        ((c as u32) + 32) as char
    } else {
        c
    }
}

/// Relies on `String::push`: it appends the character at the end.
#[verifier::external_body]
fn push_char(s: &mut String, c: char)
    ensures
        final(s)@ == old(s)@.push(c),
{
    s.push(c);
}

/// A five-letter word; each letter is kept as its offset from `'a'`.
#[derive(Clone, Copy, Debug, PartialEq, Eq)]
pub struct Word {
    pub letters: [u8; 5],
}

impl View for Word {
    type V = Seq<u8>;

    open spec fn view(&self) -> Seq<u8> {
        self.letters@
    }
}

impl Word {
    /// Every letter is below 26.
    pub open spec fn wf(&self) -> bool {
        forall|i: int| 0 <= i < 5 ==> #[trigger] self.letters@[i] < 26
    }

    /// Reads a word from its text.
    pub fn parse(s: &str) -> (r: Result<Word, EngineError>)
        ensures
            r is Ok <==> spells_word(s@),
            r matches Ok(w) ==> w.wf() && spelling(w@) == s@,
            s@.len() != 5 ==> r == Err::<Word, EngineError>(EngineError::InvalidWordLength),
            s@.len() == 5 && !spells_word(s@) ==> r == Err::<Word, EngineError>(
                EngineError::InvalidLetter,
            ),
    {
        if s.unicode_len() != WORD_LEN {
            return Err(EngineError::InvalidWordLength);
        }
        let mut letters: [u8; 5] = [0u8; 5];
        let mut i: usize = 0;
        while i < WORD_LEN
            invariant
                s@.len() == 5,
                0 <= i <= 5,
                forall|j: int| 0 <= j < i ==> is_lower_letter(#[trigger] s@[j]),
                forall|j: int| 0 <= j < i ==> #[trigger] letters@[j] < 26 && char_of(letters@[j]) == s@[j],
            decreases 5 - i,
        {
            let c = s.get_char(i);
            if c < 'a' || c > 'z' {
                return Err(EngineError::InvalidLetter);
            }
            letters[i] = (c as u32 - 'a' as u32) as u8;
            i += 1;
        }
        let w = Word { letters };
        assert(spelling(w@) =~= s@);
        Ok(w)
    }

    /// Reads a word whose letters may be of either case.
    pub fn parse_ignoring_case(s: &str) -> (r: Result<Word, EngineError>)
        ensures
            r is Ok <==> s@.len() == 5 && forall|i: int| 0 <= i < 5 ==> is_ascii_letter(#[trigger] s@[i]),
            r matches Ok(w) ==> w.wf() && spelling(w@) == s@.map_values(|c: char| to_lower(c)),
            s@.len() != 5 ==> r == Err::<Word, EngineError>(EngineError::InvalidWordLength),
            s@.len() == 5 && r is Err ==> r == Err::<Word, EngineError>(EngineError::InvalidLetter),
    {
        if s.unicode_len() != WORD_LEN {
            return Err(EngineError::InvalidWordLength);
        }
        let mut letters: [u8; 5] = [0u8; 5];
        let mut i: usize = 0;
        while i < WORD_LEN
            invariant
                s@.len() == 5,
                0 <= i <= 5,
                forall|j: int| 0 <= j < i ==> is_ascii_letter(#[trigger] s@[j]),
                forall|j: int|
                    0 <= j < i ==> #[trigger] letters@[j] < 26 && char_of(letters@[j]) == to_lower(
                        s@[j],
                    ),
            decreases 5 - i,
        {
            let c = s.get_char(i);
            if 'a' <= c && c <= 'z' {
                letters[i] = (c as u32 - 'a' as u32) as u8;
            } else if 'A' <= c && c <= 'Z' {
                letters[i] = (c as u32 - 'A' as u32) as u8;
            } else {
                return Err(EngineError::InvalidLetter);
            }
            i += 1;
        }
        let w = Word { letters };
        assert(spelling(w@) =~= s@.map_values(|c: char| to_lower(c)));
        Ok(w)
    }

    /// The word in upper-case letters.
    pub fn upper_text(&self) -> (r: String)
        requires
            self.wf(),
        ensures
            r@ == self@.map_values(|l: u8| upper_char_of(l)),
    {
        let mut r = String::new();
        let mut i: usize = 0;
        while i < WORD_LEN
            invariant
                self.wf(),
                0 <= i <= 5,
                r@ == self@.take(i as int).map_values(|l: u8| upper_char_of(l)),
            decreases 5 - i,
        {
            let l = self.letters[i];
            push_char(&mut r, (l + 65) as char);
            assert(self@.take(i as int + 1).map_values(|l: u8| upper_char_of(l)) =~= self@.take(
                i as int,
            ).map_values(|l: u8| upper_char_of(l)).push(upper_char_of(l)));
            i += 1;
        }
        assert(self@.take(5) =~= self@);
        r
    }

    /// The word in lower-case letters.
    pub fn text(&self) -> (r: String)
        requires
            self.wf(),
        ensures
            r@ == spelling(self@),
    {
        let mut r = String::new();
        let mut i: usize = 0;
        while i < WORD_LEN
            invariant
                self.wf(),
                0 <= i <= 5,
                r@ == spelling(self@.take(i as int)),
            decreases 5 - i,
        {
            let l = self.letters[i];
            push_char(&mut r, (l + 97) as char);
            assert(spelling(self@.take(i as int + 1)) =~= spelling(self@.take(i as int)).push(
                char_of(l),
            ));
            i += 1;
        }
        assert(self@.take(5) =~= self@);
        r
    }
}

/// A word is determined by its letters.
pub proof fn lemma_view_injective(a: Word, b: Word)
    requires
        a@ == b@,
    ensures
        a == b,
{
    assert(a.letters =~= b.letters);
}

/// Two well-formed words with the same spelling are the same word.
pub proof fn lemma_spelling_injective(a: Word, b: Word)
    requires
        a.wf(),
        b.wf(),
        spelling(a@) == spelling(b@),
    ensures
        a == b,
{
    assert forall|i: int| 0 <= i < 5 implies a@[i] == b@[i] by {
        assert(spelling(a@)[i] == char_of(a@[i]));
        assert(spelling(b@)[i] == char_of(b@[i]));
    }
    assert(a.letters =~= b.letters);
}

} // verus!
