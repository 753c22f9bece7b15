//! Fixed-length words over the lowercase alphabet and their scoring.

use vstd::prelude::*;

verus! {

/// Whether `b` is one of the bytes `b'a'..=b'z'`.
pub open spec fn is_lower(b: u8) -> bool {
    0x61 <= b <= 0x7a
}

/// Whether `s` is a legal word: five lowercase letters.
pub open spec fn is_word(s: Seq<u8>) -> bool {
    &&& s.len() == 5
    &&& forall|i: int| 0 <= i < 5 ==> is_lower(#[trigger] s[i])
}

/// The letter with index `i` in the alphabet: 0 is `a`, 25 is `z`.
pub open spec fn letter(i: int) -> u8 {
    (i + 0x61) as u8
}

/// How much of `freq` the word `w` collects from the first `n` letters of the
/// alphabet: the entry of each of them that occurs in `w`, once.
pub open spec fn value_below(w: Seq<u8>, freq: Seq<usize>, n: nat) -> nat
    decreases n,
{
    if n == 0 {
        0
    } else {
        let i = (n - 1) as int;
        value_below(w, freq, (n - 1) as nat) + if w.contains(letter(i)) {
            freq[i] as nat
        } else {
            0
        }
    }
}

/// The value of `w` under the frequency table `freq`: the sum of the entries
/// of the distinct letters of `w`. A letter that `w` repeats counts once.
pub open spec fn word_value(w: Seq<u8>, freq: Seq<usize>) -> nat {
    value_below(w, freq, 26)
}

/// Whether `w` holds every letter of `letters`.
pub open spec fn has_all(w: Seq<u8>, letters: Seq<u8>) -> bool {
    forall|i: int| 0 <= i < letters.len() ==> w.contains(#[trigger] letters[i])
}

/// The natural order of words: `a` comes before `b` when, at the first
/// position where they differ, `a` has the smaller symbol.
pub open spec fn lex_lt(a: Seq<u8>, b: Seq<u8>) -> bool {
    exists|k: int|
        0 <= k < 5 && (#[trigger] a[k]) < b[k] && forall|j: int| 0 <= j < k ==> a[j] == b[j]
}

/// A word read as a number in base 256, first symbol most significant.
pub open spec fn word_rank(w: Seq<u8>) -> int {
    w[0] * 0x1_0000_0000 + w[1] * 0x100_0000 + w[2] * 0x1_0000 + w[3] * 0x100 + w[4]
}

/// The natural order of five-symbol words is the order of their ranks, and
/// two such words with one rank are one word.
pub proof fn lemma_rank_is_lex(a: Seq<u8>, b: Seq<u8>)
    requires
        a.len() == 5,
        b.len() == 5,
    ensures
        lex_lt(a, b) <==> word_rank(a) < word_rank(b),
        a == b <==> word_rank(a) == word_rank(b),
{
    if a[0] != b[0] {
        assert(a[0] < b[0] ==> lex_lt(a, b));
    } else if a[1] != b[1] {
        assert(a[1] < b[1] ==> lex_lt(a, b));
    } else if a[2] != b[2] {
        assert(a[2] < b[2] ==> lex_lt(a, b));
    } else if a[3] != b[3] {
        assert(a[3] < b[3] ==> lex_lt(a, b));
    } else if a[4] != b[4] {
        assert(a[4] < b[4] ==> lex_lt(a, b));
    } else {
        assert(a =~= b);
    }
    if lex_lt(a, b) {
        let k = choose|k: int|
            0 <= k < 5 && (#[trigger] a[k]) < b[k] && forall|j: int| 0 <= j < k ==> a[j] == b[j];
        assert(forall|j: int| 0 <= j < k ==> a[j] == b[j]);
    }
}

/// Why a byte string is not a word.
#[derive(Clone, Copy, Debug, PartialEq, Eq)]
pub enum WordError {
    /// The input does not have exactly five bytes.
    WrongLength,
    /// The input has five bytes, one of which is not a lowercase letter.
    NotLowercase,
}

/// A word: five lowercase ASCII letters.
#[derive(Clone, Copy, Debug, PartialEq, Eq, PartialOrd, Ord, Hash)]
pub struct Word {
    letters: [u8; 5],
}

impl View for Word {
    type V = Seq<u8>;

    closed spec fn view(&self) -> Seq<u8> {
        self.letters@
    }
}

impl Word {
    /// Every word holds five lowercase letters.
    #[verifier::type_invariant]
    pub open spec fn well_formed(self) -> bool {
        is_word(self@)
    }

    /// Builds a word from exactly five lowercase letters.
    pub fn from_bytes(bytes: &[u8]) -> (r: Result<Word, WordError>)
        ensures
            bytes@.len() != 5 ==> r == Err::<Word, WordError>(WordError::WrongLength),
            bytes@.len() == 5 && !is_word(bytes@) ==> r == Err::<Word, WordError>(
                WordError::NotLowercase,
            ),
            is_word(bytes@) ==> r.is_ok() && r.unwrap()@ == bytes@,
    {
        if bytes.len() != 5 {
            return Err(WordError::WrongLength);
        }
        let mut letters: [u8; 5] = [0x61u8; 5];
        let mut i: usize = 0;
        while i < 5
            invariant
                i <= 5,
                bytes@.len() == 5,
                forall|j: int| 0 <= j < i ==> is_lower(#[trigger] bytes@[j]),
                forall|j: int| 0 <= j < i ==> letters@[j] == bytes@[j],
                forall|j: int| 0 <= j < 5 ==> is_lower(#[trigger] letters@[j]),
            decreases 5 - i,
        {
            let b: u8 = bytes[i];
            if b < 0x61 || b > 0x7a {
                return Err(WordError::NotLowercase);
            }
            letters[i] = b;
            i += 1;
        }
        assert(letters@ =~= bytes@);
        Ok(Word { letters })
    }

    /// The five letters.
    pub fn bytes(&self) -> (b: [u8; 5])
        ensures
            b@ == self@,
            is_word(b@),
    {
        proof {
            use_type_invariant(self);
        }
        self.letters
    }

    /// The word as text.
    pub fn text(&self) -> (s: String)
        ensures
            s@ == self@.map_values(|b: u8| b as char),
    {
        let mut s = String::new();
        let mut i: usize = 0;
        while i < 5
            invariant
                i <= 5,
                self@.len() == 5,
                s@ == self@.take(i as int).map_values(|b: u8| b as char),
            decreases 5 - i,
        {
            s.push(self.letters[i] as char);
            assert(self@.take(i + 1) == self@.take(i as int).push(self@[i as int]));
            i += 1;
        }
        assert(self@.take(5) == self@);
        s
    }

    /// Whether the letter `ch` occurs in the word.
    pub fn has(&self, ch: u8) -> (b: bool)
        ensures
            b == self@.contains(ch),
    {
        let mut i: usize = 0;
        while i < 5
            invariant
                i <= 5,
                self@.len() == 5,
                forall|j: int| 0 <= j < i ==> self@[j] != ch,
            decreases 5 - i,
        {
            if self.letters[i] == ch {
                return true;
            }
            i += 1;
        }
        false
    }

    /// Whether every letter of `letters` occurs in the word.
    pub fn has_each(&self, letters: &[u8]) -> (b: bool)
        ensures
            b == has_all(self@, letters@),
    {
        let mut i: usize = 0;
        while i < letters.len()
            invariant
                i <= letters@.len(),
                forall|j: int| 0 <= j < i ==> self@.contains(#[trigger] letters@[j]),
            decreases letters@.len() - i,
        {
            if !self.has(letters[i]) {
                return false;
            }
            i += 1;
        }
        true
    }

    /// Whether the two words have the same letters in the same places.
    pub fn same(&self, other: &Word) -> (b: bool)
        ensures
            b == (self@ == other@),
    {
        proof {
            lemma_rank_is_lex(self@, other@);
        }
        self.rank() == other.rank()
    }

    /// Whether this word comes before `other` in the natural order.
    pub fn precedes(&self, other: &Word) -> (b: bool)
        ensures
            b == lex_lt(self@, other@),
    {
        proof {
            lemma_rank_is_lex(self@, other@);
        }
        self.rank() < other.rank()
    }

    /// The word's rank in the natural order.
    pub fn rank(&self) -> (r: u64)
        ensures
            r == word_rank(self@),
    {
        let l = &self.letters;
        let high: u64 = (l[0] as u64) * 0x1_0000_0000 + (l[1] as u64) * 0x100_0000;
        let low: u64 = (l[2] as u64) * 0x1_0000 + (l[3] as u64) * 0x100 + (l[4] as u64);
        high + low
    }

    /// Which letters of the alphabet occur in the word.
    pub fn presence(&self) -> (p: [bool; 26])
        ensures
            forall|i: int| 0 <= i < 26 ==> p@[i] == self@.contains(letter(i)),
    {
        proof {
            use_type_invariant(self);
        }
        let mut p: [bool; 26] = [false; 26];
        let mut k: usize = 0;
        while k < 5
            invariant
                k <= 5,
                is_word(self@),
                self@ == self.letters@,
                forall|i: int|
                    0 <= i < 26 ==> (p@[i] <==> exists|j: int|
                        0 <= j < k && #[trigger] self@[j] == letter(i)),
            decreases 5 - k,
        {
            let b: u8 = self.letters[k];
            assert(is_lower(self@[k as int]));
            let idx: usize = (b - 0x61) as usize;
            let ghost before = p@;
            p[idx] = true;
            assert forall|i: int| 0 <= i < 26 implies (p@[i] <==> exists|j: int|
                0 <= j < k + 1 && #[trigger] self@[j] == letter(i)) by {
                if i == idx as int {
                    assert(self@[k as int] == letter(i));
                } else {
                    assert(p@[i] == before[i]);
                    if before[i] {
                        let j = choose|j: int| 0 <= j < k && #[trigger] self@[j] == letter(i);
                        assert(0 <= j < k + 1 && self@[j] == letter(i));
                    }
                }
            }
            k += 1;
        }
        p
    }

    /// The word's value under `freq`, in a type wide enough for any table.
    pub fn wide_value(&self, freq: &[usize; 26]) -> (v: u128)
        ensures
            v == word_value(self@, freq@),
    {
        let p = self.presence();
        let mut v: u128 = 0;
        let mut n: usize = 0;
        while n < 26
            invariant
                n <= 26,
                v == value_below(self@, freq@, n as nat),
                v <= n * 0xffff_ffff_ffff_ffff,
                forall|i: int| 0 <= i < 26 ==> p@[i] == self@.contains(letter(i)),
            decreases 26 - n,
        {
            if p[n] {
                v = v + freq[n] as u128;
            }
            n += 1;
        }
        v
    }

    /// The word's value under the frequency table `freq`: the sum of the
    /// entries of its distinct letters.
    pub fn value(&self, freq: &[usize; 26]) -> (v: usize)
        requires
            word_value(self@, freq@) <= usize::MAX,
        ensures
            v == word_value(self@, freq@),
    {
        self.wide_value(freq) as usize
    }

    /// The letter at position `pos`.
    pub fn at(&self, pos: usize) -> (b: u8)
        requires
            pos < 5,
        ensures
            b == self@[pos as int],
            is_lower(b),
    {
        proof {
            use_type_invariant(self);
        }
        self.letters[pos]
    }
}

/// `String::push` appends the character `ch` to the end of the string and
/// leaves the characters before it as they were.
pub assume_specification[ String::push ](s: &mut String, ch: char)
    ensures
        final(s)@ == old(s)@.push(ch),
;

} // verus!
