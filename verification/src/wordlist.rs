//! The pool of candidate words and the primitives that narrow it.

use crate::word::{has_all, is_word, lemma_rank_is_lex, letter, lex_lt, word_rank, Word};
use vstd::prelude::*;

verus! {

/// The views of a sequence of words, in the same order.
pub open spec fn views(v: Seq<Word>) -> Seq<Seq<u8>> {
    Seq::new(v.len(), |i: int| v[i]@)
}

/// Whether `s` holds words only, each before the next in the natural order.
pub open spec fn is_ascending(s: Seq<Seq<u8>>) -> bool {
    &&& forall|i: int| 0 <= i < s.len() ==> is_word(#[trigger] s[i])
    &&& forall|i: int, j: int|
        0 <= i < j < s.len() ==> word_rank(#[trigger] s[i]) < word_rank(#[trigger] s[j])
}

/// The members of `pool` without the letter `ch`.
pub open spec fn without_letter(pool: Set<Seq<u8>>, ch: u8) -> Set<Seq<u8>> {
    pool.filter(|w: Seq<u8>| !w.contains(ch))
}

/// The members of `pool` with the letter `ch` at position `pos`.
pub open spec fn with_letter_at(pool: Set<Seq<u8>>, pos: int, ch: u8) -> Set<Seq<u8>> {
    pool.filter(|w: Seq<u8>| w[pos] == ch)
}

/// The members of `pool` with another letter than `ch` at position `pos`.
pub open spec fn without_letter_at(pool: Set<Seq<u8>>, pos: int, ch: u8) -> Set<Seq<u8>> {
    pool.filter(|w: Seq<u8>| w[pos] != ch)
}

/// The members of `pool` other than `guess`.
pub open spec fn without_word(pool: Set<Seq<u8>>, guess: Seq<u8>) -> Set<Seq<u8>> {
    pool.filter(|w: Seq<u8>| w != guess)
}

/// The members of `pool` that hold every letter of `letters`.
pub open spec fn with_all_letters(pool: Set<Seq<u8>>, letters: Seq<u8>) -> Set<Seq<u8>> {
    pool.filter(|w: Seq<u8>| has_all(w, letters))
}

/// How many members of `pool` hold the letter `ch` at least once. A member
/// that repeats the letter counts once.
pub open spec fn letter_count(pool: Set<Seq<u8>>, ch: u8) -> nat {
    pool.filter(|w: Seq<u8>| w.contains(ch)).len()
}

/// The frequency table of `pool`: for each letter of the alphabet, how many
/// members hold it.
pub open spec fn frequency_table(pool: Set<Seq<u8>>) -> Seq<usize> {
    Seq::new(26, |i: int| letter_count(pool, letter(i)) as usize)
}

/// Taking one more word of an ascending sequence adds one to the number of
/// words that `pred` holds of, if it holds of that word, and nothing if not.
pub(crate) proof fn lemma_count_step(s: Seq<Seq<u8>>, i: int, pred: spec_fn(Seq<u8>) -> bool)
    requires
        is_ascending(s),
        0 <= i < s.len(),
    ensures
        s.take(i).to_set().filter(pred).finite(),
        s.take(i).to_set().filter(pred).len() <= i,
        s.take(i + 1).to_set().filter(pred).len() == s.take(i).to_set().filter(pred).len() + (if pred(
            s[i],
        ) {
            1nat
        } else {
            0nat
        }),
{
    broadcast use vstd::set::group_set_axioms;

    let a = s.take(i).to_set();
    let b = s.take(i + 1).to_set();
    lemma_ascending_distinct(s.take(i));
    a.lemma_len_filter(pred);
    assert(s.take(i + 1) =~= s.take(i).push(s[i]));
    s.take(i).lemma_push_to_set_commute(s[i]);
    assert(!a.contains(s[i])) by {
        if a.contains(s[i]) {
            let j = choose|j: int| 0 <= j < i && s.take(i)[j] == s[i];
            assert(word_rank(s[j]) < word_rank(s[i]));
        }
    }
    if pred(s[i]) {
        assert(b.filter(pred) =~= a.filter(pred).insert(s[i]));
    } else {
        assert(b.filter(pred) =~= a.filter(pred));
    }
}

/// Putting `x` into a sequence at `p` adds `x` to its set and nothing else.
pub(crate) proof fn lemma_insert_to_set(s: Seq<Seq<u8>>, p: int, x: Seq<u8>)
    requires
        0 <= p <= s.len(),
    ensures
        s.insert(p, x).to_set() == s.to_set().insert(x),
{
    let t = s.insert(p, x);
    assert forall|w: Seq<u8>| t.to_set().contains(w) <==> s.to_set().insert(x).contains(w) by {
        if t.to_set().contains(w) {
            let j = choose|j: int| 0 <= j < t.len() && t[j] == w;
            if j < p {
                assert(s[j] == w);
            } else if j > p {
                assert(s[j - 1] == w);
            }
        }
        if s.to_set().contains(w) {
            let j = choose|j: int| 0 <= j < s.len() && s[j] == w;
            if j < p {
                assert(t[j] == w);
            } else {
                assert(t[j + 1] == w);
            }
        }
        if w == x {
            assert(t[p] == w);
        }
    }
    assert(t.to_set() =~= s.to_set().insert(x));
}

/// Puts `w` into the ascending `v` at its place, unless it is there already.
fn insert_ascending(v: &mut Vec<Word>, w: Word)
    requires
        is_ascending(views(old(v)@)),
    ensures
        is_ascending(views(final(v)@)),
        views(final(v)@).to_set() == views(old(v)@).to_set().insert(w@),
{
    proof {
        use_type_invariant(&w);
    }
    let r: u64 = w.rank();
    let mut p: usize = 0;
    while p < v.len() && v[p].rank() < r
        invariant
            p <= v@.len(),
            forall|j: int| 0 <= j < p ==> word_rank(#[trigger] views(v@)[j]) < r,
        decreases v@.len() - p,
    {
        p += 1;
    }
    let ghost before = views(v@);
    if p < v.len() && v[p].rank() == r {
        proof {
            lemma_rank_is_lex(before[p as int], w@);
            assert(before.to_set().contains(w@));
            assert(before.to_set().insert(w@) =~= before.to_set());
        }
    } else {
        v.insert(p, w);
        proof {
            let after = views(v@);
            assert(after =~= before.insert(p as int, w@));
            lemma_insert_to_set(before, p as int, w@);
            assert forall|a: int, b: int| 0 <= a < b < after.len() implies word_rank(
                #[trigger] after[a],
            ) < word_rank(#[trigger] after[b]) by {
                let a0 = if a < p { a } else { a - 1 };
                let b0 = if b < p { b } else { b - 1 };
                if a != p {
                    assert(after[a] == before[a0]);
                }
                if b != p {
                    assert(after[b] == before[b0]);
                }
                if a == p {
                    assert(word_rank(before[p as int]) <= word_rank(before[b0]));
                }
            }
            assert forall|i: int| 0 <= i < after.len() implies is_word(#[trigger] after[i]) by {
                if i < p {
                    assert(after[i] == before[i]);
                } else if i > p {
                    assert(after[i] == before[i - 1]);
                }
            }
        }
    }
}

/// In an ascending sequence no word occurs twice, and its set is finite and
/// as large as the sequence is long.
proof fn lemma_ascending_distinct(s: Seq<Seq<u8>>)
    requires
        is_ascending(s),
    ensures
        s.no_duplicates(),
        s.to_set().finite(),
        s.to_set().len() == s.len(),
{
    assert forall|i: int, j: int| 0 <= i < s.len() && 0 <= j < s.len() && i != j implies s[i]
        != s[j] by {
        if i < j {
            assert(word_rank(s[i]) < word_rank(s[j]));
        } else {
            assert(word_rank(s[j]) < word_rank(s[i]));
        }
    }
    vstd::seq_lib::seq_to_set_is_finite(s);
    s.unique_seq_to_set();
}

/// The candidate pool: a set of words, none twice.
#[derive(Debug)]
pub struct Wordlist {
    words: Vec<Word>,
}

impl View for Wordlist {
    type V = Set<Seq<u8>>;

    /// The pool as a set of words.
    open spec fn view(&self) -> Set<Seq<u8>> {
        self.ordered().to_set()
    }
}

impl Clone for Wordlist {
    /// A pool with the same members.
    fn clone(&self) -> (pool: Wordlist)
        ensures
            pool.ordered() == self.ordered(),
            pool@ == self@,
    {
        proof {
            use_type_invariant(self);
        }
        let mut words: Vec<Word> = Vec::new();
        let mut i: usize = 0;
        while i < self.words.len()
            invariant
                i <= self.words.len(),
                words@ == self.words@.take(i as int),
            decreases self.words.len() - i,
        {
            words.push(self.words[i]);
            assert(words@ =~= self.words@.take(i + 1));
            i += 1;
        }
        assert(words@ =~= self.words@);
        Wordlist { words }
    }
}

impl Wordlist {
    /// The members of the pool in ascending natural order.
    pub closed spec fn ordered(&self) -> Seq<Seq<u8>> {
        views(self.words@)
    }

    /// The members are words, kept in ascending order, so none occurs twice.
    #[verifier::type_invariant]
    pub open spec fn well_formed(self) -> bool {
        is_ascending(self.ordered())
    }

    /// The pool without members.
    pub fn new() -> (pool: Wordlist)
        ensures
            pool@ == Set::<Seq<u8>>::empty(),
            pool.ordered() == Seq::<Seq<u8>>::empty(),
    {
        let pool = Wordlist { words: Vec::new() };
        assert(pool.ordered() =~= Seq::<Seq<u8>>::empty());
        assert(pool@ =~= Set::<Seq<u8>>::empty());
        pool
    }

    /// The pool of the given words. A word given twice is one member.
    pub fn from_words(words: &[Word]) -> (pool: Wordlist)
        ensures
            pool@ == views(words@).to_set(),
    {
        let mut out: Vec<Word> = Vec::new();
        let mut i: usize = 0;
        assert(views(words@).take(0).to_set() =~= views(out@).to_set());
        while i < words.len()
            invariant
                i <= words@.len(),
                is_ascending(views(out@)),
                views(out@).to_set() == views(words@).take(i as int).to_set(),
            decreases words@.len() - i,
        {
            insert_ascending(&mut out, words[i]);
            proof {
                let given = views(words@);
                assert(given.take(i + 1) =~= given.take(i as int).push(given[i as int]));
                given.take(i as int).lemma_push_to_set_commute(given[i as int]);
            }
            i += 1;
        }
        assert(views(words@).take(words@.len() as int) =~= views(words@));
        Wordlist { words: out }
    }

    /// The members in ascending natural order, each once.
    pub fn words(&self) -> (out: Vec<Word>)
        ensures
            views(out@) == self.ordered(),
            views(out@).to_set() == self@,
            out@.len() == self@.len(),
            forall|i: int| 0 <= i < out@.len() ==> is_word(#[trigger] views(out@)[i]),
            forall|i: int, j: int|
                0 <= i < j < out@.len() ==> lex_lt(
                    #[trigger] views(out@)[i],
                    #[trigger] views(out@)[j],
                ),
    {
        proof {
            use_type_invariant(self);
            lemma_ascending_distinct(self.ordered());
            assert forall|i: int, j: int| 0 <= i < j < self.ordered().len() implies lex_lt(
                #[trigger] self.ordered()[i],
                #[trigger] self.ordered()[j],
            ) by {
                lemma_rank_is_lex(self.ordered()[i], self.ordered()[j]);
            }
        }
        let mut out: Vec<Word> = Vec::new();
        let mut i: usize = 0;
        while i < self.words.len()
            invariant
                i <= self.words.len(),
                out@ == self.words@.take(i as int),
            decreases self.words.len() - i,
        {
            out.push(self.words[i]);
            assert(out@ =~= self.words@.take(i + 1));
            i += 1;
        }
        assert(out@ =~= self.words@);
        out
    }

    /// Whether `w` is a member.
    pub fn contains(&self, w: &Word) -> (b: bool)
        ensures
            b == self@.contains(w@),
    {
        let mut i: usize = 0;
        while i < self.words.len()
            invariant
                i <= self.words.len(),
                forall|j: int| 0 <= j < i ==> #[trigger] self.ordered()[j] != w@,
            decreases self.words.len() - i,
        {
            if self.words[i].same(w) {
                assert(self.ordered()[i as int] == w@);
                return true;
            }
            i += 1;
        }
        false
    }

    /// For each letter of the alphabet, the number of members that hold it at
    /// least once.
    pub fn letter_frequencies(&self) -> (freq: [usize; 26])
        ensures
            forall|l: int| 0 <= l < 26 ==> freq@[l] == letter_count(self@, letter(l)),
            freq@ == frequency_table(self@),
    {
        proof {
            use_type_invariant(self);
        }
        let ghost all = self.ordered();
        let mut freq: [usize; 26] = [0usize; 26];
        let mut i: usize = 0;
        proof {
            assert forall|l: int| 0 <= l < 26 implies freq@[l] == letter_count(
                all.take(0).to_set(),
                letter(l),
            ) by {
                assert(all.take(0).to_set().filter(|w: Seq<u8>| w.contains(letter(l)))
                    =~= Set::<Seq<u8>>::empty());
            }
        }
        while i < self.words.len()
            invariant
                i <= self.words.len(),
                all == self.ordered(),
                is_ascending(all),
                forall|l: int|
                    0 <= l < 26 ==> freq@[l] == letter_count(
                        all.take(i as int).to_set(),
                        #[trigger] letter(l),
                    ),
            decreases self.words.len() - i,
        {
            let p = self.words[i].presence();
            proof {
                assert forall|l: int| 0 <= l < 26 implies letter_count(
                    all.take(i + 1).to_set(),
                    #[trigger] letter(l),
                ) == letter_count(all.take(i as int).to_set(), letter(l)) + (if p@[l] {
                    1nat
                } else {
                    0nat
                }) && letter_count(all.take(i as int).to_set(), letter(l)) <= i by {
                    lemma_count_step(all, i as int, |w: Seq<u8>| w.contains(letter(l)));
                }
            }
            let mut n: usize = 0;
            while n < 26
                invariant
                    n <= 26,
                    i < self.words.len(),
                    forall|l: int|
                        0 <= l < n ==> freq@[l] == letter_count(
                            all.take(i + 1).to_set(),
                            #[trigger] letter(l),
                        ),
                    forall|l: int|
                        n <= l < 26 ==> freq@[l] == letter_count(
                            all.take(i as int).to_set(),
                            #[trigger] letter(l),
                        ),
                    forall|l: int|
                        0 <= l < 26 ==> letter_count(all.take(i + 1).to_set(), #[trigger] letter(l))
                            == letter_count(all.take(i as int).to_set(), letter(l)) + (if p@[l] {
                            1nat
                        } else {
                            0nat
                        }) && letter_count(all.take(i as int).to_set(), letter(l)) <= i,
                decreases 26 - n,
            {
                assert(letter_count(all.take(i as int).to_set(), letter(n as int)) <= i);
                if p[n] {
                    freq[n] = freq[n] + 1;
                }
                n += 1;
            }
            i += 1;
        }
        proof {
            assert(all.take(i as int) =~= all);
            assert(freq@ =~= frequency_table(self@));
        }
        freq
    }

    /// The number of members.
    pub fn len(&self) -> (n: usize)
        ensures
            n == self@.len(),
            n == self.ordered().len(),
            self@.finite(),
    {
        proof {
            use_type_invariant(self);
            lemma_ascending_distinct(self.ordered());
        }
        self.words.len()
    }

    /// Whether the pool has no member.
    pub fn is_empty(&self) -> (b: bool)
        ensures
            b == (self@ == Set::<Seq<u8>>::empty()),
    {
        proof {
            use_type_invariant(self);
            lemma_ascending_distinct(self.ordered());
            if self.ordered().len() > 0 {
                assert(self@.contains(self.ordered()[0]));
            } else {
                assert(self@ =~= Set::<Seq<u8>>::empty());
            }
        }
        self.words.len() == 0
    }

    /// Drops every member that holds the letter `ch` anywhere.
    pub fn eliminate_char(&mut self, ch: u8)
        ensures
            final(self)@ == without_letter(old(self)@, ch),
            final(self)@.subset_of(old(self)@),
            forall|w: Seq<u8>| #[trigger] final(self)@.contains(w) ==> !w.contains(ch),
    {
        let mut keep: Vec<bool> = Vec::new();
        let mut i: usize = 0;
        while i < self.words.len()
            invariant
                i <= self.words.len(),
                keep@.len() == i,
                forall|j: int|
                    0 <= j < i ==> keep@[j] == !(#[trigger] self.ordered()[j]).contains(ch),
            decreases self.words.len() - i,
        {
            keep.push(!self.words[i].has(ch));
            i += 1;
        }
        self.retain_flagged(&keep, Ghost(|w: Seq<u8>| !w.contains(ch)));
    }

    /// Keeps the members that have the letter `ch` at position `pos`.
    pub fn eliminate_non_exact(&mut self, pos: usize, ch: u8)
        requires
            pos < 5,
        ensures
            final(self)@ == with_letter_at(old(self)@, pos as int, ch),
            final(self)@.subset_of(old(self)@),
            forall|w: Seq<u8>| #[trigger] final(self)@.contains(w) ==> w[pos as int] == ch,
    {
        let mut keep: Vec<bool> = Vec::new();
        let mut i: usize = 0;
        while i < self.words.len()
            invariant
                i <= self.words.len(),
                pos < 5,
                keep@.len() == i,
                forall|j: int|
                    0 <= j < i ==> keep@[j] == ((#[trigger] self.ordered()[j])[pos as int] == ch),
            decreases self.words.len() - i,
        {
            keep.push(self.words[i].at(pos) == ch);
            i += 1;
        }
        self.retain_flagged(&keep, Ghost(|w: Seq<u8>| w[pos as int] == ch));
    }

    /// Drops the members that have the letter `ch` at position `pos`.
    pub fn eliminate_exact(&mut self, pos: usize, ch: u8)
        requires
            pos < 5,
        ensures
            final(self)@ == without_letter_at(old(self)@, pos as int, ch),
            final(self)@.subset_of(old(self)@),
            forall|w: Seq<u8>| #[trigger] final(self)@.contains(w) ==> w[pos as int] != ch,
    {
        let mut keep: Vec<bool> = Vec::new();
        let mut i: usize = 0;
        while i < self.words.len()
            invariant
                i <= self.words.len(),
                pos < 5,
                keep@.len() == i,
                forall|j: int|
                    0 <= j < i ==> keep@[j] == ((#[trigger] self.ordered()[j])[pos as int] != ch),
            decreases self.words.len() - i,
        {
            keep.push(self.words[i].at(pos) != ch);
            i += 1;
        }
        self.retain_flagged(&keep, Ghost(|w: Seq<u8>| w[pos as int] != ch));
    }

    /// Drops the word `guess` itself, and no other member.
    pub fn eliminate_non_dict(&mut self, guess: &Word)
        ensures
            final(self)@ == without_word(old(self)@, guess@),
            final(self)@ == old(self)@.remove(guess@),
            final(self)@.subset_of(old(self)@),
    {
        let mut keep: Vec<bool> = Vec::new();
        let mut i: usize = 0;
        while i < self.words.len()
            invariant
                i <= self.words.len(),
                keep@.len() == i,
                forall|j: int| 0 <= j < i ==> keep@[j] == (#[trigger] self.ordered()[j] != guess@),
            decreases self.words.len() - i,
        {
            keep.push(!self.words[i].same(guess));
            i += 1;
        }
        self.retain_flagged(&keep, Ghost(|w: Seq<u8>| w != guess@));
        assert(self@ =~= old(self)@.remove(guess@));
    }

    /// Keeps the members that hold every letter of `letters`.
    pub fn eliminate_missing_any(&mut self, letters: &[u8])
        ensures
            final(self)@ == with_all_letters(old(self)@, letters@),
            final(self)@.subset_of(old(self)@),
            forall|w: Seq<u8>| #[trigger] final(self)@.contains(w) ==> has_all(w, letters@),
    {
        let mut keep: Vec<bool> = Vec::new();
        let mut i: usize = 0;
        while i < self.words.len()
            invariant
                i <= self.words.len(),
                keep@.len() == i,
                forall|j: int|
                    0 <= j < i ==> keep@[j] == has_all(#[trigger] self.ordered()[j], letters@),
            decreases self.words.len() - i,
        {
            keep.push(self.words[i].has_each(letters));
            i += 1;
        }
        self.retain_flagged(&keep, Ghost(|w: Seq<u8>| has_all(w, letters@)));
    }

    /// Keeps the members whose flag is set.
    fn retain_flagged(&mut self, keep: &Vec<bool>, Ghost(pred): Ghost<spec_fn(Seq<u8>) -> bool>)
        requires
            keep@.len() == old(self).ordered().len(),
            forall|i: int|
                0 <= i < keep@.len() ==> keep@[i] == pred(#[trigger] old(self).ordered()[i]),
        ensures
            final(self)@ == old(self)@.filter(pred),
    {
        proof {
            use_type_invariant(&*self);
        }
        let ghost all = self.ordered();
        let mut kept: Vec<Word> = Vec::new();
        let mut i: usize = 0;
        while i < self.words.len()
            invariant
                i <= self.words.len(),
                all == self.ordered(),
                all == views(self.words@),
                is_ascending(all),
                keep@.len() == all.len(),
                forall|j: int| 0 <= j < keep@.len() ==> keep@[j] == pred(#[trigger] all[j]),
                is_ascending(views(kept@)),
                forall|j: int|
                    0 <= j < kept@.len() ==> exists|k: int|
                        0 <= k < i && all[k] == #[trigger] views(kept@)[j],
                forall|k: int|
                    0 <= k < i && pred(all[k]) ==> views(kept@).contains(#[trigger] all[k]),
                forall|j: int| 0 <= j < kept@.len() ==> pred(#[trigger] views(kept@)[j]),
            decreases self.words.len() - i,
        {
            if keep[i] {
                let ghost before = views(kept@);
                let w: Word = self.words[i];
                kept.push(w);
                proof {
                    let after = views(kept@);
                    assert(after =~= before.push(all[i as int]));
                    assert forall|a: int, b: int| 0 <= a < b < after.len() implies word_rank(
                        #[trigger] after[a],
                    ) < word_rank(#[trigger] after[b]) by {
                        if b == before.len() {
                            let k = choose|k: int| 0 <= k < i && all[k] == before[a];
                            assert(word_rank(all[k]) < word_rank(all[i as int]));
                        } else {
                            assert(after[a] == before[a] && after[b] == before[b]);
                        }
                    }
                    assert forall|j: int| 0 <= j < after.len() implies exists|k: int|
                        0 <= k < i + 1 && all[k] == #[trigger] after[j] by {
                        if j == before.len() {
                            assert(all[i as int] == after[j]);
                        } else {
                            let k = choose|k: int| 0 <= k < i && all[k] == before[j];
                            assert(0 <= k < i + 1 && all[k] == after[j]);
                        }
                    }
                    assert forall|k: int| 0 <= k < i + 1 && pred(all[k]) implies after.contains(
                        #[trigger] all[k],
                    ) by {
                        if k == i {
                            assert(after[before.len() as int] == all[k]);
                        } else {
                            assert(before.contains(all[k]));
                            let j = choose|j: int| 0 <= j < before.len() && before[j] == all[k];
                            assert(after[j] == all[k]);
                        }
                    }
                }
            }
            i += 1;
        }
        self.words = kept;
        proof {
            let now = self.ordered();
            assert forall|w: Seq<u8>| now.to_set().contains(w) <==> all.to_set().filter(
                pred,
            ).contains(w) by {
                if now.to_set().contains(w) {
                    let j = choose|j: int| 0 <= j < now.len() && now[j] == w;
                    let k = choose|k: int| 0 <= k < all.len() && all[k] == now[j];
                    assert(all.contains(w));
                }
                if all.to_set().filter(pred).contains(w) {
                    let k = choose|k: int| 0 <= k < all.len() && all[k] == w;
                    assert(now.contains(all[k]));
                }
            }
            assert(now.to_set() =~= all.to_set().filter(pred));
        }
    }
}

} // verus!
