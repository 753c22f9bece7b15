//! The two orders in which the pool offers its members as guesses.

use crate::word::{has_all, is_word, lemma_rank_is_lex, lex_lt, word_rank, word_value, Word};
use crate::wordlist::{
    frequency_table, is_ascending, lemma_count_step, lemma_insert_to_set, views, Wordlist,
};
use vstd::prelude::*;

verus! {

/// Whether the word `a` with key `ka` is ranked before the word `b` with key
/// `kb`: by the smaller key, and between equal keys by the natural order of
/// the words.
pub open spec fn ranks_before(ka: nat, a: Seq<u8>, kb: nat, b: Seq<u8>) -> bool {
    ka < kb || (ka == kb && lex_lt(a, b))
}

/// Whether `r` lists exactly the members of `pool`, each ranked before the
/// next under `key`.
pub open spec fn ranked_ascending(
    pool: Set<Seq<u8>>,
    key: spec_fn(Seq<u8>) -> nat,
    r: Seq<Seq<u8>>,
) -> bool {
    &&& r.to_set() == pool
    &&& forall|i: int, j: int|
        0 <= i < j < r.len() ==> ranks_before(
            key(#[trigger] r[i]),
            r[i],
            key(#[trigger] r[j]),
            r[j],
        )
}

/// Whether `r` lists exactly the members of `pool`, each ranked after the
/// next under `key`.
pub open spec fn ranked_descending(
    pool: Set<Seq<u8>>,
    key: spec_fn(Seq<u8>) -> nat,
    r: Seq<Seq<u8>>,
) -> bool {
    &&& r.to_set() == pool
    &&& forall|i: int, j: int|
        0 <= i < j < r.len() ==> ranks_before(
            key(#[trigger] r[j]),
            r[j],
            key(#[trigger] r[i]),
            r[i],
        )
}

/// Whether `w` is the member of `pool` that is ranked before every other.
pub open spec fn ranked_first(pool: Set<Seq<u8>>, key: spec_fn(Seq<u8>) -> nat, w: Seq<u8>) -> bool {
    &&& pool.contains(w)
    &&& forall|v: Seq<u8>| #[trigger] pool.contains(v) && v != w ==> ranks_before(key(w), w, key(v), v)
}

/// The number of members of `pool` that hold a letter which `k` lacks.
pub open spec fn coverage_failures(pool: Set<Seq<u8>>, k: Seq<u8>) -> nat {
    pool.filter(|w: Seq<u8>| !has_all(k, w)).len()
}

/// The key of the order by value: the value of a word under the frequency
/// table of `pool`.
pub open spec fn value_key(pool: Set<Seq<u8>>) -> spec_fn(Seq<u8>) -> nat {
    |w: Seq<u8>| word_value(w, frequency_table(pool))
}

/// The key of the order by elimination power: the coverage failures of a
/// word in `pool`.
pub open spec fn eliminate_key(pool: Set<Seq<u8>>) -> spec_fn(Seq<u8>) -> nat {
    |k: Seq<u8>| coverage_failures(pool, k)
}

/// The order in which a pool lists its members.
#[derive(Clone, Copy, Debug, PartialEq, Eq)]
pub enum Strategy {
    /// Descending by value: the word of least value comes last.
    ByValue,
    /// Ascending by coverage failures: the recommended guess comes first.
    ByEliminate,
}

/// Whether `r` lists the members of `pool` in the order of `strategy`.
pub open spec fn ranked_by(pool: Set<Seq<u8>>, strategy: Strategy, r: Seq<Seq<u8>>) -> bool {
    match strategy {
        Strategy::ByValue => ranked_descending(pool, value_key(pool), r),
        Strategy::ByEliminate => ranked_ascending(pool, eliminate_key(pool), r),
    }
}

/// `ranks_before` with the natural order read off the words' ranks.
spec fn before(ka: nat, a: Seq<u8>, kb: nat, b: Seq<u8>) -> bool {
    ka < kb || (ka == kb && word_rank(a) < word_rank(b))
}

/// Sorts distinct words by their keys, and between equal keys by the natural
/// order.
fn rank_words(words: &Vec<Word>, keys: &Vec<u128>, Ghost(key): Ghost<spec_fn(Seq<u8>) -> nat>) -> (r:
    Vec<Word>)
    requires
        words@.len() == keys@.len(),
        is_ascending(views(words@)),
        forall|i: int| 0 <= i < keys@.len() ==> keys@[i] == key(#[trigger] views(words@)[i]),
    ensures
        ranked_ascending(views(words@).to_set(), key, views(r@)),
        r@.len() == words@.len(),
{
    let ghost given = views(words@);
    let mut out: Vec<Word> = Vec::new();
    let mut out_keys: Vec<u128> = Vec::new();
    let mut i: usize = 0;
    assert(given.take(0).to_set() =~= views(out@).to_set());
    while i < words.len()
        invariant
            i <= words@.len(),
            words@.len() == keys@.len(),
            given == views(words@),
            is_ascending(given),
            forall|j: int| 0 <= j < keys@.len() ==> keys@[j] == key(#[trigger] given[j]),
            out@.len() == out_keys@.len(),
            out@.len() == i,
            forall|j: int| 0 <= j < out@.len() ==> out_keys@[j] == key(#[trigger] views(out@)[j]),
            forall|j: int| 0 <= j < out@.len() ==> is_word(#[trigger] views(out@)[j]),
            views(out@).to_set() == given.take(i as int).to_set(),
            forall|a: int, b: int|
                0 <= a < b < out@.len() ==> before(
                    key(#[trigger] views(out@)[a]),
                    views(out@)[a],
                    key(#[trigger] views(out@)[b]),
                    views(out@)[b],
                ),
        decreases words@.len() - i,
    {
        let w: Word = words[i];
        let k: u128 = keys[i];
        let r: u64 = w.rank();
        assert(w@ == given[i as int]);
        let mut p: usize = 0;
        while p < out.len() && (out_keys[p] < k || (out_keys[p] == k && out[p].rank() < r))
            invariant
                p <= out@.len(),
                out@.len() == out_keys@.len(),
                r == word_rank(w@),
                k == key(w@),
                forall|j: int|
                    0 <= j < out@.len() ==> out_keys@[j] == key(#[trigger] views(out@)[j]),
                forall|j: int|
                    0 <= j < p ==> before(key(#[trigger] views(out@)[j]), views(out@)[j], k as nat, w@),
            decreases out@.len() - p,
        {
            assert(views(out@)[p as int] == out@[p as int]@);
            p += 1;
        }
        let ghost old_out = views(out@);
        proof {
            assert(!old_out.to_set().contains(w@)) by {
                if given.take(i as int).to_set().contains(w@) {
                    let j = choose|j: int| 0 <= j < i && given.take(i as int)[j] == w@;
                    assert(word_rank(given[j]) < word_rank(given[i as int]));
                }
            }
            if p < old_out.len() {
                assert(old_out[p as int] == out@[p as int]@);
                assert(old_out.to_set().contains(old_out[p as int]));
                lemma_rank_is_lex(old_out[p as int], w@);
                assert(before(k as nat, w@, key(old_out[p as int]), old_out[p as int]));
            }
        }
        out.insert(p, w);
        out_keys.insert(p, k);
        proof {
            let now = views(out@);
            assert(now =~= old_out.insert(p as int, w@));
            lemma_insert_to_set(old_out, p as int, w@);
            assert(given.take(i + 1) =~= given.take(i as int).push(given[i as int]));
            given.take(i as int).lemma_push_to_set_commute(given[i as int]);
            assert forall|j: int| 0 <= j < out@.len() implies out_keys@[j] == key(
                #[trigger] now[j],
            ) && is_word(now[j]) by {
                if j < p {
                    assert(now[j] == old_out[j]);
                } else if j > p {
                    assert(now[j] == old_out[j - 1]);
                }
            }
            assert forall|a: int, b: int| 0 <= a < b < out@.len() implies before(
                key(#[trigger] now[a]),
                now[a],
                key(#[trigger] now[b]),
                now[b],
            ) by {
                let a0 = if a < p { a } else { a - 1 };
                let b0 = if b < p { b } else { b - 1 };
                if a != p {
                    assert(now[a] == old_out[a0]);
                }
                if b != p {
                    assert(now[b] == old_out[b0]);
                }
                if a == p {
                    assert(before(k as nat, w@, key(old_out[p as int]), old_out[p as int]));
                    if b0 > p {
                        assert(before(
                            key(old_out[p as int]),
                            old_out[p as int],
                            key(old_out[b0]),
                            old_out[b0],
                        ));
                    }
                }
            }
        }
        i += 1;
    }
    proof {
        let now = views(out@);
        assert(given.take(i as int) =~= given);
        assert forall|a: int, b: int| 0 <= a < b < now.len() implies ranks_before(
            key(#[trigger] now[a]),
            now[a],
            key(#[trigger] now[b]),
            now[b],
        ) by {
            lemma_rank_is_lex(now[a], now[b]);
        }
    }
    out
}

/// The first of distinct words under their keys, if there is any word.
fn first_ranked(words: &Vec<Word>, keys: &Vec<u128>, Ghost(key): Ghost<spec_fn(Seq<u8>) -> nat>) -> (r:
    Option<Word>)
    requires
        words@.len() == keys@.len(),
        is_ascending(views(words@)),
        forall|i: int| 0 <= i < keys@.len() ==> keys@[i] == key(#[trigger] views(words@)[i]),
    ensures
        words@.len() == 0 ==> r is None,
        words@.len() > 0 ==> r is Some && ranked_first(
            views(words@).to_set(),
            key,
            r->Some_0@,
        ),
{
    if words.len() == 0 {
        return None;
    }
    let ghost given = views(words@);
    let mut m: usize = 0;
    let mut i: usize = 1;
    while i < words.len()
        invariant
            1 <= i <= words@.len(),
            m < i,
            words@.len() == keys@.len(),
            given == views(words@),
            is_ascending(given),
            forall|j: int| 0 <= j < keys@.len() ==> keys@[j] == key(#[trigger] given[j]),
            forall|j: int|
                0 <= j < i && j != m ==> before(
                    key(given[m as int]),
                    given[m as int],
                    key(#[trigger] given[j]),
                    given[j],
                ),
        decreases words@.len() - i,
    {
        assert(given[i as int] == words@[i as int]@ && given[m as int] == words@[m as int]@);
        if keys[i] < keys[m] || (keys[i] == keys[m] && words[i].rank() < words[m].rank()) {
            m = i;
        } else {
            assert(word_rank(given[i as int]) != word_rank(given[m as int]));
        }
        i += 1;
    }
    let w: Word = words[m];
    proof {
        assert(given[m as int] == w@);
        assert forall|v: Seq<u8>| #[trigger] given.to_set().contains(v) && v != w@ implies ranks_before(
            key(w@),
            w@,
            key(v),
            v,
        ) by {
            let j = choose|j: int| 0 <= j < given.len() && given[j] == v;
            lemma_rank_is_lex(w@, v);
        }
    }
    Some(w)
}

/// For each word, its value under the frequency table `freq`.
fn value_keys(words: &Vec<Word>, freq: &[usize; 26]) -> (keys: Vec<u128>)
    ensures
        keys@.len() == words@.len(),
        forall|i: int|
            0 <= i < keys@.len() ==> keys@[i] == word_value(#[trigger] views(words@)[i], freq@),
{
    let mut keys: Vec<u128> = Vec::new();
    let mut i: usize = 0;
    while i < words.len()
        invariant
            i <= words@.len(),
            keys@.len() == i,
            forall|j: int| 0 <= j < i ==> keys@[j] == word_value(#[trigger] views(words@)[j], freq@),
        decreases words@.len() - i,
    {
        keys.push(words[i].wide_value(freq));
        i += 1;
    }
    keys
}

/// For each word, the number of the words that hold a letter it lacks.
fn eliminate_keys(words: &Vec<Word>) -> (keys: Vec<u128>)
    requires
        is_ascending(views(words@)),
    ensures
        keys@.len() == words@.len(),
        forall|i: int|
            0 <= i < keys@.len() ==> keys@[i] == coverage_failures(
                views(words@).to_set(),
                #[trigger] views(words@)[i],
            ),
{
    let ghost given = views(words@);
    let mut keys: Vec<u128> = Vec::new();
    let mut a: usize = 0;
    while a < words.len()
        invariant
            a <= words@.len(),
            keys@.len() == a,
            given == views(words@),
            is_ascending(given),
            forall|j: int|
                0 <= j < a ==> keys@[j] == coverage_failures(given.to_set(), #[trigger] given[j]),
        decreases words@.len() - a,
    {
        let k: Word = words[a];
        let ghost pred = |w: Seq<u8>| !has_all(k@, w);
        let mut count: usize = 0;
        let mut b: usize = 0;
        assert(given.take(0).to_set().filter(pred) =~= Set::<Seq<u8>>::empty());
        while b < words.len()
            invariant
                b <= words@.len(),
                given == views(words@),
                is_ascending(given),
                pred == |w: Seq<u8>| !has_all(k@, w),
                count == given.take(b as int).to_set().filter(pred).len(),
                count <= b,
            decreases words@.len() - b,
        {
            proof {
                lemma_count_step(given, b as int, pred);
            }
            let letters: [u8; 5] = words[b].bytes();
            assert(letters@ == given[b as int]);
            if !k.has_each(letters.as_slice()) {
                count += 1;
            }
            b += 1;
        }
        assert(given.take(b as int) =~= given);
        assert(k@ == given[a as int]);
        keys.push(count as u128);
        a += 1;
    }
    keys
}

impl Wordlist {
    /// The members in descending order of their value under the pool's own
    /// letter frequencies; between members of equal value, the later in the
    /// natural order comes first. The last word is the one of least value.
    pub fn words_by_value(&self) -> (r: Vec<Word>)
        ensures
            ranked_descending(self@, value_key(self@), views(r@)),
            r@.len() == self@.len(),
    {
        proof {
            use_type_invariant(self);
        }
        let words = self.words();
        let freq = self.letter_frequencies();
        let keys = value_keys(&words, &freq);
        let up = rank_words(&words, &keys, Ghost(value_key(self@)));
        let mut r: Vec<Word> = Vec::new();
        let mut i: usize = up.len();
        while i > 0
            invariant
                i <= up@.len(),
                r@.len() == up@.len() - i,
                forall|j: int| 0 <= j < r@.len() ==> r@[j] == up@[up@.len() - 1 - j],
            decreases i,
        {
            i -= 1;
            r.push(up[i]);
        }
        proof {
            let a = views(up@);
            let d = views(r@);
            assert forall|w: Seq<u8>| a.to_set().contains(w) <==> d.to_set().contains(w) by {
                if a.to_set().contains(w) {
                    let j = choose|j: int| 0 <= j < a.len() && a[j] == w;
                    assert(d[a.len() - 1 - j] == w);
                }
                if d.to_set().contains(w) {
                    let j = choose|j: int| 0 <= j < d.len() && d[j] == w;
                    assert(a[a.len() - 1 - j] == w);
                }
            }
            assert(d.to_set() =~= a.to_set());
            assert forall|i: int, j: int| 0 <= i < j < d.len() implies ranks_before(
                value_key(self@)(#[trigger] d[j]),
                d[j],
                value_key(self@)(#[trigger] d[i]),
                d[i],
            ) by {
                assert(d[j] == a[a.len() - 1 - j]);
                assert(d[i] == a[a.len() - 1 - i]);
            }
        }
        r
    }

    /// The member of least value under the pool's own letter frequencies;
    /// between members of equal value, the first in the natural order. It is
    /// the word that the order by value ends with.
    pub fn min_value_word(&self) -> (r: Option<Word>)
        ensures
            self@.len() == 0 ==> r is None,
            self@.len() > 0 ==> r is Some && ranked_first(self@, value_key(self@), r->Some_0@),
    {
        proof {
            use_type_invariant(self);
        }
        let words = self.words();
        let freq = self.letter_frequencies();
        let keys = value_keys(&words, &freq);
        first_ranked(&words, &keys, Ghost(value_key(self@)))
    }

    /// The members in ascending order of their coverage failures; between
    /// members with equally many, the earlier in the natural order comes
    /// first. The first word is the recommended guess.
    pub fn words_by_eliminate(&self) -> (r: Vec<Word>)
        ensures
            ranked_ascending(self@, eliminate_key(self@), views(r@)),
            r@.len() == self@.len(),
    {
        proof {
            use_type_invariant(self);
        }
        let words = self.words();
        let keys = eliminate_keys(&words);
        rank_words(&words, &keys, Ghost(eliminate_key(self@)))
    }

    /// The members in the order of `strategy`.
    pub fn ranked(&self, strategy: Strategy) -> (r: Vec<Word>)
        ensures
            ranked_by(self@, strategy, views(r@)),
            r@.len() == self@.len(),
    {
        match strategy {
            Strategy::ByValue => self.words_by_value(),
            Strategy::ByEliminate => self.words_by_eliminate(),
        }
    }

    /// The recommended guess: the member with the fewest coverage failures;
    /// between members with equally many, the first in the natural order.
    pub fn best_guess(&self) -> (r: Option<Word>)
        ensures
            self@.len() == 0 ==> r is None,
            self@.len() > 0 ==> r is Some && ranked_first(self@, eliminate_key(self@), r->Some_0@),
    {
        proof {
            use_type_invariant(self);
        }
        let words = self.words();
        let keys = eliminate_keys(&words);
        first_ranked(&words, &keys, Ghost(eliminate_key(self@)))
    }
}

} // verus!
