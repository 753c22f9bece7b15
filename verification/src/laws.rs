//! What holds of the pool's primitives and of its rankings, whatever the
//! pool.

use crate::feedback::{
    absence_agrees, confirmed_after, confirmed_here, confirmed_next, holds_each, narrowed,
    position_agrees, AbsentPolicy, Feedback, Mark,
};
use crate::rank::{eliminate_key, ranked_ascending, ranked_descending, ranked_first, ranks_before};
use crate::word::lemma_rank_is_lex;
use crate::wordlist::{
    letter_count, with_all_letters, with_letter_at, without_letter, without_letter_at,
    without_word,
};
use vstd::prelude::*;

verus! {

/// Dropping a letter twice drops no more than dropping it once.
pub proof fn lemma_eliminate_char_idempotent(pool: Set<Seq<u8>>, ch: u8)
    ensures
        without_letter(without_letter(pool, ch), ch) == without_letter(pool, ch),
{
    assert(without_letter(without_letter(pool, ch), ch) =~= without_letter(pool, ch));
}

/// Keeping a letter at a position twice keeps what keeping it once does.
pub proof fn lemma_eliminate_non_exact_idempotent(pool: Set<Seq<u8>>, pos: int, ch: u8)
    ensures
        with_letter_at(with_letter_at(pool, pos, ch), pos, ch) == with_letter_at(pool, pos, ch),
{
    assert(with_letter_at(with_letter_at(pool, pos, ch), pos, ch) =~= with_letter_at(
        pool,
        pos,
        ch,
    ));
}

/// Dropping a letter at a position twice drops no more than dropping it
/// once.
pub proof fn lemma_eliminate_exact_idempotent(pool: Set<Seq<u8>>, pos: int, ch: u8)
    ensures
        without_letter_at(without_letter_at(pool, pos, ch), pos, ch) == without_letter_at(
            pool,
            pos,
            ch,
        ),
{
    assert(without_letter_at(without_letter_at(pool, pos, ch), pos, ch) =~= without_letter_at(
        pool,
        pos,
        ch,
    ));
}

/// Dropping a guess twice drops no more than dropping it once.
pub proof fn lemma_eliminate_non_dict_idempotent(pool: Set<Seq<u8>>, guess: Seq<u8>)
    ensures
        without_word(without_word(pool, guess), guess) == without_word(pool, guess),
{
    assert(without_word(without_word(pool, guess), guess) =~= without_word(pool, guess));
}

/// Asking for the same letters twice keeps what asking once does.
pub proof fn lemma_eliminate_missing_any_idempotent(pool: Set<Seq<u8>>, letters: Seq<u8>)
    ensures
        with_all_letters(with_all_letters(pool, letters), letters) == with_all_letters(
            pool,
            letters,
        ),
{
    assert(with_all_letters(with_all_letters(pool, letters), letters) =~= with_all_letters(
        pool,
        letters,
    ));
}

/// No primitive adds a member to the pool.
pub proof fn lemma_primitives_shrink(
    pool: Set<Seq<u8>>,
    pos: int,
    ch: u8,
    guess: Seq<u8>,
    letters: Seq<u8>,
)
    ensures
        without_letter(pool, ch).subset_of(pool),
        with_letter_at(pool, pos, ch).subset_of(pool),
        without_letter_at(pool, pos, ch).subset_of(pool),
        without_word(pool, guess).subset_of(pool),
        with_all_letters(pool, letters).subset_of(pool),
{
}

/// A turn of feedback adds no member to the pool and takes no letter from
/// the confirmed ones.
pub proof fn lemma_turn_shrinks(
    pool: Set<Seq<u8>>,
    confirmed: Set<u8>,
    policy: AbsentPolicy,
    guess: Seq<u8>,
    feedback: Feedback,
)
    ensures
        narrowed(pool, confirmed, policy, guess, feedback).subset_of(pool),
        confirmed.subset_of(confirmed_next(confirmed, guess, feedback)),
{
}

/// The same feedback on the same guess, taken a second time, changes
/// neither the pool nor the confirmed letters.
pub proof fn lemma_turn_idempotent(
    pool: Set<Seq<u8>>,
    confirmed: Set<u8>,
    policy: AbsentPolicy,
    guess: Seq<u8>,
    feedback: Feedback,
)
    ensures
        narrowed(
            narrowed(pool, confirmed, policy, guess, feedback),
            confirmed_next(confirmed, guess, feedback),
            policy,
            guess,
            feedback,
        ) == narrowed(pool, confirmed, policy, guess, feedback),
        confirmed_next(confirmed_next(confirmed, guess, feedback), guess, feedback)
            == confirmed_next(confirmed, guess, feedback),
{
    let once = narrowed(pool, confirmed, policy, guess, feedback);
    let known = confirmed_next(confirmed, guess, feedback);
    assert(confirmed_next(known, guess, feedback) =~= known);
    assert(narrowed(once, known, policy, guess, feedback) =~= once);
}

/// Under `DuplicateAwareAbsent` a member stays in the pool if it has every
/// exact letter in its place, no other marked letter in that letter's
/// place, every confirmed letter somewhere, and no letter that is marked
/// absent at one position and confirmed at none. It may hold a letter that
/// is marked absent at one position and confirmed at another.
pub proof fn lemma_duplicate_letter_kept(
    pool: Set<Seq<u8>>,
    confirmed: Set<u8>,
    guess: Seq<u8>,
    marks: [Mark; 5],
    w: Seq<u8>,
)
    requires
        pool.contains(w),
        forall|p: int| 0 <= p < 5 && marks@[p] == Mark::ExactMatch ==> w[p] == guess[p],
        forall|p: int| 0 <= p < 5 && marks@[p] != Mark::ExactMatch ==> w[p] != guess[p],
        forall|ch: u8| confirmed.contains(ch) || confirmed_here(guess, marks@, ch) ==> w.contains(ch),
        forall|p: int|
            0 <= p < 5 && marks@[p] == Mark::Absent && !confirmed_here(guess, marks@, guess[p])
                ==> !w.contains(guess[p]),
    ensures
        narrowed(
            pool,
            confirmed,
            AbsentPolicy::DuplicateAwareAbsent,
            guess,
            Feedback::Marks(marks),
        ).contains(w),
{
    assert forall|p: int| 0 <= p < 5 implies #[trigger] position_agrees(
        w,
        guess,
        marks@,
        AbsentPolicy::DuplicateAwareAbsent,
        p,
    ) by {}
    assert forall|p: int| 0 <= p < 5 implies #[trigger] absence_agrees(w, guess, marks@, p) by {}
    assert(holds_each(w, confirmed_after(confirmed, guess, marks@)));
}

/// Every member counts at most once towards a letter, however often it
/// holds the letter.
pub proof fn lemma_letter_count_bounded(pool: Set<Seq<u8>>, ch: u8)
    requires
        pool.finite(),
    ensures
        letter_count(pool, ch) <= pool.len(),
{
    pool.lemma_len_filter(|w: Seq<u8>| w.contains(ch));
}

/// The ranking order is a strict total order on five-symbol words: of two
/// words either one is ranked before the other, or they are one word, and
/// only one of the three holds.
pub proof fn lemma_ranking_order_total(key: spec_fn(Seq<u8>) -> nat, a: Seq<u8>, b: Seq<u8>)
    requires
        a.len() == 5,
        b.len() == 5,
    ensures
        ranks_before(key(a), a, key(b), b) || a == b || ranks_before(key(b), b, key(a), a),
        !(ranks_before(key(a), a, key(b), b) && a == b),
        !(ranks_before(key(a), a, key(b), b) && ranks_before(key(b), b, key(a), a)),
{
    lemma_rank_is_lex(a, b);
    lemma_rank_is_lex(b, a);
}

/// The ranking order is transitive.
pub proof fn lemma_ranking_order_transitive(
    key: spec_fn(Seq<u8>) -> nat,
    a: Seq<u8>,
    b: Seq<u8>,
    c: Seq<u8>,
)
    requires
        a.len() == 5,
        b.len() == 5,
        c.len() == 5,
        ranks_before(key(a), a, key(b), b),
        ranks_before(key(b), b, key(c), c),
    ensures
        ranks_before(key(a), a, key(c), c),
{
    lemma_rank_is_lex(a, b);
    lemma_rank_is_lex(b, c);
    lemma_rank_is_lex(a, c);
}

/// A pool of five-symbol words has one ranking under a key: two ascending
/// rankings of the same pool are the same sequence.
pub proof fn lemma_ranking_unique(
    pool: Set<Seq<u8>>,
    key: spec_fn(Seq<u8>) -> nat,
    r1: Seq<Seq<u8>>,
    r2: Seq<Seq<u8>>,
)
    requires
        forall|w: Seq<u8>| #[trigger] pool.contains(w) ==> w.len() == 5,
        ranked_ascending(pool, key, r1),
        ranked_ascending(pool, key, r2),
    ensures
        r1 == r2,
    decreases r1.len(),
{
    if r1.len() == 0 {
        if r2.len() > 0 {
            assert(r2.to_set().contains(r2[0]));
            let j = choose|j: int| 0 <= j < r1.len() && r1[j] == r2[0];
        }
        assert(r1 =~= r2);
    } else {
        assert(r1.to_set().contains(r1[0]));
        let j = choose|j: int| 0 <= j < r2.len() && r2[j] == r1[0];
        assert(r2.to_set().contains(r2[0]));
        let k = choose|k: int| 0 <= k < r1.len() && r1[k] == r2[0];
        lemma_ranking_order_total(key, r1[0], r2[0]);
        if j > 0 {
            assert(ranks_before(key(r2[0]), r2[0], key(r2[j]), r2[j]));
            if k > 0 {
                assert(ranks_before(key(r1[0]), r1[0], key(r1[k]), r1[k]));
            }
        }
        assert(r1[0] == r2[0]);
        let first = r1[0];
        let t1 = r1.skip(1);
        let t2 = r2.skip(1);
        let rest = pool.remove(first);
        assert forall|w: Seq<u8>| t1.to_set().contains(w) <==> rest.contains(w) by {
            if t1.to_set().contains(w) {
                let i = choose|i: int| 0 <= i < t1.len() && t1[i] == w;
                assert(r1[i + 1] == w);
                assert(r1.to_set().contains(w));
                assert(ranks_before(key(r1[0]), r1[0], key(r1[i + 1]), r1[i + 1]));
                lemma_ranking_order_total(key, first, w);
            }
            if rest.contains(w) {
                assert(r1.to_set().contains(w));
                let i = choose|i: int| 0 <= i < r1.len() && r1[i] == w;
                assert(t1[i - 1] == w);
            }
        }
        assert forall|w: Seq<u8>| t2.to_set().contains(w) <==> rest.contains(w) by {
            if t2.to_set().contains(w) {
                let i = choose|i: int| 0 <= i < t2.len() && t2[i] == w;
                assert(r2[i + 1] == w);
                assert(r2.to_set().contains(w));
                assert(ranks_before(key(r2[0]), r2[0], key(r2[i + 1]), r2[i + 1]));
                lemma_ranking_order_total(key, first, w);
            }
            if rest.contains(w) {
                assert(r2.to_set().contains(w));
                let i = choose|i: int| 0 <= i < r2.len() && r2[i] == w;
                assert(t2[i - 1] == w);
            }
        }
        assert(t1.to_set() =~= rest);
        assert(t2.to_set() =~= rest);
        assert forall|i: int, j: int| 0 <= i < j < t1.len() implies ranks_before(
            key(#[trigger] t1[i]),
            t1[i],
            key(#[trigger] t1[j]),
            t1[j],
        ) by {
            assert(t1[i] == r1[i + 1] && t1[j] == r1[j + 1]);
        }
        assert forall|i: int, j: int| 0 <= i < j < t2.len() implies ranks_before(
            key(#[trigger] t2[i]),
            t2[i],
            key(#[trigger] t2[j]),
            t2[j],
        ) by {
            assert(t2[i] == r2[i + 1] && t2[j] == r2[j + 1]);
        }
        lemma_ranking_unique(rest, key, t1, t2);
        assert(r1 =~= seq![first] + t1);
        assert(r2 =~= seq![first] + t2);
    }
}

/// The order by elimination power is a function of the pool: two rankings
/// of an unchanged pool are the same sequence.
pub proof fn lemma_words_by_eliminate_deterministic(
    pool: Set<Seq<u8>>,
    r1: Seq<Seq<u8>>,
    r2: Seq<Seq<u8>>,
)
    requires
        forall|w: Seq<u8>| #[trigger] pool.contains(w) ==> w.len() == 5,
        ranked_ascending(pool, eliminate_key(pool), r1),
        ranked_ascending(pool, eliminate_key(pool), r2),
    ensures
        r1 == r2,
{
    lemma_ranking_unique(pool, eliminate_key(pool), r1, r2);
}

/// An ascending ranking of a pool begins with the member that is ranked
/// first.
pub proof fn lemma_ascending_begins_with_first(
    pool: Set<Seq<u8>>,
    key: spec_fn(Seq<u8>) -> nat,
    r: Seq<Seq<u8>>,
    w: Seq<u8>,
)
    requires
        forall|v: Seq<u8>| #[trigger] pool.contains(v) ==> v.len() == 5,
        ranked_ascending(pool, key, r),
        ranked_first(pool, key, w),
    ensures
        r.len() > 0,
        r[0] == w,
{
    assert(r.to_set().contains(w));
    let j = choose|j: int| 0 <= j < r.len() && r[j] == w;
    assert(r.to_set().contains(r[0]));
    if j > 0 {
        assert(ranks_before(key(r[0]), r[0], key(r[j]), r[j]));
        lemma_ranking_order_total(key, r[0], w);
    }
}

/// A descending ranking of a pool ends with the member that is ranked
/// first: the order by value ends with the word of least value.
pub proof fn lemma_descending_ends_with_first(
    pool: Set<Seq<u8>>,
    key: spec_fn(Seq<u8>) -> nat,
    r: Seq<Seq<u8>>,
    w: Seq<u8>,
)
    requires
        forall|v: Seq<u8>| #[trigger] pool.contains(v) ==> v.len() == 5,
        ranked_descending(pool, key, r),
        ranked_first(pool, key, w),
    ensures
        r.len() > 0,
        r[r.len() - 1] == w,
{
    assert(r.to_set().contains(w));
    let j = choose|j: int| 0 <= j < r.len() && r[j] == w;
    let last = r.len() - 1;
    assert(r.to_set().contains(r[last]));
    if j < last {
        assert(ranks_before(key(r[last]), r[last], key(r[j]), r[j]));
        lemma_ranking_order_total(key, r[last], w);
    }
}

} // verus!
