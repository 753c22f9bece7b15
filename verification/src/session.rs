//! One solving session: the pool, the letters confirmed so far, and the
//! steps between a guess and the feedback on it.

use crate::feedback::{
    absence_agrees, confirmed_after, confirmed_here, confirmed_next, holds_each, narrowed,
    parse_feedback, position_agrees, reads_as, AbsentPolicy, Feedback, Mark,
};
use crate::rank::{eliminate_key, ranked_first};
use crate::word::{has_all, Word};
use crate::wordlist::Wordlist;
use vstd::prelude::*;

verus! {

/// Whether `w` fits the marks at the positions before `n`.
spec fn fits_below(w: Seq<u8>, guess: Seq<u8>, marks: Seq<Mark>, policy: AbsentPolicy, n: int) -> bool {
    forall|p: int| 0 <= p < n ==> #[trigger] position_agrees(w, guess, marks, policy, p)
}

/// Whether `w` fits what the positions before `n` say of the whole answer.
spec fn absence_below(w: Seq<u8>, guess: Seq<u8>, marks: Seq<Mark>, n: int) -> bool {
    forall|p: int| 0 <= p < n ==> #[trigger] absence_agrees(w, guess, marks, p)
}

/// Whether a position before `n` confirms the letter `ch`.
spec fn confirmed_below(guess: Seq<u8>, marks: Seq<Mark>, ch: u8, n: int) -> bool {
    exists|p: int| 0 <= p < n && #[trigger] guess[p] == ch && marks[p] != Mark::Absent
}

/// Whether the marks confirm the letter `ch` at some position of the guess.
fn confirms(guess: &Word, marks: &[Mark; 5], ch: u8) -> (b: bool)
    ensures
        b == confirmed_here(guess@, marks@, ch),
{
    let mut p: usize = 0;
    while p < 5
        invariant
            p <= 5,
            !confirmed_below(guess@, marks@, ch, p as int),
        decreases 5 - p,
    {
        let here: bool = match marks[p] {
            Mark::Absent => false,
            _ => guess.at(p) == ch,
        };
        if here {
            assert(guess@[p as int] == ch && marks@[p as int] != Mark::Absent);
            return true;
        }
        p += 1;
    }
    false
}

/// Adds `ch` to `letters` unless it is there.
fn note_letter(letters: &mut Vec<u8>, ch: u8)
    requires
        old(letters)@.no_duplicates(),
    ensures
        final(letters)@.no_duplicates(),
        final(letters)@.to_set() == old(letters)@.to_set().insert(ch),
{
    let mut i: usize = 0;
    while i < letters.len()
        invariant
            i <= letters@.len(),
            letters@ == old(letters)@,
            letters@.no_duplicates(),
            forall|j: int| 0 <= j < i ==> letters@[j] != ch,
        decreases letters@.len() - i,
    {
        if letters[i] == ch {
            assert(letters@.to_set().contains(ch));
            assert(letters@.to_set().insert(ch) =~= letters@.to_set());
            return ;
        }
        i += 1;
    }
    proof {
        letters@.lemma_push_to_set_commute(ch);
    }
    letters.push(ch);
}

/// Narrows `pool` by the marks on `guess`, and adds the letters that the
/// marks confirm to `confirmed`.
fn apply_marks(
    pool: &mut Wordlist,
    confirmed: &mut Vec<u8>,
    policy: AbsentPolicy,
    guess: &Word,
    marks: &[Mark; 5],
)
    requires
        old(confirmed)@.no_duplicates(),
    ensures
        final(confirmed)@.no_duplicates(),
        final(pool)@ == narrowed(
            old(pool)@,
            old(confirmed)@.to_set(),
            policy,
            guess@,
            Feedback::Marks(*marks),
        ),
        final(confirmed)@.to_set() == confirmed_after(old(confirmed)@.to_set(), guess@, marks@),
{
    let ghost start = pool@;
    let ghost known = confirmed@.to_set();
    let ghost g = guess@;
    let ghost m = marks@;
    let naive: bool = match policy {
        AbsentPolicy::NaiveAbsent => true,
        AbsentPolicy::DuplicateAwareAbsent => false,
    };
    let mut p: usize = 0;
    assert(pool@ =~= start.filter(|w: Seq<u8>| fits_below(w, g, m, policy, 0)));
    assert(confirmed@.to_set() =~= Set::new(
        |ch: u8| known.contains(ch) || confirmed_below(g, m, ch, 0),
    ));
    while p < 5
        invariant
            p <= 5,
            g == guess@,
            m == marks@,
            naive == (policy == AbsentPolicy::NaiveAbsent),
            confirmed@.no_duplicates(),
            pool@ == start.filter(|w: Seq<u8>| fits_below(w, g, m, policy, p as int)),
            confirmed@.to_set() == Set::new(
                |ch: u8| known.contains(ch) || confirmed_below(g, m, ch, p as int),
            ),
        decreases 5 - p,
    {
        let ch: u8 = guess.at(p);
        let ghost pool_before = pool@;
        let ghost conf_before = confirmed@.to_set();
        match marks[p] {
            Mark::ExactMatch => {
                pool.eliminate_non_exact(p, ch);
                note_letter(confirmed, ch);
            },
            Mark::PresentWrongPosition => {
                pool.eliminate_exact(p, ch);
                note_letter(confirmed, ch);
            },
            Mark::Absent => {
                if naive {
                    pool.eliminate_char(ch);
                } else {
                    pool.eliminate_exact(p, ch);
                }
            },
        }
        proof {
            assert forall|w: Seq<u8>| pool@.contains(w) <==> start.filter(
                |w: Seq<u8>| fits_below(w, g, m, policy, p + 1),
            ).contains(w) by {
                if pool_before.contains(w) {
                    assert(fits_below(w, g, m, policy, p as int));
                    if position_agrees(w, g, m, policy, p as int) {
                        assert(fits_below(w, g, m, policy, p + 1));
                    }
                }
                if fits_below(w, g, m, policy, p + 1) {
                    assert(position_agrees(w, g, m, policy, p as int));
                    assert(fits_below(w, g, m, policy, p as int));
                }
            }
            assert(pool@ =~= start.filter(|w: Seq<u8>| fits_below(w, g, m, policy, p + 1)));
            assert forall|c: u8| confirmed@.to_set().contains(c) <==> (known.contains(c)
                || confirmed_below(g, m, c, p + 1)) by {
                if confirmed_below(g, m, c, p as int) {
                    let q = choose|q: int| 0 <= q < p && #[trigger] g[q] == c && m[q] != Mark::Absent;
                    assert(0 <= q < p + 1 && g[q] == c && m[q] != Mark::Absent);
                }
                if m[p as int] != Mark::Absent && c == ch {
                    assert(g[p as int] == c);
                }
                if confirmed_below(g, m, c, p + 1) {
                    let q = choose|q: int|
                        0 <= q < p + 1 && #[trigger] g[q] == c && m[q] != Mark::Absent;
                    if q < p {
                        assert(confirmed_below(g, m, c, p as int));
                    }
                }
            }
            assert(confirmed@.to_set() =~= Set::new(
                |c: u8| known.contains(c) || confirmed_below(g, m, c, p + 1),
            ));
        }
        p += 1;
    }
    let ghost fitted = pool@;
    assert(pool@ =~= start.filter(
        |w: Seq<u8>| fits_below(w, g, m, policy, 5) && absence_below(w, g, m, 0),
    ));
    if !naive {
        let mut q: usize = 0;
        while q < 5
            invariant
                q <= 5,
                g == guess@,
                m == marks@,
                pool@ == start.filter(
                    |w: Seq<u8>| fits_below(w, g, m, policy, 5) && absence_below(w, g, m, q as int),
                ),
            decreases 5 - q,
        {
            let ch: u8 = guess.at(q);
            let ghost pool_before = pool@;
            let lone: bool = match marks[q] {
                Mark::Absent => !confirms(guess, marks, ch),
                _ => false,
            };
            if lone {
                pool.eliminate_char(ch);
            }
            proof {
                assert forall|w: Seq<u8>| pool@.contains(w) <==> start.filter(
                    |w: Seq<u8>| fits_below(w, g, m, policy, 5) && absence_below(w, g, m, q + 1),
                ).contains(w) by {
                    if pool_before.contains(w) {
                        assert(absence_below(w, g, m, q as int));
                        if absence_agrees(w, g, m, q as int) {
                            assert(absence_below(w, g, m, q + 1));
                        }
                    }
                    if absence_below(w, g, m, q + 1) {
                        assert(absence_agrees(w, g, m, q as int));
                        assert(absence_below(w, g, m, q as int));
                    }
                }
                assert(pool@ =~= start.filter(
                    |w: Seq<u8>| fits_below(w, g, m, policy, 5) && absence_below(w, g, m, q + 1),
                ));
            }
            q += 1;
        }
    }
    let ghost marked = pool@;
    pool.eliminate_missing_any(confirmed.as_slice());
    proof {
        let after = confirmed_after(known, g, m);
        assert(confirmed@.to_set() =~= after);
        assert forall|w: Seq<u8>| pool@.contains(w) <==> narrowed(
            start,
            known,
            policy,
            g,
            Feedback::Marks(*marks),
        ).contains(w) by {
            if has_all(w, confirmed@) {
                assert forall|c: u8| #[trigger] after.contains(c) implies w.contains(c) by {
                    let i = choose|i: int| 0 <= i < confirmed@.len() && confirmed@[i] == c;
                    assert(w.contains(confirmed@[i]));
                }
            }
            if holds_each(w, after) {
                assert forall|i: int| 0 <= i < confirmed@.len() implies w.contains(
                    #[trigger] confirmed@[i],
                ) by {
                    assert(after.contains(confirmed@[i]));
                }
            }
            if fits_below(w, g, m, policy, 5) && naive {
                assert forall|p: int| 0 <= p < 5 implies #[trigger] absence_agrees(w, g, m, p) by {
                    assert(position_agrees(w, g, m, policy, p));
                }
            }
        }
        assert(pool@ =~= narrowed(start, known, policy, g, Feedback::Marks(*marks)));
    }
}

/// What the solver does next.
#[derive(Clone, Copy, Debug, PartialEq, Eq)]
pub enum Step {
    /// More than one candidate is left: this word is the next guess.
    Guess(Word),
    /// One candidate is left: this word is the answer.
    Answer(Word),
}

/// Why a session cannot go on.
#[derive(Clone, Copy, Debug, PartialEq, Eq)]
pub enum SolveError {
    /// No word of the dictionary fits the feedback given.
    NoConsistentCandidate,
}

/// The state of one solving session.
#[derive(Debug)]
pub struct Session {
    pool: Wordlist,
    confirmed: Vec<u8>,
    policy: AbsentPolicy,
    supports_unknown_token: bool,
}

impl Session {
    /// No confirmed letter is kept twice.
    #[verifier::type_invariant]
    spec fn well_formed(self) -> bool {
        self.confirmed@.no_duplicates()
    }

    /// The words still consistent with all feedback so far.
    pub closed spec fn candidates(&self) -> Set<Seq<u8>> {
        self.pool@
    }

    /// The letters confirmed present in the answer so far.
    pub closed spec fn confirmed_letters(&self) -> Set<u8> {
        self.confirmed@.to_set()
    }

    /// How the session reads an `Absent` mark.
    pub closed spec fn absent_policy(&self) -> AbsentPolicy {
        self.policy
    }

    /// Whether the session takes the token for a guess that the game does
    /// not know.
    pub closed spec fn takes_unknown(&self) -> bool {
        self.supports_unknown_token
    }

    /// A session on the whole dictionary, with no letter confirmed.
    pub fn new(pool: Wordlist, policy: AbsentPolicy, supports_unknown_token: bool) -> (s: Session)
        ensures
            s.candidates() == pool@,
            s.confirmed_letters() == Set::<u8>::empty(),
            s.absent_policy() == policy,
            s.takes_unknown() == supports_unknown_token,
    {
        let s = Session { pool, confirmed: Vec::new(), policy, supports_unknown_token };
        assert(s.confirmed@.to_set() =~= Set::<u8>::empty());
        s
    }

    /// The candidate pool.
    pub fn pool(&self) -> (pool: &Wordlist)
        ensures
            pool@ == self.candidates(),
    {
        &self.pool
    }

    /// The letters confirmed so far, each once.
    pub fn confirmed(&self) -> (letters: &Vec<u8>)
        ensures
            letters@.to_set() == self.confirmed_letters(),
            letters@.no_duplicates(),
    {
        proof {
            use_type_invariant(self);
        }
        &self.confirmed
    }

    /// How the session reads an `Absent` mark.
    pub fn policy(&self) -> (policy: AbsentPolicy)
        ensures
            policy == self.absent_policy(),
    {
        self.policy
    }

    /// Whether the session takes the token for a guess that the game does
    /// not know.
    pub fn supports_unknown_token(&self) -> (b: bool)
        ensures
            b == self.takes_unknown(),
    {
        self.supports_unknown_token
    }

    /// What to do next. With no candidate left the session has failed. With
    /// one left, that word is the answer. With more, the next guess is the
    /// candidate with the fewest coverage failures.
    pub fn next_step(&self) -> (r: Result<Step, SolveError>)
        ensures
            self.candidates().finite(),
            self.candidates().len() == 0 ==> r == Err::<Step, SolveError>(
                SolveError::NoConsistentCandidate,
            ),
            self.candidates().len() == 1 ==> (r matches Ok(Step::Answer(w)) && self.candidates()
                == set![w@]),
            self.candidates().len() > 1 ==> (r matches Ok(Step::Guess(g)) && ranked_first(
                self.candidates(),
                eliminate_key(self.candidates()),
                g@,
            )),
    {
        let n: usize = self.pool.len();
        if n == 0 {
            Err(SolveError::NoConsistentCandidate)
        } else if n == 1 {
            match self.pool.min_value_word() {
                Some(w) => {
                    proof {
                        let pool = self.pool@;
                        assert(pool.contains(w@));
                        assert(pool.remove(w@).len() == 0);
                        assert(pool.remove(w@) =~= Set::<Seq<u8>>::empty());
                        assert(pool =~= set![w@]);
                    }
                    Ok(Step::Answer(w))
                },
                None => Err(SolveError::NoConsistentCandidate),
            }
        } else {
            match self.pool.best_guess() {
                Some(g) => Ok(Step::Guess(g)),
                None => Err(SolveError::NoConsistentCandidate),
            }
        }
    }

    /// Reads one line of feedback as this session takes it.
    pub fn read_feedback(&self, line: &[u8]) -> (r: Option<Feedback>)
        ensures
            reads_as(line@, self.takes_unknown(), r),
    {
        parse_feedback(line, self.supports_unknown_token)
    }

    /// Takes the feedback on `guess` into the session: the pool is narrowed
    /// to the candidates that fit it, and the letters that it confirms are
    /// kept for the turns to come.
    pub fn apply_feedback(&mut self, guess: &Word, feedback: &Feedback)
        ensures
            final(self).candidates() == narrowed(
                old(self).candidates(),
                old(self).confirmed_letters(),
                old(self).absent_policy(),
                guess@,
                *feedback,
            ),
            final(self).confirmed_letters() == confirmed_next(
                old(self).confirmed_letters(),
                guess@,
                *feedback,
            ),
            final(self).candidates().subset_of(old(self).candidates()),
            final(self).absent_policy() == old(self).absent_policy(),
            final(self).takes_unknown() == old(self).takes_unknown(),
    {
        proof {
            use_type_invariant(&*self);
        }
        let mut pool = Wordlist::new();
        let mut confirmed: Vec<u8> = Vec::new();
        std::mem::swap(&mut pool, &mut self.pool);
        std::mem::swap(&mut confirmed, &mut self.confirmed);
        match feedback {
            Feedback::NotAWord => {
                pool.eliminate_non_dict(guess);
            },
            Feedback::Marks(marks) => {
                apply_marks(&mut pool, &mut confirmed, self.policy, guess, marks);
            },
        }
        self.pool = pool;
        self.confirmed = confirmed;
    }
}

} // verus!
