//! Feedback marks and what a turn of feedback says of the answer.

use crate::text::{trim_bounds, trimmed};
use vstd::prelude::*;

verus! {

/// What the game says of one position of a guess.
#[derive(Clone, Copy, Debug, PartialEq, Eq)]
pub enum Mark {
    /// `-`: the letter is not in the answer.
    Absent,
    /// `+`: the letter is in the answer, at another position.
    PresentWrongPosition,
    /// `=`: the letter is in the answer at this position.
    ExactMatch,
}

/// What the game says of a whole guess.
#[derive(Clone, Copy, Debug, PartialEq, Eq)]
pub enum Feedback {
    /// The game does not know the guess as a word.
    NotAWord,
    /// One mark for each position of the guess.
    Marks([Mark; 5]),
}

/// How an `Absent` mark is read.
#[derive(Clone, Copy, Debug, PartialEq, Eq)]
pub enum AbsentPolicy {
    /// The marked letter is taken out of the whole answer at once.
    NaiveAbsent,
    /// The marked letter is taken out of the whole answer only if no other
    /// position of the same guess has it marked present or exact.
    DuplicateAwareAbsent,
}

/// The mark that the symbol `b` stands for: `-`, `+` or `=`.
pub open spec fn mark_of(b: u8) -> Option<Mark> {
    if b == 0x2d {
        Some(Mark::Absent)
    } else if b == 0x2b {
        Some(Mark::PresentWrongPosition)
    } else if b == 0x3d {
        Some(Mark::ExactMatch)
    } else {
        None
    }
}

/// The token for a guess that the game does not know: `unknown`.
pub open spec fn unknown_token() -> Seq<u8> {
    seq![0x75u8, 0x6eu8, 0x6bu8, 0x6eu8, 0x6fu8, 0x77u8, 0x6eu8]
}

/// Whether `t` is five symbols, each of which stands for a mark.
pub open spec fn is_marks(t: Seq<u8>) -> bool {
    t.len() == 5 && forall|i: int| 0 <= i < 5 ==> mark_of(#[trigger] t[i]) is Some
}

/// Whether the line, without the whitespace around it, reads as `r`. The
/// token `unknown` reads as `NotAWord` where the token is supported. Five
/// mark symbols read as their marks. Any other line reads as nothing.
pub open spec fn reads_as(line: Seq<u8>, supports_unknown_token: bool, r: Option<Feedback>) -> bool {
    let t = trimmed(line);
    match r {
        Some(Feedback::NotAWord) => supports_unknown_token && t == unknown_token(),
        Some(Feedback::Marks(marks)) => is_marks(t) && forall|i: int|
            0 <= i < 5 ==> mark_of(#[trigger] t[i]) == Some(marks@[i]),
        None => !is_marks(t) && !(supports_unknown_token && t == unknown_token()),
    }
}

/// Whether the marks confirm the letter `ch`: some position of the guess
/// holds it with a mark other than `Absent`.
pub open spec fn confirmed_here(guess: Seq<u8>, marks: Seq<Mark>, ch: u8) -> bool {
    exists|p: int| 0 <= p < 5 && #[trigger] guess[p] == ch && marks[p] != Mark::Absent
}

/// The confirmed letters after a turn: those confirmed before, and those
/// that the marks confirm.
pub open spec fn confirmed_after(confirmed: Set<u8>, guess: Seq<u8>, marks: Seq<Mark>) -> Set<u8> {
    Set::new(|ch: u8| confirmed.contains(ch) || confirmed_here(guess, marks, ch))
}

/// Whether `w` fits the mark at position `p`: an exact letter is there,
/// any other marked letter is not. Under `NaiveAbsent` an absent letter is
/// nowhere in `w`.
pub open spec fn position_agrees(
    w: Seq<u8>,
    guess: Seq<u8>,
    marks: Seq<Mark>,
    policy: AbsentPolicy,
    p: int,
) -> bool {
    match marks[p] {
        Mark::ExactMatch => w[p] == guess[p],
        Mark::PresentWrongPosition => w[p] != guess[p],
        Mark::Absent => if policy == AbsentPolicy::NaiveAbsent {
            !w.contains(guess[p])
        } else {
            w[p] != guess[p]
        },
    }
}

/// Whether `w` fits what position `p` says of the whole answer: a letter
/// marked absent there, and confirmed nowhere in the same marks, is nowhere
/// in `w`.
pub open spec fn absence_agrees(w: Seq<u8>, guess: Seq<u8>, marks: Seq<Mark>, p: int) -> bool {
    marks[p] == Mark::Absent && !confirmed_here(guess, marks, guess[p]) ==> !w.contains(guess[p])
}

/// Whether `w` fits every mark of a turn.
pub open spec fn agrees(w: Seq<u8>, guess: Seq<u8>, marks: Seq<Mark>, policy: AbsentPolicy) -> bool {
    &&& forall|p: int| 0 <= p < 5 ==> #[trigger] position_agrees(w, guess, marks, policy, p)
    &&& forall|p: int| 0 <= p < 5 ==> #[trigger] absence_agrees(w, guess, marks, p)
}

/// Whether `w` holds every letter of `letters`.
pub open spec fn holds_each(w: Seq<u8>, letters: Set<u8>) -> bool {
    forall|ch: u8| #[trigger] letters.contains(ch) ==> w.contains(ch)
}

/// The pool after a turn. A guess that the game does not know leaves the
/// pool without that guess. Marks leave the members that fit them and hold
/// every letter confirmed so far, these marks included.
pub open spec fn narrowed(
    pool: Set<Seq<u8>>,
    confirmed: Set<u8>,
    policy: AbsentPolicy,
    guess: Seq<u8>,
    feedback: Feedback,
) -> Set<Seq<u8>> {
    match feedback {
        Feedback::NotAWord => pool.remove(guess),
        Feedback::Marks(marks) => pool.filter(
            |w: Seq<u8>|
                agrees(w, guess, marks@, policy) && holds_each(
                    w,
                    confirmed_after(confirmed, guess, marks@),
                ),
        ),
    }
}

/// The letters confirmed after a turn. A guess that the game does not know
/// confirms nothing.
pub open spec fn confirmed_next(
    confirmed: Set<u8>,
    guess: Seq<u8>,
    feedback: Feedback,
) -> Set<u8> {
    match feedback {
        Feedback::NotAWord => confirmed,
        Feedback::Marks(marks) => confirmed_after(confirmed, guess, marks@),
    }
}

impl Mark {
    /// The mark that the symbol `b` stands for, if it stands for one.
    pub fn from_symbol(b: u8) -> (r: Option<Mark>)
        ensures
            r == mark_of(b),
    {
        if b == 0x2d {
            Some(Mark::Absent)
        } else if b == 0x2b {
            Some(Mark::PresentWrongPosition)
        } else if b == 0x3d {
            Some(Mark::ExactMatch)
        } else {
            None
        }
    }
}

/// Whether the part `from..to` of `s` is the token `unknown`.
fn is_unknown_token(s: &[u8], from: usize, to: usize) -> (b: bool)
    requires
        from <= to <= s@.len(),
    ensures
        b == (s@.subrange(from as int, to as int) == unknown_token()),
{
    let token: [u8; 7] = [0x75, 0x6e, 0x6b, 0x6e, 0x6f, 0x77, 0x6e];
    assert(token@ =~= unknown_token());
    if to - from != 7 {
        return false;
    }
    let ghost t = s@.subrange(from as int, to as int);
    let mut i: usize = 0;
    while i < 7
        invariant
            i <= 7,
            to - from == 7,
            to <= s@.len(),
            t == s@.subrange(from as int, to as int),
            token@ == unknown_token(),
            forall|j: int| 0 <= j < i ==> t[j] == token@[j],
        decreases 7 - i,
    {
        if s[from + i] != token[i] {
            assert(t[i as int] != unknown_token()[i as int]);
            return false;
        }
        i += 1;
    }
    assert(t =~= unknown_token());
    true
}

/// Reads one line of feedback. The whitespace around the line is ignored.
/// A line that is neither five mark symbols nor, where it is supported, the
/// token `unknown` is refused.
pub fn parse_feedback(line: &[u8], supports_unknown_token: bool) -> (r: Option<Feedback>)
    ensures
        reads_as(line@, supports_unknown_token, r),
{
    let (a, b) = trim_bounds(line, 0, line.len());
    assert(line@.subrange(0, line@.len() as int) =~= line@);
    let ghost t = line@.subrange(a as int, b as int);
    if supports_unknown_token && is_unknown_token(line, a, b) {
        return Some(Feedback::NotAWord);
    }
    if b - a != 5 {
        return None;
    }
    let mut marks: [Mark; 5] = [Mark::Absent; 5];
    let mut i: usize = 0;
    while i < 5
        invariant
            i <= 5,
            b - a == 5,
            b <= line@.len(),
            t == line@.subrange(a as int, b as int),
            t == trimmed(line@),
            forall|j: int| 0 <= j < i ==> mark_of(#[trigger] t[j]) == Some(marks@[j]),
        decreases 5 - i,
    {
        match Mark::from_symbol(line[a + i]) {
            Some(m) => {
                marks[i] = m;
            },
            None => {
                assert(t[i as int] == line@[a + i]);
                assert(!is_marks(t));
                assert(t.len() != unknown_token().len());
                return None;
            },
        }
        i += 1;
    }
    Some(Feedback::Marks(marks))
}

} // verus!
