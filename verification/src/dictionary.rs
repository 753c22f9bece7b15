//! The dictionary as text: one word on a line.

use crate::text::{is_line, trim_bounds, trimmed};
use crate::word::{is_word, Word, WordError};
use crate::wordlist::{views, Wordlist};
use vstd::prelude::*;
use vstd::slice::slice_subrange;

verus! {

/// Whether `w` is an entry of the text `s`: a line of `s`, without the
/// whitespace around it, that is five bytes long.
pub open spec fn is_entry(s: Seq<u8>, w: Seq<u8>) -> bool {
    w.len() == 5 && exists|from: int, to: int|
        #![trigger is_line(s, from, to)]
        is_line(s, from, to) && trimmed(s.subrange(from, to)) == w
}

/// The entries of the text `s`. Lines of another length are passed over.
pub open spec fn entries(s: Seq<u8>) -> Set<Seq<u8>> {
    Set::new(|w: Seq<u8>| is_entry(s, w))
}

/// Whether `w` is an entry of `s` on a line that ends before `n`.
spec fn is_entry_before(s: Seq<u8>, n: int, w: Seq<u8>) -> bool {
    w.len() == 5 && exists|from: int, to: int|
        #![trigger is_line(s, from, to)]
        is_line(s, from, to) && to < n && trimmed(s.subrange(from, to)) == w
}

/// The entries of `s` on lines that end before `n`.
spec fn entries_before(s: Seq<u8>, n: int) -> Set<Seq<u8>> {
    Set::new(|w: Seq<u8>| is_entry_before(s, n, w))
}

/// The one line of `s` that ends in `start..=end`, where `start` begins a
/// line and no line feed lies in `start..end`, is `start..end`.
proof fn lemma_line_found(s: Seq<u8>, start: int, end: int, from: int, to: int)
    requires
        is_line(s, start, end),
        is_line(s, from, to),
        start <= to,
    ensures
        to < end + 1 ==> from == start && to == end,
        end == s.len() ==> from == start && to == end,
{
    if to < end {
        assert(s[to] != 0x0a);
    }
    if to == end {
        if from < start {
            assert(s[start - 1] == 0x0a);
        } else if from > start {
            assert(s[from - 1] != 0x0a);
        }
    }
}

/// Takes the line `from..to` of `s` into `words` if it is an entry. Gives
/// `false`, and leaves `words` as they are, if the entry is no word.
fn take_line(s: &[u8], from: usize, to: usize, words: &mut Vec<Word>) -> (ok: bool)
    requires
        from <= to <= s@.len(),
        forall|i: int| 0 <= i < old(words)@.len() ==> is_word(#[trigger] views(old(words)@)[i]),
    ensures
        forall|i: int| 0 <= i < final(words)@.len() ==> is_word(#[trigger] views(final(words)@)[i]),
        ok == (trimmed(s@.subrange(from as int, to as int)).len() == 5 ==> is_word(
            trimmed(s@.subrange(from as int, to as int)),
        )),
        ok && trimmed(s@.subrange(from as int, to as int)).len() == 5 ==> views(
            final(words)@,
        ).to_set() == views(old(words)@).to_set().insert(
            trimmed(s@.subrange(from as int, to as int)),
        ),
        trimmed(s@.subrange(from as int, to as int)).len() != 5 ==> final(words)@ == old(words)@,
{
    let (a, b) = trim_bounds(s, from, to);
    if b - a != 5 {
        return true;
    }
    match Word::from_bytes(slice_subrange(s, a, b)) {
        Ok(w) => {
            let ghost before = views(words@);
            words.push(w);
            proof {
                assert(views(words@) =~= before.push(w@));
                before.lemma_push_to_set_commute(w@);
            }
            true
        },
        Err(_) => false,
    }
}

impl Wordlist {
    /// Reads a dictionary: the pool of the entries of `content`. Lines are
    /// parted by line feeds. A line that is not five bytes long, once the
    /// whitespace around it is taken off, is passed over. A line that is,
    /// and holds anything but lowercase letters, fails the whole reading.
    pub fn parse(content: &[u8]) -> (r: Result<Wordlist, WordError>)
        ensures
            match r {
                Ok(pool) => pool@ == entries(content@) && forall|w: Seq<u8>|
                    #[trigger] entries(content@).contains(w) ==> is_word(w),
                Err(e) => e == WordError::NotLowercase && exists|w: Seq<u8>|
                    #[trigger] entries(content@).contains(w) && !is_word(w),
            },
    {
        let ghost s = content@;
        let mut words: Vec<Word> = Vec::new();
        let mut start: usize = 0;
        let mut i: usize = 0;
        assert(views(words@).to_set() =~= entries_before(s, 0));
        while i < content.len()
            invariant
                start <= i <= content@.len(),
                s == content@,
                start == 0 || s[start - 1] == 0x0a,
                forall|j: int| start <= j < i ==> s[j] != 0x0a,
                forall|j: int| 0 <= j < words@.len() ==> is_word(#[trigger] views(words@)[j]),
                views(words@).to_set() == entries_before(s, start as int),
            decreases content@.len() - i,
        {
            if content[i] == 0x0a {
                let ghost before = views(words@).to_set();
                let ghost w = trimmed(s.subrange(start as int, i as int));
                assert(is_line(s, start as int, i as int));
                let ok: bool = take_line(content, start, i, &mut words);
                if !ok {
                    proof {
                        assert(is_entry(s, w));
                        assert(entries(s).contains(w));
                    }
                    return Err(WordError::NotLowercase);
                }
                proof {
                    assert forall|v: Seq<u8>| views(words@).to_set().contains(v)
                        <==> entries_before(s, i + 1).contains(v) by {
                        if before.contains(v) {
                            assert(is_entry_before(s, start as int, v));
                            assert(is_entry_before(s, i + 1, v));
                        }
                        if w.len() == 5 && v == w {
                            assert(is_entry_before(s, i + 1, v));
                        }
                        if is_entry_before(s, i + 1, v) {
                            let (from, to) = choose|from: int, to: int|
                                #![trigger is_line(s, from, to)]
                                is_line(s, from, to) && to < i + 1 && trimmed(s.subrange(from, to))
                                    == v;
                            if to < start {
                                assert(is_entry_before(s, start as int, v));
                            } else {
                                lemma_line_found(s, start as int, i as int, from, to);
                            }
                        }
                    }
                    assert(views(words@).to_set() =~= entries_before(s, i + 1));
                }
                start = i + 1;
            }
            i += 1;
        }
        let ghost before = views(words@).to_set();
        let ghost w = trimmed(s.subrange(start as int, i as int));
        assert(is_line(s, start as int, i as int));
        let ok: bool = take_line(content, start, i, &mut words);
        if !ok {
            proof {
                assert(is_entry(s, w));
                assert(entries(s).contains(w));
            }
            return Err(WordError::NotLowercase);
        }
        proof {
            assert forall|v: Seq<u8>| views(words@).to_set().contains(v) <==> entries(s).contains(
                v,
            ) by {
                if before.contains(v) {
                    assert(is_entry_before(s, start as int, v));
                    let (from, to) = choose|from: int, to: int|
                        #![trigger is_line(s, from, to)]
                        is_line(s, from, to) && to < start && trimmed(s.subrange(from, to)) == v;
                    assert(is_line(s, from, to));
                    assert(is_entry(s, v));
                }
                if w.len() == 5 && v == w {
                    assert(is_entry(s, v));
                }
                if is_entry(s, v) {
                    let (from, to) = choose|from: int, to: int|
                        #![trigger is_line(s, from, to)]
                        is_line(s, from, to) && trimmed(s.subrange(from, to)) == v;
                    if to < start {
                        assert(is_entry_before(s, start as int, v));
                    } else {
                        lemma_line_found(s, start as int, i as int, from, to);
                    }
                }
            }
            assert(views(words@).to_set() =~= entries(s));
            assert forall|v: Seq<u8>| #[trigger] entries(s).contains(v) implies is_word(v) by {
                let j = choose|j: int| 0 <= j < views(words@).len() && views(words@)[j] == v;
            }
        }
        Ok(Wordlist::from_words(words.as_slice()))
    }
}

} // verus!
