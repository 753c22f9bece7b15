use wordle_solver::rank::Strategy;
use wordle_solver::word::Word;
use wordle_solver::wordlist::Wordlist;

fn word(s: &str) -> Word {
    Word::from_bytes(s.as_bytes()).unwrap()
}

fn pool(words: &[&str]) -> Wordlist {
    let list: Vec<Word> = words.iter().map(|s| word(s)).collect();
    Wordlist::from_words(&list)
}

fn texts(words: &[Word]) -> Vec<String> {
    words.iter().map(|w| w.text()).collect()
}

#[test]
fn natural_order_goes_by_the_first_difference() {
    assert!(word("angle").precedes(&word("ankle")));
    assert!(!word("ankle").precedes(&word("angle")));
    assert!(!word("angle").precedes(&word("angle")));
    assert!(word("aaaaz").precedes(&word("aaaba")));
    assert!(word("azzzz").precedes(&word("baaaa")));
    assert!(word("angle").same(&word("angle")));
    assert!(!word("angle").same(&word("ankle")));
    assert!(word("aaaaa").rank() < word("aaaab").rank());
}

#[test]
fn words_by_value_descends_by_value() {
    // frequencies: a=3, b=2, c=1; values: aaaaa=3, aaaab=5, aaabc=6
    let p = pool(&["aaaaa", "aaaab", "aaabc"]);
    assert_eq!(texts(&p.words_by_value()), vec!["aaabc", "aaaab", "aaaaa"]);
    assert_eq!(p.min_value_word().map(|w| w.text()), Some("aaaaa".to_string()));
}

#[test]
fn words_by_value_breaks_ties_by_natural_order() {
    // abbbb and baaaa hold the same letters, so they have equal value.
    // frequencies: a=2, b=2, c=1; values: abbbb=4, baaaa=4, ccccc=1
    let p = pool(&["baaaa", "abbbb", "ccccc"]);
    assert_eq!(texts(&p.words_by_value()), vec!["baaaa", "abbbb", "ccccc"]);
    let q = pool(&["baaaa", "abbbb"]);
    assert_eq!(texts(&q.words_by_value()), vec!["baaaa", "abbbb"]);
    assert_eq!(q.min_value_word().map(|w| w.text()), Some("abbbb".to_string()));
}

#[test]
fn min_value_word_is_the_last_of_words_by_value() {
    let p = pool(&["apple", "angle", "ankle", "ample", "mound", "sassy", "stays"]);
    let ranked = p.words_by_value();
    assert_eq!(ranked.len(), 7);
    assert_eq!(p.min_value_word(), ranked.last().copied());
    let freq = p.letter_frequencies();
    for pair in ranked.windows(2) {
        let (hi, lo) = (pair[0], pair[1]);
        let (vh, vl) = (hi.value(&freq), lo.value(&freq));
        assert!(vh > vl || (vh == vl && lo.precedes(&hi)));
    }
}

#[test]
fn rankings_of_empty_pool_are_empty() {
    let p = Wordlist::new();
    assert!(p.words_by_value().is_empty());
    assert!(p.words_by_eliminate().is_empty());
    assert_eq!(p.min_value_word(), None);
    assert_eq!(p.best_guess(), None);
}

#[test]
fn rankings_of_one_word_hold_that_word() {
    let p = pool(&["angle"]);
    assert_eq!(texts(&p.words_by_value()), vec!["angle"]);
    assert_eq!(texts(&p.words_by_eliminate()), vec!["angle"]);
    assert_eq!(p.min_value_word(), Some(word("angle")));
    assert_eq!(p.best_guess(), Some(word("angle")));
}

#[test]
fn words_by_eliminate_ascends_by_coverage_failures() {
    // abcde covers aabbb and itself: 1 failure (vwxyz).
    // aabbb lacks c, d, e of abcde: 2 failures (abcde, vwxyz).
    // vwxyz covers only itself: 2 failures (aabbb, abcde).
    let p = pool(&["vwxyz", "aabbb", "abcde"]);
    assert_eq!(texts(&p.words_by_eliminate()), vec!["abcde", "aabbb", "vwxyz"]);
    assert_eq!(p.best_guess(), Some(word("abcde")));
}

#[test]
fn words_by_eliminate_breaks_ties_by_natural_order() {
    let p = pool(&["mound", "apple", "zesty"]);
    // no word covers another: each has 2 failures.
    assert_eq!(texts(&p.words_by_eliminate()), vec!["apple", "mound", "zesty"]);
}

#[test]
fn words_by_eliminate_is_the_same_on_every_call() {
    let a = pool(&["apple", "angle", "ankle", "ample", "mound", "sassy", "stays"]);
    let b = pool(&["stays", "sassy", "mound", "ample", "ankle", "angle", "apple"]);
    let first = a.words_by_eliminate();
    assert_eq!(first, a.words_by_eliminate());
    assert_eq!(first, b.words_by_eliminate());
    assert_eq!(first.len(), 7);
    assert_eq!(a.best_guess(), first.first().copied());
    let all = a.words();
    let failures = |k: &Word| all.iter().filter(|w| !k.has_each(&w.bytes())).count();
    for pair in first.windows(2) {
        let (lo, hi) = (pair[0], pair[1]);
        let (fl, fh) = (failures(&lo), failures(&hi));
        assert!(fl < fh || (fl == fh && lo.precedes(&hi)));
    }
}

#[test]
fn rankings_list_every_member_once() {
    let p = pool(&["apple", "angle", "ankle", "ample", "mound", "sassy", "stays"]);
    let mut by_value = texts(&p.words_by_value());
    let mut by_eliminate = texts(&p.words_by_eliminate());
    by_value.sort();
    by_eliminate.sort();
    let members = texts(&p.words());
    assert_eq!(by_value, members);
    assert_eq!(by_eliminate, members);
}

#[test]
fn ranked_goes_by_the_named_strategy() {
    let p = pool(&["vwxyz", "aabbb", "abcde"]);
    assert_eq!(p.ranked(Strategy::ByValue), p.words_by_value());
    assert_eq!(p.ranked(Strategy::ByEliminate), p.words_by_eliminate());
    // frequencies: a=2, b=2, each other letter 1; values: abcde=7, vwxyz=5, aabbb=4
    assert_eq!(texts(&p.ranked(Strategy::ByValue)), vec!["abcde", "vwxyz", "aabbb"]);
    assert_eq!(texts(&p.ranked(Strategy::ByEliminate)), vec!["abcde", "aabbb", "vwxyz"]);
}
