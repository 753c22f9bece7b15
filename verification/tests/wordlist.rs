use wordle_solver::word::Word;
use wordle_solver::wordlist::Wordlist;

fn word(s: &str) -> Word {
    Word::from_bytes(s.as_bytes()).unwrap()
}

fn pool(words: &[&str]) -> Wordlist {
    let list: Vec<Word> = words.iter().map(|s| word(s)).collect();
    Wordlist::from_words(&list)
}

fn texts(words: &[Word]) -> Vec<String> {
    words.iter().map(|w| w.text()).collect()
}

fn members(pool: &Wordlist) -> Vec<String> {
    texts(&pool.words())
}

#[test]
fn new_pool_is_empty() {
    let p = Wordlist::new();
    assert_eq!(p.len(), 0);
    assert!(p.is_empty());
    assert!(p.words().is_empty());
}

#[test]
fn pool_holds_each_word_once() {
    let p = pool(&["apple", "angle", "apple", "ankle", "angle"]);
    assert_eq!(p.len(), 3);
    assert!(!p.is_empty());
    assert_eq!(members(&p), vec!["angle", "ankle", "apple"]);
    assert!(p.contains(&word("apple")));
    assert!(!p.contains(&word("ample")));
}

#[test]
fn pool_members_come_in_natural_order_whatever_the_input_order() {
    let a = pool(&["zebra", "apple", "mango", "angle"]);
    let b = pool(&["angle", "mango", "apple", "zebra"]);
    assert_eq!(members(&a), vec!["angle", "apple", "mango", "zebra"]);
    assert_eq!(members(&a), members(&b));
}

#[test]
fn clone_has_the_same_members() {
    let a = pool(&["apple", "angle"]);
    let mut b = a.clone();
    b.eliminate_char(b'p');
    assert_eq!(members(&a), vec!["angle", "apple"]);
    assert_eq!(members(&b), vec!["angle"]);
}

#[test]
fn letter_frequencies_count_distinct_words() {
    let p = pool(&["aabbb", "abcde"]);
    let freq = p.letter_frequencies();
    assert_eq!(freq[0], 2);
    assert_eq!(freq[1], 2);
    assert_eq!(freq[2], 1);
    assert_eq!(freq[3], 1);
    assert_eq!(freq[4], 1);
    for i in 5..26 {
        assert_eq!(freq[i], 0);
    }
}

#[test]
fn letter_frequencies_of_empty_pool_are_zero() {
    assert_eq!(Wordlist::new().letter_frequencies(), [0usize; 26]);
}

#[test]
fn letter_frequencies_reach_the_last_letter() {
    let p = pool(&["pizza", "fuzzy", "apple"]);
    let freq = p.letter_frequencies();
    assert_eq!(freq[25], 2);
    assert_eq!(freq[(b'p' - b'a') as usize], 2);
    assert_eq!(freq[(b'a' - b'a') as usize], 2);
    assert_eq!(freq[(b'y' - b'a') as usize], 1);
}

#[test]
fn value_sums_entries_of_distinct_letters() {
    let mut freq = [0usize; 26];
    freq[0] = 2;
    freq[1] = 2;
    freq[2] = 1;
    freq[3] = 1;
    freq[4] = 1;
    assert_eq!(word("abcde").value(&freq), 7);
    assert_eq!(word("aabbb").value(&freq), 4);
    assert_eq!(word("aaaaa").value(&freq), 2);
    assert_eq!(word("vwxyz").value(&freq), 0);
    assert_eq!(word("abcde").wide_value(&freq), 7);
}

#[test]
fn wide_value_holds_sums_beyond_the_table_type() {
    let freq = [usize::MAX; 26];
    assert_eq!(word("abcde").wide_value(&freq), 5 * (usize::MAX as u128));
    assert_eq!(word("aaaab").wide_value(&freq), 2 * (usize::MAX as u128));
}

#[test]
fn eliminate_char_drops_words_with_the_letter() {
    let mut p = pool(&["apple", "angle", "ankle", "ample", "mound"]);
    p.eliminate_char(b'p');
    assert_eq!(members(&p), vec!["angle", "ankle", "mound"]);
    for w in p.words() {
        assert!(!w.has(b'p'));
    }
}

#[test]
fn eliminate_non_exact_keeps_words_with_the_letter_in_place() {
    let mut p = pool(&["apple", "angle", "ankle", "ample", "mound"]);
    p.eliminate_non_exact(1, b'n');
    assert_eq!(members(&p), vec!["angle", "ankle"]);
    for w in p.words() {
        assert_eq!(w.at(1), b'n');
    }
}

#[test]
fn eliminate_exact_drops_words_with_the_letter_in_place() {
    let mut p = pool(&["apple", "angle", "ankle", "ample", "mound"]);
    p.eliminate_exact(0, b'a');
    assert_eq!(members(&p), vec!["mound"]);
    let mut q = pool(&["apple", "angle", "ankle", "ample", "mound"]);
    q.eliminate_exact(4, b'e');
    assert_eq!(members(&q), vec!["mound"]);
    let mut r = pool(&["apple", "angle", "ankle", "ample", "mound"]);
    r.eliminate_exact(3, b'l');
    assert_eq!(members(&r), vec!["mound"]);
    let mut s = pool(&["apple", "angle", "ankle", "ample", "mound"]);
    s.eliminate_exact(2, b'p');
    assert_eq!(members(&s), vec!["angle", "ankle", "mound"]);
}

#[test]
fn eliminate_non_dict_drops_only_the_guess() {
    let mut p = pool(&["apple", "angle", "ankle"]);
    p.eliminate_non_dict(&word("angle"));
    assert_eq!(members(&p), vec!["ankle", "apple"]);
    p.eliminate_non_dict(&word("zebra"));
    assert_eq!(members(&p), vec!["ankle", "apple"]);
}

#[test]
fn eliminate_missing_any_keeps_words_with_every_letter() {
    let mut p = pool(&["apple", "angle", "ankle", "ample", "mound"]);
    p.eliminate_missing_any(b"al");
    assert_eq!(members(&p), vec!["ample", "angle", "ankle", "apple"]);
    p.eliminate_missing_any(b"lgl");
    assert_eq!(members(&p), vec!["angle"]);
    p.eliminate_missing_any(b"");
    assert_eq!(members(&p), vec!["angle"]);
}

#[test]
fn eliminate_missing_any_with_a_symbol_no_word_holds_empties_the_pool() {
    let mut p = pool(&["apple", "angle"]);
    p.eliminate_missing_any(b"aA");
    assert!(p.is_empty());
}

#[test]
fn primitives_may_empty_the_pool() {
    let mut p = pool(&["apple", "angle"]);
    p.eliminate_char(b'a');
    assert_eq!(p.len(), 0);
    p.eliminate_char(b'a');
    p.eliminate_exact(0, b'a');
    p.eliminate_non_exact(0, b'a');
    p.eliminate_non_dict(&word("apple"));
    p.eliminate_missing_any(b"a");
    assert_eq!(p.len(), 0);
}

#[test]
fn primitives_never_add_members() {
    let all = ["apple", "angle", "ankle", "ample", "mound", "sassy", "stays"];
    let before = pool(&all);
    let mut a = before.clone();
    a.eliminate_char(b's');
    let mut b = before.clone();
    b.eliminate_non_exact(0, b's');
    let mut c = before.clone();
    c.eliminate_exact(0, b's');
    let mut d = before.clone();
    d.eliminate_non_dict(&word("mound"));
    let mut e = before.clone();
    e.eliminate_missing_any(b"sa");
    for after in [&a, &b, &c, &d, &e] {
        assert!(after.len() <= before.len());
        for w in after.words() {
            assert!(before.contains(&w));
        }
    }
    assert_eq!(members(&a), vec!["ample", "angle", "ankle", "apple", "mound"]);
    assert_eq!(members(&b), vec!["sassy", "stays"]);
    assert_eq!(members(&c), vec!["ample", "angle", "ankle", "apple", "mound"]);
    assert_eq!(members(&d), vec!["ample", "angle", "ankle", "apple", "sassy", "stays"]);
    assert_eq!(members(&e), vec!["sassy", "stays"]);
}

#[test]
fn applying_a_primitive_twice_shrinks_no_further() {
    let all = ["apple", "angle", "ankle", "ample", "mound", "sassy", "stays"];
    let mut p = pool(&all);
    p.eliminate_char(b'm');
    let once = members(&p);
    p.eliminate_char(b'm');
    assert_eq!(members(&p), once);

    p.eliminate_exact(4, b'y');
    let once = members(&p);
    p.eliminate_exact(4, b'y');
    assert_eq!(members(&p), once);

    p.eliminate_missing_any(b"a");
    let once = members(&p);
    p.eliminate_missing_any(b"a");
    assert_eq!(members(&p), once);

    p.eliminate_non_dict(&word("stays"));
    let once = members(&p);
    p.eliminate_non_dict(&word("stays"));
    assert_eq!(members(&p), once);

    p.eliminate_non_exact(0, b'a');
    let once = members(&p);
    p.eliminate_non_exact(0, b'a');
    assert_eq!(members(&p), once);
    assert_eq!(once, vec!["angle", "ankle", "apple"]);
}
